//! What holds of signing and verifying together.

use vstd::prelude::*;

use crate::bytes::be_bytes;
use crate::hex::hex_round_trip;
use crate::point::{
    compressed_encoding, elements, encodings_have_33_bytes, encodings_tell_points_apart, Point,
};
use crate::protocol::{
    challenge, challenge_at, close_result, is_reduced, is_signer, link, link_at, owns, place,
    response, ring_bytes, sign_result, signature_of, signed_challenge, signed_link, signing_key,
    steps, the_signer_is_located, transcript, verify_result, ErrorView, SignatureView,
};
use crate::sag::{sign_hex_result, verify_hex_result};
use crate::scalar::{mul_mod, neg_mod, order, scalars_fit_their_bytes};
use crate::types::{scalar_from_hex, scalar_hex, signature_from_hex, signature_hex};
use crate::utils::{are_nonces, ring_from_hex, ring_has_a_member_per_key};

verus! {

/// The signer's response and its challenge give back the link that opened the ring.
pub proof fn response_reopens_the_ring(alpha: nat, c: nat, key: nat)
    ensures
        link(response(alpha, c, key), c, key) == mul_mod(1, alpha),
{
    assert(c * key == key * c) by (nonlinear_arith);
}

/// A member's link and its challenge give back its response.
pub proof fn link_gives_back_the_response(s: nat, c: nat, key: nat)
    requires
        s < order(),
    ensures
        response(link(s, c, key), c, key) == s,
{
    assert(c * key == key * c) by (nonlinear_arith);
}

/// Verifying goes through the links and challenges that signing went through.
proof fn verifying_retraces_signing(
    message: Seq<u8>,
    ring: Seq<nat>,
    j: nat,
    nonces: Seq<nat>,
    i: nat,
)
    requires
        j < ring.len(),
        i <= ring.len(),
    ensures
        ({
            let n = ring.len();
            let signature = signature_of(message, ring, j, ring[j as int], nonces);
            &&& challenge_at(signature, message, ring, i) == signed_challenge(
                message,
                ring,
                j,
                nonces,
                steps(j, i, n),
            )
            &&& i < n ==> link_at(signature, message, ring, i) == signed_link(
                message,
                ring,
                j,
                nonces,
                if i == j {
                    0
                } else {
                    steps(j, i, n)
                },
            )
        }),
    decreases i,
{
    let n = ring.len();
    let signature = signature_of(message, ring, j, ring[j as int], nonces);
    if i > 0 {
        verifying_retraces_signing(message, ring, j, nonces, (i - 1) as nat);
    }
    if i < n {
        if i == j {
            response_reopens_the_ring(
                nonces[0],
                signed_challenge(message, ring, j, nonces, n),
                ring[j as int],
            );
        } else {
            assert(place(j, steps(j, i, n), n) == i);
        }
    }
}

/// What a member of the ring signs, verifies.
pub proof fn closed_ring_verifies(message: Seq<u8>, ring: Seq<nat>, j: nat, nonces: Seq<nat>)
    requires
        j < ring.len(),
        close_result(message, ring, j, ring[j as int], nonces) is Ok,
    ensures
        verify_result(
            signature_of(message, ring, j, ring[j as int], nonces),
            message,
            ring,
        ) == Ok::<bool, ErrorView>(true),
{
    let n = ring.len();
    let signature = signature_of(message, ring, j, ring[j as int], nonces);
    assert forall|i: nat| i < n implies #[trigger] link_at(signature, message, ring, i) != 0 by {
        verifying_retraces_signing(message, ring, j, nonces, i);
    }
    verifying_retraces_signing(message, ring, j, nonces, n);
}

/// A signature that signing returns is one that verifying accepts, for the same message and the
/// same ring.
pub proof fn what_is_signed_verifies(message: Seq<u8>, d: nat, ring: Seq<nat>, nonces: Seq<nat>)
    requires
        sign_result(message, d, ring, nonces) is Ok,
    ensures
        verify_result(sign_result(message, d, ring, nonces)->Ok_0, message, ring) == Ok::<
            bool,
            ErrorView,
        >(true),
{
    let j = choose|j: int| is_signer(ring, d, j);
    assert(is_signer(ring, d, j));
    assert(signing_key(d, ring[j]) == ring[j]);
    closed_ring_verifies(message, ring, j as nat, nonces);
}

/// A private key and its negation sign alike.
pub proof fn negated_key_signs_alike(message: Seq<u8>, d: nat, ring: Seq<nat>, nonces: Seq<nat>)
    requires
        d < order(),
    ensures
        sign_result(message, neg_mod(d), ring, nonces) == sign_result(message, d, ring, nonces),
{
    let e = neg_mod(d);
    assert(neg_mod(e) == d);
    assert forall|p: nat| owns(e, p) == owns(d, p) by {}
    assert forall|j: int| is_signer(ring, e, j) == is_signer(ring, d, j) by {}
    if ring.len() >= 2 && d != 0 && exists|j: int| is_signer(ring, d, j) {
        let j = choose|j: int| is_signer(ring, d, j);
        assert(is_signer(ring, e, j));
        the_signer_is_located(ring, d, j);
        the_signer_is_located(ring, e, j);
        assert(signing_key(d, ring[j]) == signing_key(e, ring[j]));
    }
}

/// The nonces with which member `j` would have made a signature.
pub open spec fn nonces_behind(
    signature: SignatureView,
    message: Seq<u8>,
    ring: Seq<nat>,
    j: nat,
) -> Seq<nat> {
    Seq::new(
        ring.len(),
        |k: int|
            if k == 0 {
                link_at(signature, message, ring, j)
            } else {
                signature.s[place(j, k as nat, ring.len()) as int]
            },
    )
}

/// Signing with those nonces goes through the challenges of the signature.
proof fn signing_retraces_verifying(
    signature: SignatureView,
    message: Seq<u8>,
    ring: Seq<nat>,
    j: nat,
    k: nat,
)
    requires
        verify_result(signature, message, ring) == Ok::<bool, ErrorView>(true),
        j < ring.len(),
        1 <= k <= ring.len(),
    ensures
        signed_challenge(message, ring, j, nonces_behind(signature, message, ring, j), k)
            == challenge_at(signature, message, ring, place(j, k, ring.len())),
        k < ring.len() ==> signed_link(
            message,
            ring,
            j,
            nonces_behind(signature, message, ring, j),
            k,
        ) == link_at(signature, message, ring, place(j, k, ring.len())),
    decreases k,
{
    let n = ring.len();
    let nonces = nonces_behind(signature, message, ring, j);
    let before = place(j, (k - 1) as nat, n);
    if k == 1 {
        let alpha = link_at(signature, message, ring, j);
        assert(signed_link(message, ring, j, nonces, 0) == mul_mod(1, alpha));
        assert(mul_mod(1, alpha) == alpha);
    } else {
        signing_retraces_verifying(signature, message, ring, j, (k - 1) as nat);
    }
    assert(signed_link(message, ring, j, nonces, (k - 1) as nat) == link_at(
        signature,
        message,
        ring,
        before,
    ));
    assert(signed_challenge(message, ring, j, nonces, k) == challenge_at(
        signature,
        message,
        ring,
        before + 1,
    ));
}

/// Any member of the ring could have made a signature that verifies: with suitable nonces its
/// private key signs exactly that. They are nonces that can be drawn, unless the response of
/// some other member is zero.
#[verifier::rlimit(40)]
pub proof fn any_member_could_have_signed(
    signature: SignatureView,
    message: Seq<u8>,
    ring: Seq<nat>,
    j: nat,
)
    requires
        verify_result(signature, message, ring) == Ok::<bool, ErrorView>(true),
        ring.len() >= 2,
        is_signer(ring, ring[j as int], j as int),
        forall|i: int| 0 <= i < ring.len() ==> #[trigger] signature.s[i] < order(),
    ensures
        sign_result(
            message,
            ring[j as int],
            ring,
            nonces_behind(signature, message, ring, j),
        ) == Ok::<SignatureView, ErrorView>(signature),
        forall|k: int|
            0 <= k < ring.len() ==> #[trigger] nonces_behind(signature, message, ring, j)[k]
                < order(),
        (forall|i: int| 0 <= i < ring.len() && i != j ==> #[trigger] signature.s[i] != 0)
            ==> are_nonces(nonces_behind(signature, message, ring, j), ring.len()),
{
    let n = ring.len();
    let nonces = nonces_behind(signature, message, ring, j);
    let d = ring[j as int];
    the_signer_is_located(ring, d, j as int);
    assert forall|k: nat| k < n implies #[trigger] signed_link(message, ring, j, nonces, k)
        != 0 by {
        if k == 0 {
            signing_retraces_verifying(signature, message, ring, j, 1);
        } else {
            signing_retraces_verifying(signature, message, ring, j, k);
        }
    }
    let signed = signature_of(message, ring, j, d, nonces);
    signing_retraces_verifying(signature, message, ring, j, steps(j, 0, n));
    assert(signed.c0 == signature.c0);
    assert forall|i: int| 0 <= i < n implies signed.s[i] == signature.s[i] by {
        if i == j {
            signing_retraces_verifying(signature, message, ring, j, n);
            link_gives_back_the_response(
                signature.s[i],
                challenge_at(signature, message, ring, j),
                d,
            );
        } else {
            assert(place(j, steps(j, i as nat, n), n) == i);
        }
    }
    assert(signed =~= signature);
}

/// A ring that holds the identity can neither be signed for nor verified against.
pub proof fn ring_with_the_identity_is_refused(
    signature: SignatureView,
    message: Seq<u8>,
    d: nat,
    ring: Seq<nat>,
    nonces: Seq<nat>,
)
    requires
        ring.contains(0),
    ensures
        sign_result(message, d, ring, nonces) is Err,
        verify_result(signature, message, ring) is Err,
{
}

/// For each member and challenge there is one response that makes the link the identity, and
/// signing fails at that member for this response alone.
pub proof fn one_response_makes_the_identity(s: nat, c: nat, p: nat)
    requires
        s < order(),
    ensures
        link(s, c, p) == 0 <==> s == neg_mod(mul_mod(p, c)),
{
}

/// A challenge is a reduced scalar other than zero.
pub proof fn challenge_is_not_zero(message: Seq<u8>, ring: Seq<nat>, link: nat)
    ensures
        0 < challenge(message, ring, link) < order(),
{
}

/// Every scalar of a signature is reduced, when the nonces are.
pub proof fn signed_scalars_are_reduced(message: Seq<u8>, d: nat, ring: Seq<nat>, nonces: Seq<nat>)
    requires
        ring.len() <= nonces.len(),
        forall|k: int| 0 <= k < nonces.len() ==> #[trigger] nonces[k] < order(),
        sign_result(message, d, ring, nonces) is Ok,
    ensures
        is_reduced(sign_result(message, d, ring, nonces)->Ok_0),
        sign_result(message, d, ring, nonces)->Ok_0.s.len() == ring.len(),
{
    let j = choose|j: int| is_signer(ring, d, j);
    assert(is_signer(ring, d, j));
}

/// Reading the digits of a reduced scalar gives it back.
pub proof fn scalar_hex_round_trip(a: nat)
    requires
        a < order(),
    ensures
        scalar_from_hex(scalar_hex(a)) == Ok::<nat, ErrorView>(a),
{
    scalars_fit_their_bytes(a);
    hex_round_trip(be_bytes(a, 32));
}

/// Reading the hexadecimal form of a signature gives it back.
pub proof fn signature_hex_round_trip(signature: SignatureView)
    requires
        is_reduced(signature),
    ensures
        signature_from_hex(signature_hex(signature)) == Ok::<SignatureView, ErrorView>(signature),
{
    let written = signature_hex(signature);
    scalar_hex_round_trip(signature.c0);
    assert forall|i: int| 0 <= i < written.s.len() implies scalar_from_hex(
        #[trigger] written.s[i],
    ) == Ok::<nat, ErrorView>(signature.s[i]) by {
        scalar_hex_round_trip(signature.s[i]);
    }
    assert(signature_from_hex(written)->Ok_0.s =~= signature.s);
    assert(signature_from_hex(written)->Ok_0 =~= signature);
}

/// A signature that signing in hexadecimal returns is one that verifying in hexadecimal accepts,
/// for the same message and the same ring.
pub proof fn what_is_signed_in_hex_verifies(
    message: Seq<u8>,
    private_key: Seq<char>,
    keys: Seq<Seq<char>>,
    nonces: Seq<nat>,
)
    requires
        are_nonces(nonces, keys.len()),
        sign_hex_result(message, private_key, keys, nonces) is Ok,
    ensures
        verify_hex_result(
            sign_hex_result(message, private_key, keys, nonces)->Ok_0,
            message,
            keys,
        ) == Ok::<bool, ErrorView>(true),
{
    let d = scalar_from_hex(private_key)->Ok_0;
    let ring = ring_from_hex(keys)->Ok_0;
    let signature = sign_result(message, d, ring, nonces)->Ok_0;
    ring_has_a_member_per_key(keys);
    what_is_signed_verifies(message, d, ring, nonces);
    signed_scalars_are_reduced(message, d, ring, nonces);
    signature_hex_round_trip(signature);
}

/// Verifying in hexadecimal says what verifying says, of the same signature and the same ring.
pub proof fn hex_and_binary_verifying_agree(
    signature: SignatureView,
    message: Seq<u8>,
    keys: Seq<Seq<char>>,
)
    requires
        is_reduced(signature),
        ring_from_hex(keys) is Ok,
    ensures
        verify_hex_result(signature_hex(signature), message, keys) == verify_result(
            signature,
            message,
            ring_from_hex(keys)->Ok_0,
        ),
{
    signature_hex_round_trip(signature);
}

/// Every point of the ring is one that can be hashed.
pub open spec fn is_hashable(ring: Seq<Point>) -> bool {
    forall|i: int| 0 <= i < ring.len() ==> (#[trigger] ring[i]).wf() && ring[i]@ != 0
}

/// The members of a ring take 33 bytes each.
pub proof fn ring_bytes_len(ring: Seq<Point>)
    requires
        is_hashable(ring),
    ensures
        ring_bytes(elements(ring)).len() == 33 * ring.len(),
    decreases ring.len(),
{
    if ring.len() > 0 {
        assert(elements(ring).drop_last() =~= elements(ring.drop_last()));
        assert(ring.last().wf() && ring.last()@ != 0) by {
            assert(ring[ring.len() - 1].wf());
        }
        assert forall|i: int| 0 <= i < ring.drop_last().len() implies (
        #[trigger] ring.drop_last()[i]).wf() && ring.drop_last()[i]@ != 0 by {
            assert(ring[i].wf());
        }
        ring_bytes_len(ring.drop_last());
        encodings_have_33_bytes(ring.last());
    }
}

/// The bytes of a ring tell its members.
pub proof fn ring_bytes_tell_rings_apart(ring: Seq<Point>, other: Seq<Point>)
    requires
        is_hashable(ring),
        is_hashable(other),
        ring.len() == other.len(),
        ring_bytes(elements(ring)) == ring_bytes(elements(other)),
    ensures
        elements(ring) == elements(other),
    decreases ring.len(),
{
    if ring.len() > 0 {
        let (p, q) = (ring.last(), other.last());
        let (front, other_front) = (ring.drop_last(), other.drop_last());
        assert(elements(ring).drop_last() =~= elements(front));
        assert(elements(other).drop_last() =~= elements(other_front));
        assert(ring[ring.len() - 1] == p && other[other.len() - 1] == q);
        assert forall|i: int| 0 <= i < front.len() implies (#[trigger] front[i]).wf()
            && front[i]@ != 0 by {
            assert(ring[i].wf());
        }
        assert forall|i: int| 0 <= i < other_front.len() implies (#[trigger] other_front[i]).wf()
            && other_front[i]@ != 0 by {
            assert(other[i].wf());
        }
        ring_bytes_len(front);
        ring_bytes_len(other_front);
        let (a, b) = (ring_bytes(elements(front)), ring_bytes(elements(other_front)));
        let (x, y) = (compressed_encoding(p@), compressed_encoding(q@));
        assert(a + x == b + y);
        assert(a =~= (a + x).take(a.len() as int));
        assert(b =~= (b + y).take(a.len() as int));
        assert(x =~= (a + x).skip(a.len() as int));
        assert(y =~= (b + y).skip(a.len() as int));
        ring_bytes_tell_rings_apart(front, other_front);
        encodings_tell_points_apart(p, q);
        assert(elements(ring) =~= elements(front).push(p@));
        assert(elements(other) =~= elements(other_front).push(q@));
    } else {
        assert(elements(ring) =~= elements(other));
    }
}

/// The hashed bytes tell the message, the ring and the link, where the messages have one length
/// or the rings have one size.
pub proof fn transcripts_tell_inputs_apart(
    message: Seq<u8>,
    ring: Seq<Point>,
    link: Point,
    other_message: Seq<u8>,
    other_ring: Seq<Point>,
    other_link: Point,
)
    requires
        is_hashable(ring),
        is_hashable(other_ring),
        link.wf(),
        other_link.wf(),
        link@ != 0,
        other_link@ != 0,
        message.len() == other_message.len() || ring.len() == other_ring.len(),
        transcript(message, elements(ring), link@) == transcript(
            other_message,
            elements(other_ring),
            other_link@,
        ),
    ensures
        message == other_message,
        elements(ring) == elements(other_ring),
        link@ == other_link@,
{
    ring_bytes_len(ring);
    ring_bytes_len(other_ring);
    encodings_have_33_bytes(link);
    encodings_have_33_bytes(other_link);
    let (a, b) = (ring_bytes(elements(ring)), ring_bytes(elements(other_ring)));
    let (x, y) = (compressed_encoding(link@), compressed_encoding(other_link@));
    let whole = message + a + x;
    assert(whole == other_message + b + y);
    assert(message.len() == other_message.len() && a.len() == b.len());
    let m = message.len() as int;
    let e = (message + a).len() as int;
    assert(message =~= whole.take(m) && other_message =~= whole.take(m));
    assert(a =~= whole.subrange(m, e) && b =~= whole.subrange(m, e));
    assert(x =~= whole.skip(e) && y =~= whole.skip(e));
    ring_bytes_tell_rings_apart(ring, other_ring);
    encodings_tell_points_apart(link, other_link);
}

} // verus!
