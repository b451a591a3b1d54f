//! What hashing, locating, verifying and signing do, step by step round the ring.

use vstd::arithmetic::div_mod::{
    lemma_add_mod_noop, lemma_fundamental_div_mod_converse, lemma_small_mod,
};
use vstd::prelude::*;

use crate::bytes::be_value;
use crate::hash::sha256;
use crate::key_laws::{
    rings_are_read_key_by_key, signatures_are_read_place_by_place, the_first_unreadable_key_is_told,
};
use crate::laws::{ring_bytes_len, ring_bytes_tell_rings_apart};
use crate::point::{compressed_encoding, elements, encodings_tell_points_apart, Point};
use crate::protocol::{
    are_draws, challenge, challenge_at, close_result, hash_result, is_signer, link, link_at,
    locate_result, place, response, ring_bytes, sign_result, signature_of, signed_challenge,
    signed_link, signs_identity, steps, the_signer_is_located, verify_result, ErrorView,
    SignatureView,
};
use crate::sag::{are_hex_draws, sign_hex_result, verify_hex_result};
use crate::scalar::{mul_mod, neg_mod, order};
use crate::types::{scalar_from_hex, scalar_hex, HexSignatureView};
use crate::utils::{completed, point_from_hex};

verus! {

// ---- Hashing ----

/// The bytes hashed for a ring are the encodings of all its members, in order.
pub proof fn every_member_is_hashed_in_order(ring: Seq<nat>)
    ensures
        ring_bytes(ring) == ring.flat_map(|p: nat| compressed_encoding(p)),
    decreases ring.len(),
{
    let f = |p: nat| compressed_encoding(p);
    if ring.len() > 0 {
        every_member_is_hashed_in_order(ring.drop_last());
        ring.drop_last().lemma_flat_map_push(f, ring.last());
        assert(ring.drop_last().push(ring.last()) =~= ring);
    } else {
        assert(ring.map_values(f) =~= Seq::empty());
    }
}

/// For a ring of any size and a message of any length, the challenge after a link is the SHA-256
/// digest of the whole message, the encodings of all members and the encoding of the link, as an
/// integer modulo the group order, with one in place of zero.
pub proof fn challenges_hash_message_ring_and_link(message: Seq<u8>, ring: Seq<nat>, link: nat)
    requires
        forall|i: int| 0 <= i < ring.len() ==> #[trigger] ring[i] != 0,
        link != 0,
    ensures
        ({
            let v = be_value(
                sha256(
                    message + ring.flat_map(|p: nat| compressed_encoding(p)) + compressed_encoding(
                        link,
                    ),
                ),
            ) % order();
            hash_result(message, ring, link) == Ok::<nat, ErrorView>(
                if v == 0 {
                    1
                } else {
                    v
                },
            )
        }),
{
    every_member_is_hashed_in_order(ring);
}

/// A ring that holds the identity cannot be hashed, and neither can the identity as a link.
pub proof fn the_identity_cannot_be_hashed(message: Seq<u8>, ring: Seq<nat>, link: nat)
    ensures
        (exists|i: int| 0 <= i < ring.len() && #[trigger] ring[i] == 0) ==> hash_result(
            message,
            ring,
            link,
        ) == Err::<nat, ErrorView>(
            ErrorView::PublicKeyFormat("Cannot hash identity point in ring"@),
        ),
        (forall|i: int| 0 <= i < ring.len() ==> #[trigger] ring[i] != 0) && link == 0
            ==> hash_result(message, ring, link) == Err::<nat, ErrorView>(
            ErrorView::PublicKeyFormat("Cannot hash identity ephemeral point"@),
        ),
{
}

// ---- Locating the signer ----

/// The signer is the first member, of all of them, that is the public key of `d` or its negation.
pub proof fn the_first_owner_signs(ring: Seq<nat>, d: nat, j: int)
    requires
        ring.len() >= 2,
        0 < d < order(),
        0 <= j < ring.len(),
        ring[j] == d || ring[j] + d == order(),
        forall|i: int| 0 <= i < j ==> #[trigger] ring[i] != d && ring[i] + d != order(),
    ensures
        locate_result(d, ring) == Ok::<(nat, nat), ErrorView>((j as nat, ring[j])),
{
    assert(neg_mod(d) == order() - d);
    assert(is_signer(ring, d, j));
    the_signer_is_located(ring, d, j);
}

/// Whoever owns some member of the ring, at whatever place, is located, at the first such place
/// and with the private key of that member.
pub proof fn every_owner_is_located(ring: Seq<nat>, d: nat, i: int)
    requires
        ring.len() >= 2,
        0 < d < order(),
        0 <= i < ring.len(),
        ring[i] == d || ring[i] + d == order(),
    ensures
        ({
            &&& locate_result(d, ring) matches Ok((j, key))
            &&& j <= i
            &&& key == ring[j as int]
            &&& (ring[j as int] == d || ring[j as int] + d == order())
            &&& forall|k: int| 0 <= k < j ==> #[trigger] ring[k] != d && ring[k] + d != order()
        }),
    decreases i,
{
    if exists|k: int| 0 <= k < i && (#[trigger] ring[k] == d || ring[k] + d == order()) {
        let k = choose|k: int| 0 <= k < i && (#[trigger] ring[k] == d || ring[k] + d == order());
        every_owner_is_located(ring, d, k);
    } else {
        the_first_owner_signs(ring, d, i);
    }
}

/// Nobody is located in a ring of fewer than two members, with a private key that is zero, or
/// where no member at all is the public key or its negation.
pub proof fn outsiders_are_not_located(ring: Seq<nat>, d: nat)
    ensures
        ring.len() < 2 ==> locate_result(d, ring) == Err::<(nat, nat), ErrorView>(
            ErrorView::RingTooSmall(ring.len()),
        ),
        ring.len() >= 2 && d == 0 ==> locate_result(d, ring) == Err::<(nat, nat), ErrorView>(
            ErrorView::PrivateKeyFormat("Private key scalar cannot be zero"@),
        ),
        ring.len() >= 2 && 0 < d < order() ==> (locate_result(d, ring) == Err::<
            (nat, nat),
            ErrorView,
        >(ErrorView::SignerNotInRing) <==> forall|i: int|
            0 <= i < ring.len() ==> #[trigger] ring[i] != d && ring[i] + d != order()),
{
    if ring.len() >= 2 && 0 < d < order() {
        assert(neg_mod(d) == order() - d);
        if exists|i: int|
            0 <= i < ring.len() && (#[trigger] ring[i] == d || ring[i] + d == order()) {
            let i = choose|i: int|
                0 <= i < ring.len() && (#[trigger] ring[i] == d || ring[i] + d == order());
            every_owner_is_located(ring, d, i);
        }
    }
}

// ---- Links ----

/// A link is the response and the challenge times the member, modulo the group order.
proof fn link_is_a_sum(s: nat, c: nat, p: nat)
    ensures
        link(s, c, p) == (s + c * p) % order(),
{
    lemma_add_mod_noop(s as int, (p * c) as int, order() as int);
    assert(c * p == p * c) by (nonlinear_arith);
}

// ---- Verifying ----

/// The challenges of a walk round the ring are the ones that verifying goes through.
proof fn walk_goes_through_the_challenges(
    signature: SignatureView,
    message: Seq<u8>,
    ring: Seq<nat>,
    c: Seq<nat>,
    i: nat,
)
    requires
        i <= ring.len(),
        i < c.len(),
        c[0] == signature.c0,
        forall|k: int|
            0 <= k < i ==> hash_result(
                message,
                ring,
                (#[trigger] signature.s[k] + c[k] * ring[k]) % order(),
            ) == Ok::<nat, ErrorView>(c[k + 1]),
    ensures
        c[i as int] == challenge_at(signature, message, ring, i),
        forall|k: nat|
            k < i ==> #[trigger] link_at(signature, message, ring, k) == (signature.s[k as int]
                + c[k as int] * ring[k as int]) % order(),
        link_at(signature, message, ring, i) == (signature.s[i as int] + c[i as int]
            * ring[i as int]) % order(),
    decreases i,
{
    if i > 0 {
        let before = (i - 1) as nat;
        walk_goes_through_the_challenges(signature, message, ring, c, before);
        assert(hash_result(
            message,
            ring,
            (signature.s[before as int] + c[before as int] * ring[before as int]) % order(),
        ) == Ok::<nat, ErrorView>(c[i as int]));
        assert(challenge_at(signature, message, ring, i) == challenge(
            message,
            ring,
            link_at(signature, message, ring, before),
        ));
    }
    link_is_a_sum(signature.s[i as int], c[i as int], ring[i as int]);
}

/// Verifying walks round the ring: it starts from the first challenge, hashes the whole message,
/// the whole ring and the link of each member in turn to the next challenge, and accepts exactly
/// if it comes back to the challenge that it started from.
pub proof fn verifying_walks_round_the_ring(
    signature: SignatureView,
    message: Seq<u8>,
    ring: Seq<nat>,
    c: Seq<nat>,
)
    requires
        ring.len() > 0,
        signature.s.len() == ring.len(),
        c.len() == ring.len() + 1,
        c[0] == signature.c0,
        forall|k: int|
            0 <= k < ring.len() ==> hash_result(
                message,
                ring,
                (#[trigger] signature.s[k] + c[k] * ring[k]) % order(),
            ) == Ok::<nat, ErrorView>(c[k + 1]),
    ensures
        verify_result(signature, message, ring) == Ok::<bool, ErrorView>(
            c[ring.len() as int] == signature.c0,
        ),
{
    let n = ring.len();
    walk_goes_through_the_challenges(signature, message, ring, c, n);
    assert(!ring.contains(0)) by {
        assert(signature.s[0] == signature.s[0]);
    }
    assert forall|k: nat| k < n implies #[trigger] link_at(signature, message, ring, k) != 0 by {
        assert(signature.s[k as int] == signature.s[k as int]);
    }
}

/// Verifying fails where the walk comes to a link that cannot be hashed, with that error.
pub proof fn verifying_fails_where_hashing_does(
    signature: SignatureView,
    message: Seq<u8>,
    ring: Seq<nat>,
    c: Seq<nat>,
    i: nat,
    error: ErrorView,
)
    requires
        i < ring.len(),
        signature.s.len() == ring.len(),
        i < c.len(),
        c[0] == signature.c0,
        forall|k: int|
            0 <= k < i ==> hash_result(
                message,
                ring,
                (#[trigger] signature.s[k] + c[k] * ring[k]) % order(),
            ) == Ok::<nat, ErrorView>(c[k + 1]),
        hash_result(
            message,
            ring,
            (signature.s[i as int] + c[i as int] * ring[i as int]) % order(),
        ) == Err::<nat, ErrorView>(error),
    ensures
        verify_result(signature, message, ring) == Err::<bool, ErrorView>(error),
{
    walk_goes_through_the_challenges(signature, message, ring, c, i);
    if !ring.contains(0) {
        assert(link_at(signature, message, ring, i) == 0);
    }
}

/// No signature holds for the empty ring, and one with another number of responses than the ring
/// has members is malformed.
pub proof fn verifying_asks_for_a_response_per_member(
    signature: SignatureView,
    message: Seq<u8>,
    ring: Seq<nat>,
)
    ensures
        ring.len() == 0 ==> verify_result(signature, message, ring) == Ok::<bool, ErrorView>(false),
        ring.len() > 0 && signature.s.len() != ring.len() ==> verify_result(
            signature,
            message,
            ring,
        ) == Err::<bool, ErrorView>(ErrorView::InvalidSignatureFormat),
{
}

/// Wherever verifying decides, there is a walk all the way round the ring, and it decides by
/// whether that walk closes.
pub proof fn a_decision_has_a_walk(
    signature: SignatureView,
    message: Seq<u8>,
    ring: Seq<nat>,
) -> (c: Seq<nat>)
    requires
        ring.len() > 0,
        verify_result(signature, message, ring) is Ok,
    ensures
        signature.s.len() == ring.len(),
        forall|i: int| 0 <= i < ring.len() ==> #[trigger] ring[i] != 0,
        c.len() == ring.len() + 1,
        c[0] == signature.c0,
        forall|k: int|
            0 <= k < ring.len() ==> (#[trigger] signature.s[k] + c[k] * ring[k]) % order() != 0
                && hash_result(message, ring, (signature.s[k] + c[k] * ring[k]) % order()) == Ok::<
                nat,
                ErrorView,
            >(c[k + 1]),
        verify_result(signature, message, ring) == Ok::<bool, ErrorView>(
            c[ring.len() as int] == signature.c0,
        ),
{
    let n = ring.len();
    let c = Seq::new(n + 1, |i: int| challenge_at(signature, message, ring, i as nat));
    assert forall|k: int| 0 <= k < n implies (#[trigger] signature.s[k] + c[k] * ring[k]) % order()
        != 0 && hash_result(message, ring, (signature.s[k] + c[k] * ring[k]) % order()) == Ok::<
        nat,
        ErrorView,
    >(c[k + 1]) by {
        link_is_a_sum(signature.s[k], c[k], ring[k]);
        assert(link_at(signature, message, ring, k as nat) != 0);
        assert(challenge_at(signature, message, ring, (k + 1) as nat) == challenge(
            message,
            ring,
            link_at(signature, message, ring, k as nat),
        ));
    }
    c
}

// ---- What an accepted signature is bound to ----

/// A signature that is accepted for one ring and two different messages of one length shows two
/// different byte strings, each a whole message with the ring and a link, whose digests give one
/// challenge. The two links are returned.
pub proof fn a_signature_for_two_messages_shows_a_collision(
    signature: SignatureView,
    ring: Seq<nat>,
    message: Seq<u8>,
    other: Seq<u8>,
) -> (links: (nat, nat))
    requires
        verify_result(signature, message, ring) == Ok::<bool, ErrorView>(true),
        verify_result(signature, other, ring) == Ok::<bool, ErrorView>(true),
        message != other,
        message.len() == other.len(),
    ensures
        ({
            let encodings = ring.flat_map(|p: nat| compressed_encoding(p));
            let hashed = message + encodings + compressed_encoding(links.0);
            let other_hashed = other + encodings + compressed_encoding(links.1);
            let v = be_value(sha256(hashed)) % order();
            let w = be_value(sha256(other_hashed)) % order();
            &&& hashed != other_hashed
            &&& (if v == 0 {
                1
            } else {
                v
            }) == (if w == 0 {
                1
            } else {
                w
            })
        }),
{
    let last = ring.len() - 1;
    let c = a_decision_has_a_walk(signature, message, ring);
    let e = a_decision_has_a_walk(signature, other, ring);
    let l = (signature.s[last] + c[last] * ring[last]) % order();
    let m = (signature.s[last] + e[last] * ring[last]) % order();
    challenges_hash_message_ring_and_link(message, ring, l);
    challenges_hash_message_ring_and_link(other, ring, m);
    let encodings = ring.flat_map(|p: nat| compressed_encoding(p));
    let hashed = message + encodings + compressed_encoding(l);
    let other_hashed = other + encodings + compressed_encoding(m);
    assert(message =~= hashed.take(message.len() as int));
    assert(other =~= other_hashed.take(message.len() as int));
    (l, m)
}

/// A signature that is accepted for one message and two different rings of one size shows two
/// different byte strings, each the message with a whole ring and a link, whose digests give one
/// challenge. The two links are returned.
pub proof fn a_signature_for_two_rings_shows_a_collision(
    signature: SignatureView,
    message: Seq<u8>,
    ring: Seq<Point>,
    other: Seq<Point>,
) -> (links: (nat, nat))
    requires
        verify_result(signature, message, elements(ring)) == Ok::<bool, ErrorView>(true),
        verify_result(signature, message, elements(other)) == Ok::<bool, ErrorView>(true),
        forall|i: int| 0 <= i < ring.len() ==> (#[trigger] ring[i]).wf(),
        forall|i: int| 0 <= i < other.len() ==> (#[trigger] other[i]).wf(),
        elements(ring) != elements(other),
        ring.len() == other.len(),
    ensures
        ({
            let hashed = message + elements(ring).flat_map(|p: nat| compressed_encoding(p))
                + compressed_encoding(links.0);
            let other_hashed = message + elements(other).flat_map(|p: nat| compressed_encoding(p))
                + compressed_encoding(links.1);
            let v = be_value(sha256(hashed)) % order();
            let w = be_value(sha256(other_hashed)) % order();
            &&& hashed != other_hashed
            &&& (if v == 0 {
                1
            } else {
                v
            }) == (if w == 0 {
                1
            } else {
                w
            })
        }),
{
    let (a, b) = (elements(ring), elements(other));
    let last = a.len() - 1;
    let c = a_decision_has_a_walk(signature, message, a);
    let e = a_decision_has_a_walk(signature, message, b);
    let l = (signature.s[last] + c[last] * a[last]) % order();
    let m = (signature.s[last] + e[last] * b[last]) % order();
    challenges_hash_message_ring_and_link(message, a, l);
    challenges_hash_message_ring_and_link(message, b, m);
    assert forall|i: int| 0 <= i < ring.len() implies (#[trigger] ring[i]).wf() && ring[i]@
        != 0 by {
        assert(a[i] != 0);
    }
    assert forall|i: int| 0 <= i < other.len() implies (#[trigger] other[i]).wf() && other[i]@
        != 0 by {
        assert(b[i] != 0);
    }
    every_member_is_hashed_in_order(a);
    every_member_is_hashed_in_order(b);
    ring_bytes_len(ring);
    ring_bytes_len(other);
    let (start, end) = (message.len() as int, (message.len() + 33 * ring.len()) as int);
    let hashed = message + ring_bytes(a) + compressed_encoding(l);
    let other_hashed = message + ring_bytes(b) + compressed_encoding(m);
    assert(ring_bytes(a) =~= hashed.subrange(start, end));
    assert(ring_bytes(b) =~= other_hashed.subrange(start, end));
    if hashed == other_hashed {
        ring_bytes_tell_rings_apart(ring, other);
    }
    (l, m)
}

/// Where the challenges differ and the response does not, the links differ too.
proof fn other_challenge_other_link(s: nat, c: nat, e: nat, p: nat)
    requires
        c < order(),
        e < order(),
        c != e,
        0 < p < order(),
        forall|a: nat, b: nat|
            0 < a < order() && 0 < b < order() ==> #[trigger] (a * b) % order() != 0,
    ensures
        (s + c * p) % order() != (s + e * p) % order(),
{
    let (high, low) = if c > e {
        (c, e)
    } else {
        (e, c)
    };
    let gap = (high - low) as nat;
    assert(high * p == low * p + gap * p) by (nonlinear_arith)
        requires
            high == low + gap,
    ;
    assert((gap * p) % order() != 0);
}

/// Two signatures that are accepted for one message and one ring, with one first challenge, and
/// differ in one response alone, show two different links whose digests, of the same message and
/// ring with either link, give one challenge. The two links are returned.
///
/// That the group order is prime is taken as given: no product of two scalars other than zero is
/// a multiple of it.
pub proof fn a_changed_response_shows_a_collision(
    signature: SignatureView,
    tampered: SignatureView,
    message: Seq<u8>,
    ring: Seq<nat>,
    at: int,
) -> (links: (nat, nat))
    requires
        forall|a: nat, b: nat|
            0 < a < order() && 0 < b < order() ==> #[trigger] (a * b) % order() != 0,
        verify_result(signature, message, ring) == Ok::<bool, ErrorView>(true),
        verify_result(tampered, message, ring) == Ok::<bool, ErrorView>(true),
        signature.c0 == tampered.c0,
        0 <= at < ring.len(),
        signature.s[at] != tampered.s[at],
        signature.s[at] < order(),
        tampered.s[at] < order(),
        forall|i: int|
            0 <= i < ring.len() && i != at ==> #[trigger] signature.s[i] == tampered.s[i],
        forall|i: int| 0 <= i < ring.len() ==> #[trigger] ring[i] < order(),
    ensures
        0 < links.0 < order(),
        0 < links.1 < order(),
        links.0 != links.1,
        ({
            let encodings = ring.flat_map(|p: nat| compressed_encoding(p));
            let hashed = message + encodings + compressed_encoding(links.0);
            let other_hashed = message + encodings + compressed_encoding(links.1);
            let v = be_value(sha256(hashed)) % order();
            let w = be_value(sha256(other_hashed)) % order();
            &&& (if v == 0 {
                1
            } else {
                v
            }) == (if w == 0 {
                1
            } else {
                w
            })
            &&& forall|p: Point, q: Point|
                #[trigger] p.wf() && #[trigger] q.wf() && p@ == links.0 && q@ == links.1 ==> hashed
                    != other_hashed
        }),
{
    let n = ring.len() as int;
    let c = a_decision_has_a_walk(signature, message, ring);
    let e = a_decision_has_a_walk(tampered, message, ring);
    let i = first_meeting(signature, tampered, message, ring, at, c, e, at);
    let l = (signature.s[i] + c[i] * ring[i]) % order();
    let m = (tampered.s[i] + e[i] * ring[i]) % order();
    challenges_hash_message_ring_and_link(message, ring, l);
    challenges_hash_message_ring_and_link(message, ring, m);
    let encodings = ring.flat_map(|p: nat| compressed_encoding(p));
    let start = message + encodings;
    assert forall|p: Point, q: Point| #[trigger]
        p.wf() && #[trigger] q.wf() && p@ == l && q@ == m implies start + compressed_encoding(l)
        != start + compressed_encoding(m) by {
        let (a, b) = (start + compressed_encoding(l), start + compressed_encoding(m));
        assert(compressed_encoding(l) =~= a.skip(start.len() as int));
        assert(compressed_encoding(m) =~= b.skip(start.len() as int));
        if a == b {
            encodings_tell_points_apart(p, q);
        }
    }
    (l, m)
}

/// Two walks that part at a changed response meet again: the first place from `i` on where they
/// do, whose links differ.
proof fn first_meeting(
    signature: SignatureView,
    tampered: SignatureView,
    message: Seq<u8>,
    ring: Seq<nat>,
    at: int,
    c: Seq<nat>,
    e: Seq<nat>,
    i: int,
) -> (r: int)
    requires
        forall|a: nat, b: nat|
            0 < a < order() && 0 < b < order() ==> #[trigger] (a * b) % order() != 0,
        0 <= at <= i < ring.len(),
        signature.s.len() == ring.len(),
        tampered.s.len() == ring.len(),
        c.len() == ring.len() + 1,
        e.len() == ring.len() + 1,
        c[0] == e[0],
        c[ring.len() as int] == e[ring.len() as int],
        signature.s[at] != tampered.s[at],
        signature.s[at] < order(),
        tampered.s[at] < order(),
        forall|k: int|
            0 <= k < ring.len() && k != at ==> #[trigger] signature.s[k] == tampered.s[k],
        forall|k: int| 0 <= k < ring.len() ==> 0 < #[trigger] ring[k] < order(),
        forall|k: int|
            0 <= k < ring.len() ==> hash_result(
                message,
                ring,
                (#[trigger] signature.s[k] + c[k] * ring[k]) % order(),
            ) == Ok::<nat, ErrorView>(c[k + 1]),
        forall|k: int|
            0 <= k < ring.len() ==> hash_result(
                message,
                ring,
                (#[trigger] tampered.s[k] + e[k] * ring[k]) % order(),
            ) == Ok::<nat, ErrorView>(e[k + 1]),
        i > at ==> c[i] != e[i],
    ensures
        i <= r < ring.len(),
        (signature.s[r] + c[r] * ring[r]) % order() != (tampered.s[r] + e[r] * ring[r]) % order(),
        c[r + 1] == e[r + 1],
    decreases ring.len() - i,
{
    if i == at {
        walks_agree_up_to(signature, tampered, message, ring, c, e, at);
        let t = c[i] * ring[i];
        assert((signature.s[i] + t) % order() != (tampered.s[i] + t) % order());
    } else {
        let (l, m) = (
            (signature.s[i - 1] + c[i - 1] * ring[i - 1]) % order(),
            (tampered.s[i - 1] + e[i - 1] * ring[i - 1]) % order(),
        );
        assert(hash_result(message, ring, l) == Ok::<nat, ErrorView>(c[i]));
        assert(hash_result(message, ring, m) == Ok::<nat, ErrorView>(e[i]));
        assert(challenge(message, ring, l) < order() && challenge(message, ring, m) < order());
        assert(signature.s[i] == tampered.s[i]);
        other_challenge_other_link(signature.s[i], c[i], e[i], ring[i]);
    }
    if c[i + 1] == e[i + 1] {
        i
    } else {
        first_meeting(signature, tampered, message, ring, at, c, e, i + 1)
    }
}

/// Two walks from one challenge agree as long as the responses do.
proof fn walks_agree_up_to(
    signature: SignatureView,
    tampered: SignatureView,
    message: Seq<u8>,
    ring: Seq<nat>,
    c: Seq<nat>,
    e: Seq<nat>,
    i: int,
)
    requires
        0 <= i <= ring.len(),
        c[0] == e[0],
        forall|k: int| 0 <= k < i ==> #[trigger] signature.s[k] == tampered.s[k],
        forall|k: int|
            0 <= k < i ==> hash_result(
                message,
                ring,
                (#[trigger] signature.s[k] + c[k] * ring[k]) % order(),
            ) == Ok::<nat, ErrorView>(c[k + 1]),
        forall|k: int|
            0 <= k < i ==> hash_result(
                message,
                ring,
                (#[trigger] tampered.s[k] + e[k] * ring[k]) % order(),
            ) == Ok::<nat, ErrorView>(e[k + 1]),
    ensures
        c[i] == e[i],
    decreases i,
{
    if i > 0 {
        walks_agree_up_to(signature, tampered, message, ring, c, e, i - 1);
        assert(signature.s[i - 1] == tampered.s[i - 1]);
    }
}

// ---- Signing ----

/// Going round the ring is adding modulo its size.
proof fn places_go_round(j: nat, k: nat, n: nat)
    requires
        j < n,
        k < n,
    ensures
        place(j, k, n) == (j + k) % n,
        place(j, k, n) < n,
        0 < k ==> steps(j, place(j, k, n), n) == k,
{
    if j + k < n {
        lemma_small_mod(j + k, n);
    } else {
        lemma_fundamental_div_mod_converse(
            (j + k) as int,
            n as int,
            1,
            j + k - n,
        );
    }
}

/// The links and challenges of a signer's walk are the ones that signing goes through.
proof fn signer_goes_through_the_links(
    message: Seq<u8>,
    ring: Seq<nat>,
    j: nat,
    nonces: Seq<nat>,
    l: Seq<nat>,
    c: Seq<nat>,
    i: nat,
)
    requires
        j < ring.len(),
        i < ring.len(),
        l[0] == nonces[0] % order(),
        forall|k: int|
            1 <= k <= i ==> #[trigger] l[k] == (nonces[k] + c[k] * ring[((j + k) as nat
                % ring.len()) as int]) % order(),
        forall|k: int|
            0 <= k < i ==> hash_result(message, ring, #[trigger] l[k]) == Ok::<nat, ErrorView>(
                c[k + 1],
            ),
    ensures
        signed_link(message, ring, j, nonces, i) == l[i as int],
        i > 0 ==> signed_challenge(message, ring, j, nonces, i) == c[i as int],
    decreases i,
{
    if i > 0 {
        let before = (i - 1) as nat;
        signer_goes_through_the_links(message, ring, j, nonces, l, c, before);
        assert(hash_result(message, ring, l[before as int]) == Ok::<nat, ErrorView>(c[i as int]));
        assert(signed_challenge(message, ring, j, nonces, i) == challenge(
            message,
            ring,
            signed_link(message, ring, j, nonces, before),
        ));
        places_go_round(j, i, ring.len());
        link_is_a_sum(nonces[i as int], c[i as int], ring[place(j, i, ring.len()) as int]);
    } else {
        assert(mul_mod(1, nonces[0]) == nonces[0] % order());
    }
}

/// The challenge at step `i` of a signer's walk all the way round.
proof fn signer_comes_to_the_challenge(
    message: Seq<u8>,
    ring: Seq<nat>,
    j: nat,
    nonces: Seq<nat>,
    l: Seq<nat>,
    c: Seq<nat>,
    i: nat,
)
    requires
        j < ring.len(),
        ring.len() <= nonces.len(),
        l.len() == ring.len(),
        c.len() == ring.len() + 1,
        l[0] == nonces[0] % order(),
        forall|k: int|
            1 <= k < ring.len() ==> #[trigger] l[k] == (nonces[k] + c[k] * ring[((j + k) as nat
                % ring.len()) as int]) % order(),
        forall|k: int|
            0 <= k < ring.len() ==> hash_result(message, ring, #[trigger] l[k]) == Ok::<
                nat,
                ErrorView,
            >(c[k + 1]),
        1 <= i <= ring.len(),
    ensures
        signed_challenge(message, ring, j, nonces, i) == c[i as int],
{
    let before = (i - 1) as nat;
    signer_goes_through_the_links(message, ring, j, nonces, l, c, before);
    assert(hash_result(message, ring, l[before as int]) == Ok::<nat, ErrorView>(c[i as int]));
}

/// A signer's walk all the way round comes upon no identity.
proof fn signer_comes_upon_no_identity(
    message: Seq<u8>,
    ring: Seq<nat>,
    j: nat,
    nonces: Seq<nat>,
    l: Seq<nat>,
    c: Seq<nat>,
)
    requires
        j < ring.len(),
        ring.len() <= nonces.len(),
        l.len() == ring.len(),
        c.len() == ring.len() + 1,
        l[0] == nonces[0] % order(),
        forall|k: int|
            1 <= k < ring.len() ==> #[trigger] l[k] == (nonces[k] + c[k] * ring[((j + k) as nat
                % ring.len()) as int]) % order(),
        forall|k: int|
            0 <= k < ring.len() ==> hash_result(message, ring, #[trigger] l[k]) == Ok::<
                nat,
                ErrorView,
            >(c[k + 1]),
    ensures
        !ring.contains(0),
        !signs_identity(message, ring, j, nonces),
{
    assert(hash_result(message, ring, l[0]) is Ok);
    assert forall|k: nat| k < ring.len() implies #[trigger] signed_link(
        message,
        ring,
        j,
        nonces,
        k,
    ) != 0 by {
        signer_goes_through_the_links(message, ring, j, nonces, l, c, k);
        assert(hash_result(message, ring, l[k as int]) is Ok);
    }
}

/// The signer's response and its challenge lead back to the nonce that opened the ring.
proof fn response_leads_back(alpha: nat, c: nat, key: nat)
    ensures
        response(alpha, c, key) < order(),
        (response(alpha, c, key) + c * key) % order() == alpha % order(),
{
}

/// Signing walks round the ring from the signer: the first nonce opens it, each further nonce is
/// the response of the next member, and the whole message, the whole ring and each link in turn
/// are hashed to the challenge of the member after it. The signature has the challenge of the
/// first member, those responses at their members' places, and for the signer the response that
/// leads back to the link that opened the ring.
pub proof fn signing_walks_round_the_ring(
    message: Seq<u8>,
    ring: Seq<nat>,
    j: nat,
    key: nat,
    nonces: Seq<nat>,
    l: Seq<nat>,
    c: Seq<nat>,
)
    requires
        j < ring.len(),
        ring.len() <= nonces.len(),
        l.len() == ring.len(),
        c.len() == ring.len() + 1,
        l[0] == nonces[0] % order(),
        forall|k: int|
            1 <= k < ring.len() ==> #[trigger] l[k] == (nonces[k] + c[k] * ring[((j + k) as nat
                % ring.len()) as int]) % order(),
        forall|k: int|
            0 <= k < ring.len() ==> hash_result(message, ring, #[trigger] l[k]) == Ok::<
                nat,
                ErrorView,
            >(c[k + 1]),
    ensures
        ({
            let signature = signature_of(message, ring, j, key, nonces);
            &&& close_result(message, ring, j, key, nonces) == Ok::<SignatureView, ErrorView>(
                signature,
            )
            &&& signature.c0 == c[ring.len() - j]
            &&& signature.s.len() == ring.len()
            &&& forall|k: nat|
                1 <= k < ring.len() ==> signature.s[((j + k) % ring.len()) as int]
                    == #[trigger] nonces[k as int]
            &&& signature.s[j as int] < order()
            &&& (signature.s[j as int] + c[ring.len() as int] * key) % order() == nonces[0]
                % order()
        }),
{
    let n = ring.len();
    let signature = signature_of(message, ring, j, key, nonces);
    signer_comes_upon_no_identity(message, ring, j, nonces, l, c);
    signer_comes_to_the_challenge(message, ring, j, nonces, l, c, n);
    signer_comes_to_the_challenge(message, ring, j, nonces, l, c, (n - j) as nat);
    assert forall|k: nat| 1 <= k < n implies signature.s[((j + k) % n) as int]
        == #[trigger] nonces[k as int] by {
        places_go_round(j, k, n);
    }
    assert(signature.s[j as int] == response(nonces[0], c[n as int], key));
    response_leads_back(nonces[0], c[n as int], key);
}

/// Signing fails where its walk comes to a link that cannot be hashed, with that error.
pub proof fn signing_fails_where_hashing_does(
    message: Seq<u8>,
    ring: Seq<nat>,
    j: nat,
    key: nat,
    nonces: Seq<nat>,
    l: Seq<nat>,
    c: Seq<nat>,
    i: nat,
    error: ErrorView,
)
    requires
        j < ring.len(),
        i < ring.len(),
        i < l.len(),
        i < c.len(),
        l[0] == nonces[0] % order(),
        forall|k: int|
            1 <= k <= i ==> #[trigger] l[k] == (nonces[k] + c[k] * ring[((j + k) as nat
                % ring.len()) as int]) % order(),
        forall|k: int|
            0 <= k < i ==> hash_result(message, ring, #[trigger] l[k]) == Ok::<nat, ErrorView>(
                c[k + 1],
            ),
        hash_result(message, ring, l[i as int]) == Err::<nat, ErrorView>(error),
    ensures
        close_result(message, ring, j, key, nonces) == Err::<SignatureView, ErrorView>(error),
{
    signer_goes_through_the_links(message, ring, j, nonces, l, c, i);
    if !ring.contains(0) {
        assert(signed_link(message, ring, j, nonces, i) == 0);
    }
}

/// To sign with a private key is to close the ring at the first member that is its public key or
/// the negation of it, with the private key of that member.
pub proof fn signing_closes_the_ring_at_the_first_owner(
    message: Seq<u8>,
    d: nat,
    ring: Seq<nat>,
    nonces: Seq<nat>,
    j: int,
)
    requires
        ring.len() >= 2,
        0 < d < order(),
        0 <= j < ring.len(),
        ring[j] == d || ring[j] + d == order(),
        forall|i: int| 0 <= i < j ==> #[trigger] ring[i] != d && ring[i] + d != order(),
    ensures
        sign_result(message, d, ring, nonces) == close_result(
            message,
            ring,
            j as nat,
            ring[j],
            nonces,
        ),
{
    the_first_owner_signs(ring, d, j);
}

/// Signing refuses whoever is not located, for the same reason, whatever the message and the
/// nonces.
pub proof fn signing_refuses_whom_it_cannot_locate(
    message: Seq<u8>,
    d: nat,
    ring: Seq<nat>,
    nonces: Seq<nat>,
)
    ensures
        ring.len() < 2 ==> sign_result(message, d, ring, nonces) == Err::<SignatureView, ErrorView>(
            ErrorView::RingTooSmall(ring.len()),
        ),
        ring.len() >= 2 && d == 0 ==> sign_result(message, d, ring, nonces) == Err::<
            SignatureView,
            ErrorView,
        >(ErrorView::PrivateKeyFormat("Private key scalar cannot be zero"@)),
        ring.len() >= 2 && 0 < d < order() ==> (sign_result(message, d, ring, nonces) == Err::<
            SignatureView,
            ErrorView,
        >(ErrorView::SignerNotInRing) <==> forall|i: int|
            0 <= i < ring.len() ==> #[trigger] ring[i] != d && ring[i] + d != order()),
{
    outsiders_are_not_located(ring, d);
}

// ---- Drawing nonces ----

/// Nothing is drawn for whoever is not located.
pub proof fn nothing_is_drawn_for_outsiders(
    message: Seq<u8>,
    d: nat,
    ring: Seq<nat>,
    drawn: Seq<nat>,
)
    requires
        are_draws(message, d, ring, drawn),
        ring.len() < 2 || d == 0 || 0 < d < order() && forall|i: int|
            0 <= i < ring.len() ==> #[trigger] ring[i] != d && ring[i] + d != order(),
    ensures
        drawn.len() == 0,
{
    outsiders_are_not_located(ring, d);
}

/// The links of the nonces drawn are not the identity, but for the last.
proof fn links_drawn_for_are_no_identity(
    message: Seq<u8>,
    d: nat,
    ring: Seq<nat>,
    drawn: Seq<nat>,
    j: nat,
)
    requires
        are_draws(message, d, ring, drawn),
        locate_result(d, ring) == Ok::<(nat, nat), ErrorView>((j, ring[j as int])),
        !ring.contains(0),
    ensures
        1 <= drawn.len() <= ring.len(),
        forall|k: nat|
            k < drawn.len() - 1 ==> #[trigger] signed_link(message, ring, j, drawn, k) != 0,
        drawn.len() < ring.len() ==> signed_link(
            message,
            ring,
            j,
            drawn,
            (drawn.len() - 1) as nat,
        ) == 0,
{
    let last = (drawn.len() - 1) as nat;
    let located = locate_result(d, ring)->Ok_0;
    assert(located.0 == j);
    assert forall|k: nat| k < drawn.len() - 1 implies #[trigger] signed_link(
        message,
        ring,
        j,
        drawn,
        k,
    ) != 0 by {
        assert(k < last);
        assert(signed_link(message, ring, located.0, drawn, k) != 0);
    }
}

/// For a signer nonces are drawn as long as the links can be hashed: one for each member of the
/// ring, unless a link cannot be, and then that one is the last.
pub proof fn drawing_stops_where_hashing_fails(
    message: Seq<u8>,
    d: nat,
    ring: Seq<nat>,
    drawn: Seq<nat>,
    j: int,
    l: Seq<nat>,
    c: Seq<nat>,
)
    requires
        are_draws(message, d, ring, drawn),
        ring.len() >= 2,
        0 < d < order(),
        0 <= j < ring.len(),
        ring[j] == d || ring[j] + d == order(),
        forall|i: int| 0 <= i < j ==> #[trigger] ring[i] != d && ring[i] + d != order(),
        l.len() == drawn.len(),
        c.len() == drawn.len() + 1,
        l[0] == drawn[0] % order(),
        forall|k: int|
            1 <= k < drawn.len() ==> #[trigger] l[k] == (drawn[k] + c[k] * ring[((j + k) as nat
                % ring.len()) as int]) % order(),
        forall|k: int|
            0 <= k < drawn.len() - 1 ==> c[k + 1] == challenge(message, ring, #[trigger] l[k]),
    ensures
        1 <= drawn.len() <= ring.len(),
        forall|k: int|
            0 <= k < drawn.len() - 1 ==> hash_result(message, ring, #[trigger] l[k]) is Ok,
        drawn.len() < ring.len() ==> hash_result(message, ring, l[drawn.len() - 1]) is Err,
{
    the_first_owner_signs(ring, d, j);
    if !ring.contains(0) {
        links_drawn_for_are_no_identity(message, d, ring, drawn, j as nat);
        draws_are_a_walk(message, ring, j as nat, drawn, l, c, (drawn.len() - 1) as nat);
    }
}

/// The links of the nonces drawn can be hashed, but for the last.
proof fn draws_are_a_walk(
    message: Seq<u8>,
    ring: Seq<nat>,
    j: nat,
    drawn: Seq<nat>,
    l: Seq<nat>,
    c: Seq<nat>,
    i: nat,
)
    requires
        j < ring.len(),
        i < drawn.len() <= ring.len(),
        !ring.contains(0),
        l[0] == drawn[0] % order(),
        forall|k: int|
            1 <= k < drawn.len() ==> #[trigger] l[k] == (drawn[k] + c[k] * ring[((j + k) as nat
                % ring.len()) as int]) % order(),
        forall|k: int|
            0 <= k < drawn.len() - 1 ==> c[k + 1] == challenge(message, ring, #[trigger] l[k]),
        forall|k: nat|
            k < drawn.len() - 1 ==> #[trigger] signed_link(message, ring, j, drawn, k) != 0,
    ensures
        forall|k: int| 0 <= k < i ==> hash_result(message, ring, #[trigger] l[k]) is Ok,
        signed_link(message, ring, j, drawn, i) == l[i as int],
    decreases i,
{
    if i > 0 {
        draws_are_a_walk(message, ring, j, drawn, l, c, (i - 1) as nat);
        assert(l[i - 1] == signed_link(message, ring, j, drawn, (i - 1) as nat));
    }
    signer_goes_through_the_links(message, ring, j, drawn, l, c, i);
}

/// Nonces are completed by keeping all of them and adding ones.
pub proof fn completing_keeps_the_nonces(nonces: Seq<nat>, n: nat)
    ensures
        completed(nonces, n).len() == n,
        forall|k: int| 0 <= k < nonces.len() && k < n ==> #[trigger] completed(nonces, n)[k]
            == nonces[k],
        forall|k: int| nonces.len() <= k < n ==> #[trigger] completed(nonces, n)[k] == 1,
{
}

// ---- Hexadecimal forms ----

/// To sign in hexadecimal is to sign with the private key and every member that the digits are
/// read as, each at its place, and to write each scalar of the signature at its place.
pub proof fn hex_signing_is_signing(
    message: Seq<u8>,
    private_key: Seq<char>,
    keys: Seq<Seq<char>>,
    nonces: Seq<nat>,
    d: nat,
    ring: Seq<nat>,
)
    requires
        scalar_from_hex(private_key) == Ok::<nat, ErrorView>(d),
        ring.len() == keys.len(),
        forall|i: int|
            0 <= i < keys.len() ==> point_from_hex(#[trigger] keys[i]) == Ok::<nat, ErrorView>(
                ring[i],
            ),
    ensures
        match sign_result(message, d, ring, nonces) {
            Err(error) => sign_hex_result(message, private_key, keys, nonces) == Err::<
                HexSignatureView,
                ErrorView,
            >(error),
            Ok(signature) => {
                &&& sign_hex_result(message, private_key, keys, nonces) matches Ok(written)
                &&& written.c0 == scalar_hex(signature.c0)
                &&& written.s.len() == signature.s.len()
                &&& forall|i: int|
                    0 <= i < signature.s.len() ==> #[trigger] written.s[i] == scalar_hex(
                        signature.s[i],
                    )
            },
        },
        forall|drawn: Seq<nat>| #[trigger]
            are_hex_draws(message, private_key, keys, drawn) == are_draws(message, d, ring, drawn),
{
    rings_are_read_key_by_key(keys, ring);
}

/// Signing in hexadecimal fails where the private key cannot be read, and then where some public
/// key cannot, with the error of the first such key. Nothing is drawn.
pub proof fn hex_signing_refuses_what_it_cannot_read(
    message: Seq<u8>,
    private_key: Seq<char>,
    keys: Seq<Seq<char>>,
    nonces: Seq<nat>,
    i: int,
    error: ErrorView,
)
    requires
        0 <= i < keys.len(),
    ensures
        scalar_from_hex(private_key) == Err::<nat, ErrorView>(error) ==> sign_hex_result(
            message,
            private_key,
            keys,
            nonces,
        ) == Err::<HexSignatureView, ErrorView>(error) && (are_hex_draws(
            message,
            private_key,
            keys,
            nonces,
        ) <==> nonces.len() == 0),
        scalar_from_hex(private_key) is Ok && point_from_hex(keys[i]) == Err::<nat, ErrorView>(
            error,
        ) && (forall|k: int| 0 <= k < i ==> point_from_hex(#[trigger] keys[k]) is Ok)
            ==> sign_hex_result(message, private_key, keys, nonces) == Err::<
            HexSignatureView,
            ErrorView,
        >(error) && (are_hex_draws(message, private_key, keys, nonces) <==> nonces.len() == 0),
{
    if point_from_hex(keys[i]) == Err::<nat, ErrorView>(error) && forall|k: int|
        0 <= k < i ==> point_from_hex(#[trigger] keys[k]) is Ok {
        the_first_unreadable_key_is_told(keys, i, error);
    }
}

/// To verify in hexadecimal is to verify the signature and the ring that the digits are read as,
/// every scalar and every member at its place.
pub proof fn hex_verifying_is_verifying(
    written: HexSignatureView,
    message: Seq<u8>,
    keys: Seq<Seq<char>>,
    signature: SignatureView,
    ring: Seq<nat>,
)
    requires
        scalar_from_hex(written.c0) == Ok::<nat, ErrorView>(signature.c0),
        written.s.len() == signature.s.len(),
        forall|i: int|
            0 <= i < written.s.len() ==> scalar_from_hex(#[trigger] written.s[i]) == Ok::<
                nat,
                ErrorView,
            >(signature.s[i]),
        ring.len() == keys.len(),
        forall|i: int|
            0 <= i < keys.len() ==> point_from_hex(#[trigger] keys[i]) == Ok::<nat, ErrorView>(
                ring[i],
            ),
    ensures
        verify_hex_result(written, message, keys) == verify_result(signature, message, ring),
{
    signatures_are_read_place_by_place(written, signature);
    rings_are_read_key_by_key(keys, ring);
}

/// Verifying in hexadecimal fails where some scalar of the signature cannot be read, and then
/// where some public key cannot, with the error of the first such key.
pub proof fn hex_verifying_refuses_what_it_cannot_read(
    written: HexSignatureView,
    message: Seq<u8>,
    keys: Seq<Seq<char>>,
    i: int,
    error: ErrorView,
)
    ensures
        scalar_from_hex(written.c0) is Err || (exists|k: int|
            0 <= k < written.s.len() && scalar_from_hex(#[trigger] written.s[k]) is Err)
            ==> verify_hex_result(written, message, keys) == Err::<bool, ErrorView>(
            ErrorView::InvalidSignatureFormat,
        ),
        scalar_from_hex(written.c0) is Ok && (forall|k: int|
            0 <= k < written.s.len() ==> scalar_from_hex(#[trigger] written.s[k]) is Ok) && 0 <= i
            < keys.len() && point_from_hex(keys[i]) == Err::<nat, ErrorView>(error) && (forall|
            k: int,
        |
            0 <= k < i ==> point_from_hex(#[trigger] keys[k]) is Ok) ==> verify_hex_result(
            written,
            message,
            keys,
        ) == Err::<bool, ErrorView>(error),
{
    if 0 <= i < keys.len() && point_from_hex(keys[i]) == Err::<nat, ErrorView>(error) && forall|
        k: int,
    |
        0 <= k < i ==> point_from_hex(#[trigger] keys[k]) is Ok {
        the_first_unreadable_key_is_told(keys, i, error);
    }
}

} // verus!
