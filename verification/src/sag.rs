//! Signing for a ring, and verifying such signatures.

use vstd::prelude::*;

use crate::hash::sha2_digest;
use crate::laws::{what_is_signed_in_hex_verifies, what_is_signed_verifies};
use crate::open_ring::OpenRing;
use crate::point::{elements, Point};
use crate::protocol::{
    are_draws, challenge_at, close_result, closing_agrees, hash_result, hashing_error_stays,
    link_agrees, link_at, locate_result, owns, ring_bytes, sign_result, signed_link,
    the_signer_is_located, transcript, verify_result, ErrorView,
};
use crate::scalar::{neg_mod, scalar_values, Scalar};
use crate::types::{
    hex_to_scalar, outcome, scalar_from_hex, signature_from_hex, signature_hex, texts, Error,
    HexSignatureView, RingSignature, RingSignatureBinary,
};
use crate::utils::{
    are_nonces, completed, hex_to_ring, rand_os_rng, random_non_zero_scalar, ring_from_hex,
    SystemRng,
};

verus! {

/// Hashes a message, the ring and a link to a scalar.
///
/// The scalar is never zero: one stands in for it.
pub fn hash_to_scalar(
    message: &[u8],
    ring_pubkeys: &[Point],
    ephemeral_point: &Point,
) -> (r: Result<Scalar, Error>)
    ensures
        outcome(r) == hash_result(message@, elements(ring_pubkeys@), ephemeral_point@),
{
    let ghost ring = elements(ring_pubkeys@);
    let mut data: Vec<u8> = Vec::new();
    data.extend_from_slice(message);
    assert(data@ == message@);
    assert(data@ == message@ + ring_bytes(ring.take(0)));
    for i in 0..ring_pubkeys.len()
        invariant
            ring == elements(ring_pubkeys@),
            data@ == message@ + ring_bytes(ring.take(i as int)),
            forall|j: int| 0 <= j < i ==> ring[j] != 0,
    {
        let pk_point = &ring_pubkeys[i];
        assert(ring[i as int] == pk_point@);
        if pk_point.is_identity() {
            return Err(Error::PublicKeyFormat("Cannot hash identity point in ring".to_owned()));
        }
        let mut pk_bytes = pk_point.to_sec1();
        assert(ring.take(i + 1).drop_last() == ring.take(i as int));
        data.append(&mut pk_bytes);
    }
    assert(ring.take(ring.len() as int) == ring);
    if ephemeral_point.is_identity() {
        return Err(Error::PublicKeyFormat("Cannot hash identity ephemeral point".to_owned()));
    }
    let mut ephemeral_compressed = ephemeral_point.to_sec1();
    data.append(&mut ephemeral_compressed);
    assert(data@ == transcript(message@, ring, ephemeral_point@));
    let scalar = Scalar::reduce(&sha2_digest(data.as_slice()));
    let is_zero = scalar.ct_eq(&Scalar::zero());
    Ok(Scalar::conditional_select(&scalar, &Scalar::one(), is_zero))
}

/// Verifies a signature against a message and a ring.
///
/// Each link is recomputed in turn, and the signature holds if the challenge that comes back
/// round is the one it started from. No signature holds for the empty ring.
pub fn verify_binary(
    signature: &RingSignatureBinary,
    message: &[u8],
    ring_pubkeys: &[Point],
) -> (r: Result<bool, Error>)
    ensures
        outcome(r) == verify_result(signature@, message@, elements(ring_pubkeys@)),
{
    let ring_size = ring_pubkeys.len();
    if ring_size == 0 {
        return Ok(false);
    }
    if signature.s.len() != ring_size {
        return Err(Error::InvalidSignatureFormat);
    }
    let ghost ring = elements(ring_pubkeys@);
    let generator = Point::generator();
    let mut current_c = signature.c0;
    for i in 0..ring_size
        invariant
            ring == elements(ring_pubkeys@),
            ring_size == ring.len(),
            ring_size == signature.s@.len(),
            ring_size > 0,
            generator@ == 1,
            current_c@ == challenge_at(signature@, message@, ring, i as nat),
            i > 0 ==> !ring.contains(0),
            forall|k: nat| k < i ==> #[trigger] link_at(signature@, message@, ring, k) != 0,
    {
        assert(signature@.s[i as int] == signature.s[i as int]@);
        assert(ring[i as int] == ring_pubkeys[i as int]@);
        let xi = generator.mul(&signature.s[i]).add(&ring_pubkeys[i].mul(&current_c));
        assert(xi@ == link_at(signature@, message@, ring, i as nat));
        match hash_to_scalar(message, ring_pubkeys, &xi) {
            Ok(next_c) => {
                current_c = next_c;
            },
            Err(error) => {
                return Err(error);
            },
        }
    }
    Ok(current_c.ct_eq(&signature.c0))
}

/// Finds the first member of the ring that a private key belongs to, up to sign, and the key
/// to sign with there: the private key itself, or its negation.
pub fn locate_signer(private_key: &Scalar, ring_pubkeys: &[Point]) -> (r: Result<
    (usize, Scalar),
    Error,
>)
    ensures
        match r {
            Ok((signer_index, key)) => locate_result(private_key@, elements(ring_pubkeys@)) == Ok::<
                (nat, nat),
                ErrorView,
            >((signer_index as nat, key@)),
            Err(error) => locate_result(private_key@, elements(ring_pubkeys@)) == Err::<
                (nat, nat),
                ErrorView,
            >(error@),
        },
{
    let ghost ring = elements(ring_pubkeys@);
    let ghost d = private_key@;
    let ring_size = ring_pubkeys.len();
    if ring_size < 2 {
        return Err(Error::RingTooSmall(ring_size));
    }
    if private_key.ct_eq(&Scalar::zero()) {
        return Err(Error::PrivateKeyFormat("Private key scalar cannot be zero".to_owned()));
    }
    let generator = Point::generator();
    let my_point = generator.mul(private_key);
    let flipped_d = private_key.negate();
    let flipped_point = generator.mul(&flipped_d);
    proof {
        use_type_invariant(private_key);
    }
    for i in 0..ring_size
        invariant
            ring == elements(ring_pubkeys@),
            ring_size == ring.len(),
            ring_size >= 2,
            d == private_key@,
            d != 0,
            my_point@ == d,
            flipped_d@ == neg_mod(d),
            flipped_point@ == neg_mod(d),
            forall|k: int| 0 <= k < i ==> !owns(d, #[trigger] ring[k]),
    {
        let p = &ring_pubkeys[i];
        assert(ring[i as int] == p@);
        if p.same(&my_point) {
            proof {
                the_signer_is_located(ring, d, i as int);
            }
            return Ok((i, *private_key));
        }
        if p.same(&flipped_point) {
            proof {
                the_signer_is_located(ring, d, i as int);
            }
            return Ok((i, flipped_d));
        }
    }
    assert(forall|j: int| 0 <= j < ring.len() ==> !owns(d, #[trigger] ring[j]));
    Err(Error::SignerNotInRing)
}

/// Closes the ring at the signer's place.
///
/// The first nonce opens it; the others are the responses of the members that follow the signer,
/// in the order in which they are reached.
pub fn close_ring(
    message: &[u8],
    ring_pubkeys: &[Point],
    signer_index: usize,
    key: &Scalar,
    nonces: &[Scalar],
) -> (r: Result<RingSignatureBinary, Error>)
    requires
        signer_index < ring_pubkeys@.len(),
        ring_pubkeys@.len() <= nonces@.len(),
    ensures
        outcome(r) == close_result(
            message@,
            elements(ring_pubkeys@),
            signer_index as nat,
            key@,
            scalar_values(nonces@),
        ),
{
    let ghost ring = elements(ring_pubkeys@);
    let ghost j = signer_index as nat;
    let ghost given = scalar_values(nonces@);
    let ring_size = ring_pubkeys.len();
    let mut open = match OpenRing::open(message, ring_pubkeys, signer_index, &nonces[0]) {
        Ok(open) => open,
        Err(error) => {
            proof {
                let first = seq![nonces@[0]@];
                hashing_error_stays(message@, ring, j, key@, first, given, 0, error@);
            }
            return Err(error);
        },
    };
    for step in 1..ring_size
        invariant
            ring == elements(ring_pubkeys@),
            given == scalar_values(nonces@),
            j == signer_index,
            j < ring.len(),
            ring_size == ring.len(),
            ring_size <= nonces@.len(),
            open.wf(),
            open.message() == message@,
            open.ring() == ring,
            open.signer() == j,
            open.nonces() =~= given.take(step as int),
    {
        let ghost next = open.nonces().push(nonces@[step as int]@);
        assert(next =~= given.take(step + 1));
        open = match open.pass(&nonces[step]) {
            Ok(open) => open,
            Err(error) => {
                proof {
                    hashing_error_stays(
                        message@,
                        ring,
                        j,
                        key@,
                        next,
                        given,
                        step as nat,
                        error@,
                    );
                }
                return Err(error);
            },
        };
    }
    proof {
        closing_agrees(message@, ring, j, key@, open.nonces(), given);
    }
    Ok(open.close(key))
}

/// Signs a message for a ring with the given nonces: the first opens the ring, the others are the
/// responses of the members that follow the signer.
pub fn sign_binary_with_nonces(
    message: &[u8],
    private_key: &Scalar,
    ring_pubkeys: &[Point],
    nonces: &[Scalar],
) -> (r: Result<RingSignatureBinary, Error>)
    requires
        ring_pubkeys@.len() <= nonces@.len(),
    ensures
        outcome(r) == sign_result(
            message@,
            private_key@,
            elements(ring_pubkeys@),
            scalar_values(nonces@),
        ),
        r matches Ok(signature) ==> verify_result(
            signature@,
            message@,
            elements(ring_pubkeys@),
        ) == Ok::<bool, ErrorView>(true),
{
    match locate_signer(private_key, ring_pubkeys) {
        Err(error) => Err(error),
        Ok((signer_index, key)) => {
            let r = close_ring(message, ring_pubkeys, signer_index, &key, nonces);
            proof {
                if r is Ok {
                    what_is_signed_verifies(
                        message@,
                        private_key@,
                        elements(ring_pubkeys@),
                        scalar_values(nonces@),
                    );
                }
            }
            r
        },
    }
}

/// Signs a message for a ring, with nonces drawn from the operating system.
///
/// Nothing is drawn where the signer cannot be located. Else a nonce is drawn for each member in
/// turn, and drawing stops where a link cannot be hashed.
pub fn sign_binary(
    message: &[u8],
    private_key: &Scalar,
    ring_pubkeys: &[Point],
    rng: &mut SystemRng,
) -> (r: Result<RingSignatureBinary, Error>)
    ensures
        ({
            let ring = elements(ring_pubkeys@);
            let nonces = final(rng).drawn_since(*old(rng));
            &&& final(rng).drawn() == old(rng).drawn() + nonces
            &&& are_draws(message@, private_key@, ring, nonces)
            &&& are_nonces(nonces, nonces.len())
            &&& r is Ok ==> nonces.len() == ring.len()
            &&& outcome(r) == sign_result(
                message@,
                private_key@,
                ring,
                completed(nonces, ring.len()),
            )
            &&& r is Ok ==> outcome(r) == sign_result(message@, private_key@, ring, nonces)
        }),
        locate_result(private_key@, elements(ring_pubkeys@)) is Err ==> final(rng).drawn() == old(
            rng,
        ).drawn(),
        r matches Ok(signature) ==> verify_result(
            signature@,
            message@,
            elements(ring_pubkeys@),
        ) == Ok::<bool, ErrorView>(true),
{
    let ghost ring = elements(ring_pubkeys@);
    let ghost earlier = rng.drawn();
    let (signer_index, key) = match locate_signer(private_key, ring_pubkeys) {
        Ok(located) => located,
        Err(error) => {
            assert(earlier.skip(earlier.len() as int) =~= Seq::empty());
            return Err(error);
        },
    };
    let ghost j = signer_index as nat;
    let alpha = random_non_zero_scalar(rng);
    let mut open = match OpenRing::open(message, ring_pubkeys, signer_index, &alpha) {
        Ok(open) => open,
        Err(error) => {
            proof {
                let drawn = seq![alpha@];
                let nonces = completed(drawn, ring.len());
                assert(rng.drawn().skip(earlier.len() as int) =~= drawn);
                hashing_error_stays(message@, ring, j, key@, drawn, nonces, 0, error@);
            }
            return Err(error);
        },
    };
    assert(rng.drawn() =~= earlier + open.nonces());
    while !open.is_round()
        invariant
            ring == elements(ring_pubkeys@),
            ring.len() == ring_pubkeys@.len(),
            j == signer_index,
            locate_result(private_key@, ring) == Ok::<(nat, nat), ErrorView>((j, key@)),
            earlier == old(rng).drawn(),
            rng.drawn() == earlier + open.nonces(),
            open.wf(),
            open.message() == message@,
            open.ring() == ring,
            open.signer() == j,
            are_nonces(open.nonces(), open.nonces().len()),
        decreases ring.len() - open.nonces().len(),
    {
        let nonce = random_non_zero_scalar(rng);
        let ghost before = open.nonces();
        let ghost drawn = before.push(nonce@);
        assert(rng.drawn() =~= earlier + drawn);
        open = match open.pass(&nonce) {
            Ok(open) => open,
            Err(error) => {
                proof {
                    let nonces = completed(drawn, ring.len());
                    assert(rng.drawn().skip(earlier.len() as int) =~= drawn);
                    assert forall|k: nat| k + 1 < drawn.len() implies #[trigger] signed_link(
                        message@,
                        ring,
                        j,
                        drawn,
                        k,
                    ) != 0 by {
                        link_agrees(message@, ring, j, before, drawn, k);
                    }
                    hashing_error_stays(
                        message@,
                        ring,
                        j,
                        key@,
                        drawn,
                        nonces,
                        before.len(),
                        error@,
                    );
                }
                return Err(error);
            },
        };
    }
    let ghost drawn = open.nonces();
    let signature = open.close(&key);
    proof {
        assert(rng.drawn().skip(earlier.len() as int) =~= drawn);
        assert(completed(drawn, ring.len()) =~= drawn);
        what_is_signed_verifies(message@, private_key@, ring, drawn);
    }
    Ok(signature)
}

// ---- Hexadecimal forms ----

/// What signing with keys in hexadecimal comes to, for the given nonces.
pub open spec fn sign_hex_result(
    message: Seq<u8>,
    private_key: Seq<char>,
    keys: Seq<Seq<char>>,
    nonces: Seq<nat>,
) -> Result<HexSignatureView, ErrorView> {
    match scalar_from_hex(private_key) {
        Err(error) => Err(error),
        Ok(d) => match ring_from_hex(keys) {
            Err(error) => Err(error),
            Ok(ring) => match sign_result(message, d, ring, nonces) {
                Err(error) => Err(error),
                Ok(signature) => Ok(signature_hex(signature)),
            },
        },
    }
}

/// What verifying a signature and keys in hexadecimal comes to.
pub open spec fn verify_hex_result(
    signature: HexSignatureView,
    message: Seq<u8>,
    keys: Seq<Seq<char>>,
) -> Result<bool, ErrorView> {
    match signature_from_hex(signature) {
        Err(error) => Err(error),
        Ok(signature) => match ring_from_hex(keys) {
            Err(error) => Err(error),
            Ok(ring) => verify_result(signature, message, ring),
        },
    }
}

/// `drawn` are the nonces that signing with keys in hexadecimal draws: none where a key cannot be
/// read.
pub open spec fn are_hex_draws(
    message: Seq<u8>,
    private_key: Seq<char>,
    keys: Seq<Seq<char>>,
    drawn: Seq<nat>,
) -> bool {
    match (scalar_from_hex(private_key), ring_from_hex(keys)) {
        (Ok(d), Ok(ring)) => are_draws(message, d, ring, drawn),
        _ => drawn.len() == 0,
    }
}

/// Signs a message for a ring, with the private key and the ring in hexadecimal and nonces drawn
/// from `rng`.
pub fn sign_with_rng(
    message: &[u8],
    private_key_hex: &str,
    ring_pubkeys_hex: &[String],
    rng: &mut SystemRng,
) -> (r: Result<RingSignature, Error>)
    ensures
        ({
            let keys = texts(ring_pubkeys_hex@);
            let nonces = final(rng).drawn_since(*old(rng));
            &&& final(rng).drawn() == old(rng).drawn() + nonces
            &&& are_hex_draws(message@, private_key_hex@, keys, nonces)
            &&& are_nonces(nonces, nonces.len())
            &&& r is Ok ==> nonces.len() == keys.len()
            &&& outcome(r) == sign_hex_result(
                message@,
                private_key_hex@,
                keys,
                completed(nonces, keys.len()),
            )
            &&& r is Ok ==> outcome(r) == sign_hex_result(message@, private_key_hex@, keys, nonces)
        }),
        r matches Ok(signature) ==> verify_hex_result(
            signature@,
            message@,
            texts(ring_pubkeys_hex@),
        ) == Ok::<bool, ErrorView>(true),
{
    let ghost keys = texts(ring_pubkeys_hex@);
    let ghost earlier = rng.drawn();
    assert(earlier.skip(earlier.len() as int) =~= Seq::empty());
    let private_key = match hex_to_scalar(private_key_hex) {
        Ok(private_key) => private_key,
        Err(error) => {
            return Err(error);
        },
    };
    let ring_pubkeys = match hex_to_ring(ring_pubkeys_hex) {
        Ok(ring_pubkeys) => ring_pubkeys,
        Err(error) => {
            return Err(error);
        },
    };
    match sign_binary(message, &private_key, ring_pubkeys.as_slice(), rng) {
        Ok(signature) => {
            proof {
                let nonces = rng.drawn().skip(earlier.len() as int);
                what_is_signed_in_hex_verifies(message@, private_key_hex@, keys, nonces);
            }
            Ok(RingSignature::from_binary(&signature))
        },
        Err(error) => Err(error),
    }
}

/// Signs a message for a ring, with the private key and the ring in hexadecimal.
pub fn sign(message: &[u8], private_key_hex: &str, ring_pubkeys_hex: &[String]) -> (r: Result<
    RingSignature,
    Error,
>)
    ensures
        exists|nonces: Seq<nat>|
            are_nonces(nonces, ring_pubkeys_hex@.len()) && outcome(r)
                == #[trigger] sign_hex_result(
                message@,
                private_key_hex@,
                texts(ring_pubkeys_hex@),
                nonces,
            ),
        r matches Ok(signature) ==> verify_hex_result(
            signature@,
            message@,
            texts(ring_pubkeys_hex@),
        ) == Ok::<bool, ErrorView>(true),
{
    let mut rng = SystemRng::new(rand_os_rng());
    let ghost earlier = rng;
    let r = sign_with_rng(message, private_key_hex, ring_pubkeys_hex, &mut rng);
    proof {
        let nonces = completed(rng.drawn_since(earlier), ring_pubkeys_hex@.len());
        assert(are_nonces(nonces, ring_pubkeys_hex@.len()));
    }
    r
}

/// Verifies a signature against a message and a ring, both in hexadecimal.
pub fn verify(
    signature: &RingSignature,
    message: &[u8],
    ring_pubkeys_hex: &[String],
) -> (r: Result<bool, Error>)
    ensures
        outcome(r) == verify_hex_result(signature@, message@, texts(ring_pubkeys_hex@)),
{
    let binary_signature = match signature.to_binary() {
        Ok(binary_signature) => binary_signature,
        Err(error) => {
            return Err(error);
        },
    };
    match hex_to_ring(ring_pubkeys_hex) {
        Ok(ring_pubkeys) => verify_binary(&binary_signature, message, ring_pubkeys.as_slice()),
        Err(error) => Err(error),
    }
}

} // verus!
