//! What signing and verifying compute, over integers modulo the group order.
//!
//! A point stands for the number of times it is the generator, a ring for the sequence of its
//! members.

use vstd::prelude::*;

use crate::bytes::be_value;
use crate::hash::sha256;
use crate::point::compressed_encoding;
use crate::scalar::{add_mod, mul_mod, neg_mod, order, sub_mod};

verus! {

/// An error, with its text as characters.
pub enum ErrorView {
    PrivateKeyFormat(Seq<char>),
    PublicKeyFormat(Seq<char>),
    RingTooSmall(nat),
    SignerNotInRing,
    InvalidSignatureFormat,
}

/// A signature: the challenge at the first member, and the responses.
#[verifier::ext_equal]
pub struct SignatureView {
    pub c0: nat,
    pub s: Seq<nat>,
}

/// Every scalar of the signature is below the group order.
pub open spec fn is_reduced(signature: SignatureView) -> bool {
    &&& signature.c0 < order()
    &&& forall|i: int| 0 <= i < signature.s.len() ==> #[trigger] signature.s[i] < order()
}

/// The error for a ring that holds the identity.
pub open spec fn identity_in_ring() -> ErrorView {
    ErrorView::PublicKeyFormat("Cannot hash identity point in ring"@)
}

/// The error for a link that is the identity.
pub open spec fn identity_ephemeral() -> ErrorView {
    ErrorView::PublicKeyFormat("Cannot hash identity ephemeral point"@)
}

/// The error for a private key that is zero.
pub open spec fn zero_private_key() -> ErrorView {
    ErrorView::PrivateKeyFormat("Private key scalar cannot be zero"@)
}

// ---- Hashing ----

/// The encodings of the ring's members, one after the other.
pub open spec fn ring_bytes(ring: Seq<nat>) -> Seq<u8>
    decreases ring.len(),
{
    if ring.len() == 0 {
        Seq::empty()
    } else {
        ring_bytes(ring.drop_last()) + compressed_encoding(ring.last())
    }
}

/// What is hashed for a link: the message, the ring, the link.
pub open spec fn transcript(message: Seq<u8>, ring: Seq<nat>, link: nat) -> Seq<u8> {
    message + ring_bytes(ring) + compressed_encoding(link)
}

/// The challenge that follows a link: the hash as an integer modulo the group order, with one
/// in place of zero.
pub open spec fn challenge(message: Seq<u8>, ring: Seq<nat>, link: nat) -> nat {
    let reduced = be_value(sha256(transcript(message, ring, link))) % order();
    if reduced == 0 {
        1
    } else {
        reduced
    }
}

/// What hashing a link comes to: the identity is refused, in the ring first.
pub open spec fn hash_result(message: Seq<u8>, ring: Seq<nat>, link: nat) -> Result<
    nat,
    ErrorView,
> {
    if ring.contains(0) {
        Err(identity_in_ring())
    } else if link == 0 {
        Err(identity_ephemeral())
    } else {
        Ok(challenge(message, ring, link))
    }
}

// ---- Verifying ----

/// The link `s * G + c * P`, where `P` is the member `p`.
pub open spec fn link(s: nat, c: nat, p: nat) -> nat {
    add_mod(mul_mod(1, s), mul_mod(p, c))
}

/// The challenge at member `i`, recomputed from the signature. At the ring's length it is the
/// challenge that comes back round to the first member.
pub open spec fn challenge_at(
    signature: SignatureView,
    message: Seq<u8>,
    ring: Seq<nat>,
    i: nat,
) -> nat
    decreases i, 0nat,
{
    if i == 0 {
        signature.c0
    } else {
        challenge(message, ring, link_at(signature, message, ring, (i - 1) as nat))
    }
}

/// The link of member `i`, recomputed from the signature.
pub open spec fn link_at(
    signature: SignatureView,
    message: Seq<u8>,
    ring: Seq<nat>,
    i: nat,
) -> nat
    decreases i, 1nat,
{
    link(signature.s[i as int], challenge_at(signature, message, ring, i), ring[i as int])
}

/// Some recomputed link is the identity.
pub open spec fn has_identity_link(
    signature: SignatureView,
    message: Seq<u8>,
    ring: Seq<nat>,
) -> bool {
    exists|i: nat| i < ring.len() && #[trigger] link_at(signature, message, ring, i) == 0
}

/// What verifying a signature comes to.
pub open spec fn verify_result(
    signature: SignatureView,
    message: Seq<u8>,
    ring: Seq<nat>,
) -> Result<bool, ErrorView> {
    if ring.len() == 0 {
        Ok(false)
    } else if signature.s.len() != ring.len() {
        Err(ErrorView::InvalidSignatureFormat)
    } else if ring.contains(0) {
        Err(identity_in_ring())
    } else if has_identity_link(signature, message, ring) {
        Err(identity_ephemeral())
    } else {
        Ok(challenge_at(signature, message, ring, ring.len()) == signature.c0)
    }
}

// ---- Signing ----

/// The private key `d` belongs to member `p`, up to sign.
pub open spec fn owns(d: nat, p: nat) -> bool {
    p == d || p == neg_mod(d)
}

/// `j` is the first member that `d` belongs to.
pub open spec fn is_signer(ring: Seq<nat>, d: nat, j: int) -> bool {
    &&& 0 <= j < ring.len()
    &&& owns(d, ring[j])
    &&& forall|i: int| 0 <= i < j ==> !owns(d, #[trigger] ring[i])
}

/// The private key of member `p`, given one that belongs to it up to sign.
pub open spec fn signing_key(d: nat, p: nat) -> nat {
    if p == d {
        d
    } else {
        neg_mod(d)
    }
}

/// The member that comes `k` places after `j`, going round a ring of `n`.
pub open spec fn place(j: nat, k: nat, n: nat) -> nat {
    if j + k < n {
        j + k
    } else {
        (j + k - n) as nat
    }
}

/// How many places after `j` member `i` comes, from one to `n`.
pub open spec fn steps(j: nat, i: nat, n: nat) -> nat {
    if i > j {
        (i - j) as nat
    } else {
        (i + n - j) as nat
    }
}

/// The link that the signer `j` hashes at step `k`: the first nonce times the generator, then the
/// links of the members after `j`, whose responses are the further nonces.
pub open spec fn signed_link(
    message: Seq<u8>,
    ring: Seq<nat>,
    j: nat,
    nonces: Seq<nat>,
    k: nat,
) -> nat
    decreases k, 1nat,
{
    if k == 0 {
        mul_mod(1, nonces[0])
    } else {
        link(
            nonces[k as int],
            signed_challenge(message, ring, j, nonces, k),
            ring[place(j, k, ring.len()) as int],
        )
    }
}

/// The challenge at the member that comes `k` places after the signer.
pub open spec fn signed_challenge(
    message: Seq<u8>,
    ring: Seq<nat>,
    j: nat,
    nonces: Seq<nat>,
    k: nat,
) -> nat
    decreases k, 0nat,
{
    if k == 0 {
        0
    } else {
        challenge(message, ring, signed_link(message, ring, j, nonces, (k - 1) as nat))
    }
}

/// Some link hashed by the signer is the identity.
pub open spec fn signs_identity(
    message: Seq<u8>,
    ring: Seq<nat>,
    j: nat,
    nonces: Seq<nat>,
) -> bool {
    exists|k: nat| k < ring.len() && #[trigger] signed_link(message, ring, j, nonces, k) == 0
}

/// The signer's own response, which closes the ring.
pub open spec fn response(alpha: nat, c: nat, key: nat) -> nat {
    sub_mod(alpha, mul_mod(c, key))
}

/// The signature of member `j` with private key `key`.
pub open spec fn signature_of(
    message: Seq<u8>,
    ring: Seq<nat>,
    j: nat,
    key: nat,
    nonces: Seq<nat>,
) -> SignatureView {
    let n = ring.len();
    SignatureView {
        c0: signed_challenge(message, ring, j, nonces, steps(j, 0, n)),
        s: Seq::new(
            n,
            |i: int|
                if i == j {
                    response(nonces[0], signed_challenge(message, ring, j, nonces, n), key)
                } else {
                    nonces[steps(j, i as nat, n) as int]
                },
        ),
    }
}

/// What closing the ring at member `j` comes to.
pub open spec fn close_result(
    message: Seq<u8>,
    ring: Seq<nat>,
    j: nat,
    key: nat,
    nonces: Seq<nat>,
) -> Result<SignatureView, ErrorView> {
    if ring.contains(0) {
        Err(identity_in_ring())
    } else if signs_identity(message, ring, j, nonces) {
        Err(identity_ephemeral())
    } else {
        Ok(signature_of(message, ring, j, key, nonces))
    }
}

/// Where a private key stands in the ring, and the key to sign with there.
pub open spec fn locate_result(d: nat, ring: Seq<nat>) -> Result<(nat, nat), ErrorView> {
    if ring.len() < 2 {
        Err(ErrorView::RingTooSmall(ring.len()))
    } else if d == 0 {
        Err(zero_private_key())
    } else if exists|j: int| is_signer(ring, d, j) {
        let j = choose|j: int| is_signer(ring, d, j);
        Ok((j as nat, signing_key(d, ring[j])))
    } else {
        Err(ErrorView::SignerNotInRing)
    }
}

/// What signing comes to, for the private key `d` and the given nonces.
pub open spec fn sign_result(
    message: Seq<u8>,
    d: nat,
    ring: Seq<nat>,
    nonces: Seq<nat>,
) -> Result<SignatureView, ErrorView> {
    match locate_result(d, ring) {
        Err(error) => Err(error),
        Ok((j, key)) => close_result(message, ring, j, key, nonces),
    }
}

/// `drawn` are the nonces that signing draws: none where the signer cannot be located, the first
/// alone where the ring holds the identity, else one for each member of the ring, up to the first
/// that makes a link the identity.
pub open spec fn are_draws(message: Seq<u8>, d: nat, ring: Seq<nat>, drawn: Seq<nat>) -> bool {
    match locate_result(d, ring) {
        Err(_) => drawn.len() == 0,
        Ok((j, _)) => if ring.contains(0) {
            drawn.len() == 1
        } else {
            let last = (drawn.len() - 1) as nat;
            &&& 1 <= drawn.len() <= ring.len()
            &&& forall|k: nat| k < last ==> #[trigger] signed_link(message, ring, j, drawn, k) != 0
            &&& drawn.len() < ring.len() ==> signed_link(message, ring, j, drawn, last) == 0
        },
    }
}

/// A ring has at most one signer for a private key, and it is the one that is located.
pub proof fn the_signer_is_located(ring: Seq<nat>, d: nat, j: int)
    requires
        ring.len() >= 2,
        d != 0,
        is_signer(ring, d, j),
    ensures
        locate_result(d, ring) == Ok::<(nat, nat), ErrorView>((j as nat, signing_key(d, ring[j]))),
{
    let chosen = choose|i: int| is_signer(ring, d, i);
    assert(is_signer(ring, d, chosen));
    assert(chosen == j) by {
        if chosen < j {
            assert(ring[chosen] == ring[chosen]);
        }
    }
}

/// The place after `i` in a ring of `n` is the remainder of `i + 1` by `n`.
pub proof fn remainder_is_next_place(i: nat, n: nat)
    requires
        i < n,
    ensures
        (i + 1) % n == place(i, 1, n),
{
    if i + 1 < n {
        vstd::arithmetic::div_mod::lemma_small_mod(i + 1, n);
    } else {
        vstd::arithmetic::div_mod::lemma_mod_self_0(n as int);
    }
}

/// A link, and the challenge after it, rest on the nonces up to it alone.
pub proof fn link_agrees(
    message: Seq<u8>,
    ring: Seq<nat>,
    j: nat,
    nonces: Seq<nat>,
    others: Seq<nat>,
    k: nat,
)
    requires
        forall|i: int| 0 <= i <= k ==> nonces[i] == others[i],
    ensures
        signed_link(message, ring, j, nonces, k) == signed_link(message, ring, j, others, k),
        signed_challenge(message, ring, j, nonces, k + 1) == signed_challenge(
            message,
            ring,
            j,
            others,
            k + 1,
        ),
    decreases k,
{
    if k > 0 {
        link_agrees(message, ring, j, nonces, others, (k - 1) as nat);
    }
}

/// Where hashing a link fails, signing with the nonces up to it fails so, whatever nonces follow.
pub proof fn hashing_error_stays(
    message: Seq<u8>,
    ring: Seq<nat>,
    j: nat,
    key: nat,
    nonces: Seq<nat>,
    others: Seq<nat>,
    k: nat,
    error: ErrorView,
)
    requires
        k < ring.len(),
        forall|i: int| 0 <= i <= k ==> nonces[i] == others[i],
        hash_result(message, ring, signed_link(message, ring, j, nonces, k)) == Err::<
            nat,
            ErrorView,
        >(error),
    ensures
        close_result(message, ring, j, key, others) == Err::<SignatureView, ErrorView>(error),
{
    link_agrees(message, ring, j, nonces, others, k);
}

/// Signing rests on the first nonces alone, as many as the ring has members.
pub proof fn closing_agrees(
    message: Seq<u8>,
    ring: Seq<nat>,
    j: nat,
    key: nat,
    nonces: Seq<nat>,
    others: Seq<nat>,
)
    requires
        j < ring.len(),
        forall|i: int| 0 <= i < ring.len() ==> nonces[i] == others[i],
    ensures
        close_result(message, ring, j, key, nonces) == close_result(message, ring, j, key, others),
{
    let n = ring.len();
    assert forall|k: nat| k < n implies #[trigger] signed_link(message, ring, j, nonces, k)
        == signed_link(message, ring, j, others, k) by {
        link_agrees(message, ring, j, nonces, others, k);
    }
    assert(signs_identity(message, ring, j, nonces) == signs_identity(
        message,
        ring,
        j,
        others,
    )) by {
        if signs_identity(message, ring, j, others) {
            let k = choose|k: nat|
                k < n && #[trigger] signed_link(message, ring, j, others, k) == 0;
            assert(signed_link(message, ring, j, nonces, k) == 0);
        }
    }
    let a = signature_of(message, ring, j, key, nonces);
    let b = signature_of(message, ring, j, key, others);
    link_agrees(message, ring, j, nonces, others, (n - 1) as nat);
    link_agrees(message, ring, j, nonces, others, (steps(j, 0, n) - 1) as nat);
    assert(a.s =~= b.s);
}

} // verus!
