//! Scalars: integers modulo the order of secp256k1.

use k256::elliptic_curve::ops::Reduce;
use k256::elliptic_curve::PrimeField;
use k256::U256;
use subtle::{Choice, ConditionallySelectable, ConstantTimeEq};
use vstd::arithmetic::power::pow;
use vstd::prelude::*;

use crate::bytes::{
    be_bytes, be_bytes_len, be_bytes_of_be_value, be_value, be_value_of_be_bytes,
    be_value_of_zeros,
};

verus! {

/// The order of the group of secp256k1 points, a prime.
pub open spec fn order() -> nat {
    0xFFFF_FFFF_FFFF_FFFF_FFFF_FFFF_FFFF_FFFE_BAAE_DCE6_AF48_A03B_BFD2_5E8C_D036_4141nat
}

/// An integer modulo the group order.
///
/// It is held as the 32 big-endian bytes of its least non-negative representative, so that
/// two scalars are equal exactly when their bytes are.
#[derive(Clone, Copy, Debug, PartialEq, Eq)]
pub struct Scalar {
    pub(crate) bytes: [u8; 32],
}

impl View for Scalar {
    type V = nat;

    closed spec fn view(&self) -> nat {
        be_value(self.bytes@)
    }
}

impl Scalar {
    /// The big-endian bytes of this scalar.
    pub closed spec fn repr(&self) -> Seq<u8> {
        self.bytes@
    }

    /// The value is reduced.
    #[verifier::type_invariant]
    pub open spec fn wf(&self) -> bool {
        self@ < order()
    }
}

/// `a + b` modulo the group order.
pub open spec fn add_mod(a: nat, b: nat) -> nat {
    (a + b) % order()
}

/// `a - b` modulo the group order.
pub open spec fn sub_mod(a: nat, b: nat) -> nat {
    ((a - b) % (order() as int)) as nat
}

/// `a * b` modulo the group order.
pub open spec fn mul_mod(a: nat, b: nat) -> nat {
    (a * b) % order()
}

/// `-a` modulo the group order.
pub open spec fn neg_mod(a: nat) -> nat {
    sub_mod(0, a)
}

/// `k256::Scalar::from_repr`: reads 32 big-endian bytes.
///
/// Claimed: bytes are accepted exactly when their value is below the group order, and the
/// scalar read from them is written with the same bytes.
#[verifier::external_body]
fn k256_from_repr(bytes: [u8; 32]) -> (r: Option<Scalar>)
    ensures
        r is Some <==> be_value(bytes@) < order(),
        r matches Some(a) ==> a.wf() && a.repr() == bytes@,
{
    let read: Option<k256::Scalar> = k256::Scalar::from_repr(bytes.into()).into();
    match read {
        Some(a) => Some(Scalar { bytes: a.to_bytes().into() }),
        None => None,
    }
}

/// `k256::Scalar::reduce` on the integer that `k256::U256::from_be_slice` reads.
///
/// Claimed: the result is the big-endian value of the bytes modulo the group order.
#[verifier::external_body]
fn k256_reduce(bytes: &[u8; 32]) -> (r: Scalar)
    ensures
        r.wf(),
        r@ == be_value(bytes@) % order(),
{
    let wide = U256::from_be_slice(bytes);
    let reduced = <k256::Scalar as Reduce<U256>>::reduce(wide);
    Scalar { bytes: reduced.to_bytes().into() }
}

/// `k256::Scalar::negate`.
///
/// Claimed: the result is the additive inverse modulo the group order.
#[verifier::external_body]
fn k256_negate(a: &Scalar) -> (r: Scalar)
    requires
        a.wf(),
    ensures
        r.wf(),
        r@ == neg_mod(a@),
{
    let a = k256::Scalar::from_repr(a.bytes.into()).unwrap();
    Scalar { bytes: a.negate().to_bytes().into() }
}

/// Subtraction of `k256::Scalar`s.
///
/// Claimed: the result is the difference modulo the group order.
#[verifier::external_body]
fn k256_sub(a: &Scalar, b: &Scalar) -> (r: Scalar)
    requires
        a.wf(),
        b.wf(),
    ensures
        r.wf(),
        r@ == sub_mod(a@, b@),
{
    let a = k256::Scalar::from_repr(a.bytes.into()).unwrap();
    let b = k256::Scalar::from_repr(b.bytes.into()).unwrap();
    Scalar { bytes: (a - b).to_bytes().into() }
}

/// Multiplication of `k256::Scalar`s.
///
/// Claimed: the result is the product modulo the group order.
#[verifier::external_body]
fn k256_mul(a: &Scalar, b: &Scalar) -> (r: Scalar)
    requires
        a.wf(),
        b.wf(),
    ensures
        r.wf(),
        r@ == mul_mod(a@, b@),
{
    let a = k256::Scalar::from_repr(a.bytes.into()).unwrap();
    let b = k256::Scalar::from_repr(b.bytes.into()).unwrap();
    Scalar { bytes: (a * b).to_bytes().into() }
}

/// `subtle::ConstantTimeEq::ct_eq` on `k256::Scalar`s.
///
/// Claimed: the choice is set exactly when the two scalars are the same integer.
#[verifier::external_body]
fn subtle_ct_eq(a: &Scalar, b: &Scalar) -> (r: bool)
    requires
        a.wf(),
        b.wf(),
    ensures
        r == (a@ == b@),
{
    let a = k256::Scalar::from_repr(a.bytes.into()).unwrap();
    let b = k256::Scalar::from_repr(b.bytes.into()).unwrap();
    a.ct_eq(&b).into()
}

/// `subtle::ConditionallySelectable::conditional_select` on `k256::Scalar`s.
///
/// Claimed: the second scalar comes back when the choice is set, the first when it is not.
#[verifier::external_body]
fn subtle_conditional_select(a: &Scalar, b: &Scalar, choice: bool) -> (r: Scalar)
    requires
        a.wf(),
        b.wf(),
    ensures
        r.wf(),
        r@ == (if choice { b@ } else { a@ }),
{
    let a = k256::Scalar::from_repr(a.bytes.into()).unwrap();
    let b = k256::Scalar::from_repr(b.bytes.into()).unwrap();
    let selected = k256::Scalar::conditional_select(&a, &b, Choice::from(choice as u8));
    Scalar { bytes: selected.to_bytes().into() }
}

impl Scalar {
    /// The scalar zero.
    pub fn zero() -> (r: Scalar)
        ensures
            r@ == 0,
    {
        let bytes = [0u8; 32];
        proof {
            be_value_of_zeros(bytes@);
        }
        Scalar { bytes }
    }

    /// The scalar one.
    pub fn one() -> (r: Scalar)
        ensures
            r@ == 1,
    {
        let mut bytes = [0u8; 32];
        bytes[31] = 1;
        proof {
            be_value_of_zeros(bytes@.drop_last());
        }
        Scalar { bytes }
    }

    /// Reads a scalar from its 32 big-endian bytes; `None` if the value is not reduced.
    pub fn from_repr(bytes: [u8; 32]) -> (r: Option<Scalar>)
        ensures
            r is Some <==> be_value(bytes@) < order(),
            r matches Some(a) ==> a.repr() == bytes@ && a@ == be_value(bytes@),
    {
        k256_from_repr(bytes)
    }

    /// The 32 big-endian bytes of this scalar.
    pub fn to_repr(&self) -> (r: [u8; 32])
        ensures
            r@ == self.repr(),
            r@ == be_bytes(self@, 32),
            be_value(r@) == self@,
    {
        proof {
            be_bytes_of_be_value(self.bytes@);
        }
        self.bytes
    }

    /// The integer that 32 big-endian bytes denote, modulo the group order.
    pub fn reduce(bytes: &[u8; 32]) -> (r: Scalar)
        ensures
            r@ == be_value(bytes@) % order(),
    {
        k256_reduce(bytes)
    }

    /// The additive inverse.
    pub fn negate(&self) -> (r: Scalar)
        ensures
            r@ == neg_mod(self@),
    {
        proof {
            use_type_invariant(self);
        }
        k256_negate(self)
    }

    /// The difference of two scalars.
    pub fn sub(&self, other: &Scalar) -> (r: Scalar)
        ensures
            r@ == sub_mod(self@, other@),
    {
        proof {
            use_type_invariant(self);
            use_type_invariant(other);
        }
        k256_sub(self, other)
    }

    /// The product of two scalars.
    pub fn mul(&self, other: &Scalar) -> (r: Scalar)
        ensures
            r@ == mul_mod(self@, other@),
    {
        proof {
            use_type_invariant(self);
            use_type_invariant(other);
        }
        k256_mul(self, other)
    }

    /// Whether two scalars are equal, decided in constant time.
    pub fn ct_eq(&self, other: &Scalar) -> (r: bool)
        ensures
            r == (self@ == other@),
    {
        proof {
            use_type_invariant(self);
            use_type_invariant(other);
        }
        subtle_ct_eq(self, other)
    }

    /// `b` if `choice` is set and `a` if it is not, picked in constant time.
    pub fn conditional_select(a: &Scalar, b: &Scalar, choice: bool) -> (r: Scalar)
        ensures
            r@ == (if choice { b@ } else { a@ }),
    {
        proof {
            use_type_invariant(a);
            use_type_invariant(b);
        }
        subtle_conditional_select(a, b, choice)
    }
}

/// Every scalar fits into 32 bytes.
pub proof fn scalars_fit_their_bytes(a: nat)
    requires
        a < order(),
    ensures
        be_value(be_bytes(a, 32)) == a,
        be_bytes(a, 32).len() == 32,
{
    reveal_with_fuel(pow, 33);
    be_value_of_be_bytes(a, 32);
    be_bytes_len(a, 32);
}

/// The values of a sequence of scalars.
pub open spec fn scalar_values(scalars: Seq<Scalar>) -> Seq<nat> {
    scalars.map_values(|a: Scalar| a@)
}

} // verus!
