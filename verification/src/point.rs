//! Points of secp256k1.

use k256::elliptic_curve::group::{Group, GroupEncoding};
use k256::elliptic_curve::sec1::{FromEncodedPoint, ToEncodedPoint};
use k256::elliptic_curve::PrimeField;
use k256::{EncodedPoint, ProjectivePoint};
use vstd::prelude::*;

use crate::bytes::be_value;
use crate::scalar::{add_mod, mul_mod, order, Scalar};

verus! {

/// The prime over which the curve `y^2 = x^3 + 7` is taken.
pub open spec fn field_prime() -> nat {
    0xFFFF_FFFF_FFFF_FFFF_FFFF_FFFF_FFFF_FFFF_FFFF_FFFF_FFFF_FFFF_FFFF_FFFE_FFFF_FC2Fnat
}

/// `x` and `y` are the reduced coordinates of a point on the curve.
pub open spec fn on_curve(x: nat, y: nat) -> bool {
    &&& x < field_prime()
    &&& y < field_prime()
    &&& (y * y) % field_prime() == (x * x * x + 7) % field_prime()
}

/// The bytes that `to_encoded_point(true)` of `k256::ProjectivePoint` returns for `k` times the
/// generator: the compressed SEC1 encoding.
pub uninterp spec fn compressed_encoding(k: nat) -> Seq<u8>;

/// The 33 zero bytes that stand for the identity.
pub open spec fn identity_encoding() -> Seq<u8> {
    Seq::new(33, |i: int| 0u8)
}

/// The compressed encoding of the generator.
pub open spec fn generator_encoding() -> Seq<u8> {
    seq![
        0x02, 0x79, 0xbe, 0x66, 0x7e, 0xf9, 0xdc, 0xbb, 0xac, 0x55, 0xa0, 0x62, 0x95, 0xce, 0x87,
        0x0b, 0x07, 0x02, 0x9b, 0xfc, 0xdb, 0x2d, 0xce, 0x28, 0xd9, 0x59, 0xf2, 0x81, 0x5b, 0x16,
        0xf8, 0x17, 0x98,
    ]
}

/// The group element that 33 bytes stand for.
///
/// `k256` documents secp256k1 as a curve of prime order, so every element is a multiple of the
/// generator. It is told by which one: a number below the group order, zero for the identity and
/// one for the generator. Different elements have different encodings.
pub open spec fn element_of(encoding: Seq<u8>) -> nat {
    if encoding == identity_encoding() {
        0
    } else {
        choose|k: nat| 0 < k < order() && #[trigger] compressed_encoding(k) == encoding
    }
}

/// A point of secp256k1, the identity among them.
///
/// It is held as its compressed SEC1 encoding, or as 33 zero bytes for the identity. Each point
/// has one such encoding.
#[derive(Clone, Copy, Debug, PartialEq, Eq)]
pub struct Point {
    bytes: [u8; 33],
}

impl View for Point {
    type V = nat;

    open spec fn view(&self) -> nat {
        element_of(self.encoding())
    }
}

impl Point {
    /// The 33 bytes that this point is held as.
    pub closed spec fn encoding(&self) -> Seq<u8> {
        self.bytes@
    }

    /// The bytes are those of a group element.
    #[verifier::type_invariant]
    pub open spec fn wf(&self) -> bool {
        &&& self@ < order()
        &&& self.encoding() == (if self@ == 0 {
            identity_encoding()
        } else {
            compressed_encoding(self@)
        })
    }
}

/// The 33 bytes for the point with abscissa `x` and an ordinate of the given parity, if there is
/// such a point.
pub open spec fn decompressed(x: Seq<u8>, odd: bool) -> Option<Seq<u8>> {
    if exists|y: nat| #[trigger] on_curve(be_value(x), y) && (y % 2 == 1) == odd {
        Some(seq![if odd { 3u8 } else { 2u8 }] + x)
    } else {
        None
    }
}

/// The 33 bytes for the point that a SEC1 encoding denotes, if it denotes one.
///
/// Read are the one-byte encoding of the identity, the compressed encodings, the compact one
/// (which means the even ordinate) and the uncompressed one.
pub open spec fn sec1_point(bytes: Seq<u8>) -> Option<Seq<u8>> {
    if bytes.len() == 1 && bytes[0] == 0 {
        Some(identity_encoding())
    } else if bytes.len() == 33 && (bytes[0] == 2 || bytes[0] == 5) {
        decompressed(bytes.skip(1), false)
    } else if bytes.len() == 33 && bytes[0] == 3 {
        decompressed(bytes.skip(1), true)
    } else if bytes.len() == 65 && bytes[0] == 4 {
        let x = bytes.subrange(1, 33);
        let y = be_value(bytes.subrange(33, 65));
        if on_curve(be_value(x), y) {
            Some(seq![(2 + y % 2) as u8] + x)
        } else {
            None
        }
    } else {
        None
    }
}

/// `k256::EncodedPoint::from_bytes`, then `k256::ProjectivePoint::from_encoded_point`.
///
/// Claimed: the bytes are accepted exactly when they are a SEC1 encoding of a point on the
/// curve, and the point read is the one encoded.
#[verifier::external_body]
fn k256_from_encoded_point(bytes: &[u8]) -> (r: Option<Point>)
    ensures
        r is Some <==> sec1_point(bytes@) is Some,
        r matches Some(p) ==> p.wf() && sec1_point(bytes@) == Some(p.encoding()),
{
    let encoded = match EncodedPoint::from_bytes(bytes) {
        Ok(encoded) => encoded,
        Err(_) => return None,
    };
    let read: Option<ProjectivePoint> = ProjectivePoint::from_encoded_point(&encoded).into();
    match read {
        Some(p) => Some(Point { bytes: p.to_bytes()[..].try_into().unwrap() }),
        None => None,
    }
}

/// `k256::ProjectivePoint::to_encoded_point`, compressed.
///
/// Claimed: the bytes depend on the group element alone, the identity gives one zero byte, and
/// the bytes are a SEC1 encoding of the point that they were written from.
#[verifier::external_body]
fn k256_to_encoded_point(p: &Point) -> (r: Vec<u8>)
    requires
        p.wf(),
    ensures
        r@ == compressed_encoding(p@),
        p@ == 0 ==> r@ == seq![0u8],
        sec1_point(r@) == Some(p.encoding()),
{
    let p = ProjectivePoint::from_bytes(p.bytes[..].into()).unwrap();
    p.to_encoded_point(true).as_bytes().to_vec()
}

/// `k256::ProjectivePoint::GENERATOR`.
///
/// Claimed: it is the generator that group elements are counted by, with the documented
/// coordinates.
#[verifier::external_body]
fn k256_generator() -> (r: Point)
    ensures
        r.wf(),
        r@ == 1,
        r.encoding() == generator_encoding(),
{
    let p = ProjectivePoint::GENERATOR;
    Point { bytes: p.to_bytes()[..].try_into().unwrap() }
}

/// Multiplication of a `k256::ProjectivePoint` by a `k256::Scalar`.
///
/// Claimed: `k` times the element that is `n` times the generator is `n * k` times the
/// generator, modulo the group order.
#[verifier::external_body]
fn k256_point_mul(p: &Point, k: &Scalar) -> (r: Point)
    requires
        p.wf(),
        k.wf(),
    ensures
        r.wf(),
        r@ == mul_mod(p@, k@),
{
    let p = ProjectivePoint::from_bytes(p.bytes[..].into()).unwrap();
    let k = k256::Scalar::from_repr(k.bytes.into()).unwrap();
    Point { bytes: (p * k).to_bytes()[..].try_into().unwrap() }
}

/// Addition of `k256::ProjectivePoint`s.
///
/// Claimed: the sum of the elements that are `m` and `n` times the generator is `m + n` times
/// the generator, modulo the group order.
#[verifier::external_body]
fn k256_point_add(p: &Point, q: &Point) -> (r: Point)
    requires
        p.wf(),
        q.wf(),
    ensures
        r.wf(),
        r@ == add_mod(p@, q@),
{
    let p = ProjectivePoint::from_bytes(p.bytes[..].into()).unwrap();
    let q = ProjectivePoint::from_bytes(q.bytes[..].into()).unwrap();
    Point { bytes: (p + q).to_bytes()[..].try_into().unwrap() }
}

/// `==` on `k256::ProjectivePoint`s.
///
/// Claimed: it tells whether the two are the same group element.
#[verifier::external_body]
fn k256_point_eq(p: &Point, q: &Point) -> (r: bool)
    requires
        p.wf(),
        q.wf(),
    ensures
        r == (p@ == q@),
{
    let p = ProjectivePoint::from_bytes(p.bytes[..].into()).unwrap();
    let q = ProjectivePoint::from_bytes(q.bytes[..].into()).unwrap();
    p == q
}

/// `is_identity` of `k256::ProjectivePoint`.
///
/// Claimed: it holds of the identity alone.
#[verifier::external_body]
fn k256_is_identity(p: &Point) -> (r: bool)
    requires
        p.wf(),
    ensures
        r == (p@ == 0),
{
    let p = ProjectivePoint::from_bytes(p.bytes[..].into()).unwrap();
    p.is_identity().into()
}

impl Point {
    /// The identity of the group.
    pub fn identity() -> (r: Point)
        ensures
            r@ == 0,
            r.encoding() == identity_encoding(),
    {
        let bytes = [0u8; 33];
        assert(bytes@ == identity_encoding());
        Point { bytes }
    }

    /// The generator of the group.
    pub fn generator() -> (r: Point)
        ensures
            r@ == 1,
            r.encoding() == generator_encoding(),
    {
        k256_generator()
    }

    /// Reads a point from a SEC1 encoding; `None` if the bytes encode none.
    pub fn from_sec1(bytes: &[u8]) -> (r: Option<Point>)
        ensures
            r is Some <==> sec1_point(bytes@) is Some,
            r matches Some(p) ==> sec1_point(bytes@) == Some(p.encoding()),
    {
        k256_from_encoded_point(bytes)
    }

    /// The compressed SEC1 encoding of this point.
    pub fn to_sec1(&self) -> (r: Vec<u8>)
        ensures
            r@ == compressed_encoding(self@),
            r@ == (if self@ == 0 {
                seq![0u8]
            } else {
                self.encoding()
            }),
            sec1_point(r@) == Some(self.encoding()),
    {
        proof {
            use_type_invariant(self);
        }
        k256_to_encoded_point(self)
    }

    /// `k` times this point.
    pub fn mul(&self, k: &Scalar) -> (r: Point)
        ensures
            r@ == mul_mod(self@, k@),
    {
        proof {
            use_type_invariant(self);
            use_type_invariant(k);
        }
        k256_point_mul(self, k)
    }

    /// The sum of two points.
    pub fn add(&self, other: &Point) -> (r: Point)
        ensures
            r@ == add_mod(self@, other@),
    {
        proof {
            use_type_invariant(self);
            use_type_invariant(other);
        }
        k256_point_add(self, other)
    }

    /// Whether two points are the same.
    pub fn same(&self, other: &Point) -> (r: bool)
        ensures
            r == (self@ == other@),
    {
        proof {
            use_type_invariant(self);
            use_type_invariant(other);
        }
        k256_point_eq(self, other)
    }

    /// Whether this point is the identity.
    pub fn is_identity(&self) -> (r: bool)
        ensures
            r == (self@ == 0),
    {
        proof {
            use_type_invariant(self);
        }
        k256_is_identity(self)
    }
}

/// The bytes of the generator are a compressed encoding of a point on the curve.
pub proof fn generator_is_on_the_curve()
    ensures
        sec1_point(generator_encoding()) == Some(generator_encoding()),
{
    let x = 0x79be667ef9dcbbac55a06295ce870b07029bfcdb2dce28d959f2815b16f81798nat;
    let y = 0x483ada7726a3c4655da4fbfc0e1108a8fd17b448a68554199c47d08ffb10d4b8nat;
    let bytes = generator_encoding().skip(1);
    assert(be_value(bytes) == x) by {
        reveal_with_fuel(be_value, 33);
    }
    assert(on_curve(x, y)) by (nonlinear_arith)
        requires
            x == 0x79be667ef9dcbbac55a06295ce870b07029bfcdb2dce28d959f2815b16f81798nat,
            y == 0x483ada7726a3c4655da4fbfc0e1108a8fd17b448a68554199c47d08ffb10d4b8nat,
    ;
    assert(seq![2u8] + bytes =~= generator_encoding());
}

/// A point is held as 33 bytes.
pub proof fn encodings_have_33_bytes(p: Point)
    ensures
        p.encoding().len() == 33,
{
}

/// Points with the same compressed encoding are the same, the identity left aside.
pub proof fn encodings_tell_points_apart(p: Point, q: Point)
    requires
        p.wf(),
        q.wf(),
        p@ != 0,
        q@ != 0,
        compressed_encoding(p@) == compressed_encoding(q@),
    ensures
        p@ == q@,
        p.encoding() == q.encoding(),
{
}

/// The group elements of a sequence of points.
pub open spec fn elements(points: Seq<Point>) -> Seq<nat> {
    points.map_values(|p: Point| p@)
}

} // verus!
