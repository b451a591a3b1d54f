//! Public keys in hexadecimal, and random scalars.

use k256::NonZeroScalar;
use rand::rngs::OsRng;
use vstd::prelude::*;

use crate::hex::{hex_decode, hex_decoded};
use crate::point::{element_of, elements, sec1_point, Point};
use crate::protocol::ErrorView;
use crate::scalar::{order, Scalar};
use crate::types::{outcome, texts, Error};

verus! {

/// The generator of random numbers that the operating system provides.
#[verifier::external_type_specification]
#[verifier::external_body]
pub struct ExOsRng(rand::rngs::OsRng);

// ---- Public keys ----

/// The SEC1 encoding that the bytes of a public key stand for: an abscissa alone means the point
/// with the even ordinate.
pub open spec fn sec1_form(bytes: Seq<u8>) -> Seq<u8> {
    if bytes.len() == 32 {
        seq![2u8] + bytes
    } else {
        bytes
    }
}

/// What reading a public key from digits comes to.
pub open spec fn point_from_hex(digits: Seq<char>) -> Result<nat, ErrorView> {
    match hex_decoded(digits) {
        None => Err(ErrorView::PublicKeyFormat("Public key is not a hex string"@)),
        Some(bytes) => if bytes.len() != 32 && bytes.len() != 33 && bytes.len() != 65 {
            Err(ErrorView::PublicKeyFormat("Public key is not 32, 33 or 65 bytes"@))
        } else {
            match sec1_point(sec1_form(bytes)) {
                Some(encoding) => Ok(element_of(encoding)),
                None => Err(ErrorView::PublicKeyFormat("Public key is not on the curve"@)),
            }
        },
    }
}

/// What reading a ring comes to: its members in order, or the error of the first that cannot be
/// read.
pub open spec fn ring_from_hex(keys: Seq<Seq<char>>) -> Result<Seq<nat>, ErrorView>
    decreases keys.len(),
{
    if keys.len() == 0 {
        Ok(Seq::empty())
    } else {
        match ring_from_hex(keys.drop_last()) {
            Err(error) => Err(error),
            Ok(ring) => match point_from_hex(keys.last()) {
                Err(error) => Err(error),
                Ok(p) => Ok(ring.push(p)),
            },
        }
    }
}

/// A ring that can be read has as many members as there were keys.
pub proof fn ring_has_a_member_per_key(keys: Seq<Seq<char>>)
    requires
        ring_from_hex(keys) is Ok,
    ensures
        ring_from_hex(keys)->Ok_0.len() == keys.len(),
    decreases keys.len(),
{
    if keys.len() > 0 {
        ring_has_a_member_per_key(keys.drop_last());
    }
}

/// A ring whose first members cannot be read cannot be read, for the same reason.
proof fn first_error_stays(keys: Seq<Seq<char>>, count: int)
    requires
        0 <= count <= keys.len(),
        ring_from_hex(keys.take(count)) is Err,
    ensures
        ring_from_hex(keys) == ring_from_hex(keys.take(count)),
    decreases keys.len(),
{
    if count == keys.len() {
        assert(keys.take(count) == keys);
    } else {
        assert(keys.drop_last().take(count) == keys.take(count));
        first_error_stays(keys.drop_last(), count);
    }
}

/// Reads a public key: 64 digits for an abscissa, 66 for a compressed point, 130 for an
/// uncompressed one.
pub fn hex_to_point(digits: &str) -> (r: Result<Point, Error>)
    ensures
        outcome(r) == point_from_hex(digits@),
{
    let bytes = match hex_decode(digits) {
        Some(bytes) => bytes,
        None => {
            return Err(Error::PublicKeyFormat("Public key is not a hex string".to_owned()));
        },
    };
    if bytes.len() != 32 && bytes.len() != 33 && bytes.len() != 65 {
        return Err(Error::PublicKeyFormat("Public key is not 32, 33 or 65 bytes".to_owned()));
    }
    let mut encoded: Vec<u8> = Vec::new();
    if bytes.len() == 32 {
        encoded.push(2);
    }
    let ghost digits_bytes = bytes@;
    let mut rest = bytes;
    encoded.append(&mut rest);
    assert(encoded@ =~= sec1_form(digits_bytes));
    match Point::from_sec1(encoded.as_slice()) {
        Some(p) => Ok(p),
        None => Err(Error::PublicKeyFormat("Public key is not on the curve".to_owned())),
    }
}

/// Reads a ring of public keys.
pub fn hex_to_ring(keys: &[String]) -> (r: Result<Vec<Point>, Error>)
    ensures
        match r {
            Ok(ring) => ring_from_hex(texts(keys@)) == Ok::<Seq<nat>, ErrorView>(elements(ring@)),
            Err(error) => ring_from_hex(texts(keys@)) == Err::<Seq<nat>, ErrorView>(error@),
        },
        r matches Ok(ring) ==> ring@.len() == keys@.len(),
{
    let ghost all = texts(keys@);
    let mut ring: Vec<Point> = Vec::new();
    assert(elements(ring@) =~= Seq::empty());
    for i in 0..keys.len()
        invariant
            all == texts(keys@),
            ring@.len() == i,
            ring_from_hex(all.take(i as int)) == Ok::<Seq<nat>, ErrorView>(elements(ring@)),
    {
        assert(all.take(i + 1).drop_last() == all.take(i as int));
        assert(all.take(i + 1).last() == keys@[i as int]@);
        match hex_to_point(keys[i].as_str()) {
            Ok(p) => {
                let ghost before = ring@;
                ring.push(p);
                assert(elements(ring@) =~= elements(before).push(p@));
            },
            Err(error) => {
                proof {
                    first_error_stays(all, i + 1);
                }
                return Err(error);
            },
        }
    }
    assert(all.take(all.len() as int) == all);
    Ok(ring)
}

// ---- Random scalars ----

/// `rand::rngs::OsRng::default`.
///
/// The generator holds no state, so nothing is claimed of it.
#[verifier::external_body]
pub(crate) fn rand_os_rng() -> OsRng {
    OsRng::default()
}

/// `k256::NonZeroScalar::random`, drawing from the operating system.
///
/// Claimed: the scalar is reduced and is not zero. Nothing is said of which one it is; the call
/// panics where the operating system has no random bytes to give.
#[verifier::external_body]
fn k256_random(rng: &mut OsRng) -> (r: Scalar)
    ensures
        r.wf(),
        r@ != 0,
{
    let drawn = NonZeroScalar::random(rng);
    Scalar { bytes: drawn.as_ref().to_bytes().into() }
}

/// The operating system's random numbers, with a record of the scalars drawn.
pub struct SystemRng {
    rng: OsRng,
    drawn: Ghost<Seq<nat>>,
}

impl SystemRng {
    /// The scalars drawn so far, in order.
    pub closed spec fn drawn(&self) -> Seq<nat> {
        self.drawn@
    }

    /// The scalars drawn since `earlier`.
    pub open spec fn drawn_since(&self, earlier: SystemRng) -> Seq<nat> {
        self.drawn().skip(earlier.drawn().len() as int)
    }

    /// A source from which nothing has been drawn.
    pub fn new(rng: OsRng) -> (r: SystemRng)
        ensures
            r.drawn() == Seq::<nat>::empty(),
    {
        SystemRng { rng, drawn: Ghost(Seq::empty()) }
    }
}

/// Draws a random scalar other than zero.
pub fn random_non_zero_scalar(rng: &mut SystemRng) -> (r: Scalar)
    ensures
        0 < r@ < order(),
        final(rng).drawn() == old(rng).drawn().push(r@),
{
    let r = k256_random(&mut rng.rng);
    proof {
        use_type_invariant(&r);
        rng.drawn@ = rng.drawn@.push(r@);
    }
    r
}

/// `nonces` are `n` reduced scalars other than zero.
pub open spec fn are_nonces(nonces: Seq<nat>, n: nat) -> bool {
    &&& nonces.len() == n
    &&& forall|k: int| 0 <= k < n ==> 0 < #[trigger] nonces[k] < order()
}

/// The nonces, completed to `n` with ones.
pub open spec fn completed(nonces: Seq<nat>, n: nat) -> Seq<nat> {
    Seq::new(
        n,
        |k: int|
            if k < nonces.len() {
                nonces[k]
            } else {
                1
            },
    )
}

} // verus!
