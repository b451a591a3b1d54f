//! Errors and signatures.

use vstd::prelude::*;

use crate::bytes::{be_bytes, be_value};
use crate::hex::{hex_decode, hex_decoded, hex_encode, hex_encoded};
use crate::protocol::{ErrorView, SignatureView};
use crate::scalar::{order, scalar_values, Scalar};

verus! {

/// Why a request was refused.
#[derive(Clone, Debug, PartialEq, Eq)]
pub enum Error {
    /// A private key is malformed.
    PrivateKeyFormat(String),
    /// A public key is malformed, or names a point that cannot be hashed.
    PublicKeyFormat(String),
    /// The ring has fewer than two members; it has this many.
    RingTooSmall(usize),
    /// The signer's public key is not in the ring.
    SignerNotInRing,
    /// A signature is malformed, or its length is not that of the ring.
    InvalidSignatureFormat,
}

impl View for Error {
    type V = ErrorView;

    open spec fn view(&self) -> ErrorView {
        match self {
            Error::PrivateKeyFormat(reason) => ErrorView::PrivateKeyFormat(reason@),
            Error::PublicKeyFormat(reason) => ErrorView::PublicKeyFormat(reason@),
            Error::RingTooSmall(size) => ErrorView::RingTooSmall(*size as nat),
            Error::SignerNotInRing => ErrorView::SignerNotInRing,
            Error::InvalidSignatureFormat => ErrorView::InvalidSignatureFormat,
        }
    }
}

/// A ring signature: the challenge at the first member, and one response for each member.
#[derive(Clone, Debug, PartialEq, Eq)]
pub struct RingSignatureBinary {
    /// The challenge at the first member of the ring.
    pub c0: Scalar,
    /// The responses, in the order of the ring.
    pub s: Vec<Scalar>,
}

impl View for RingSignatureBinary {
    type V = SignatureView;

    open spec fn view(&self) -> SignatureView {
        SignatureView { c0: self.c0@, s: scalar_values(self.s@) }
    }
}

/// The view of a result with an error of this library.
pub open spec fn outcome<T: View>(r: Result<T, Error>) -> Result<T::V, ErrorView> {
    match r {
        Ok(value) => Ok(value@),
        Err(error) => Err(error@),
    }
}

// ---- Hexadecimal forms ----

/// A signature with its scalars as strings.
#[verifier::ext_equal]
pub struct HexSignatureView {
    pub c0: Seq<char>,
    pub s: Seq<Seq<char>>,
}

/// A ring signature with its scalars written as 64 hexadecimal digits each.
#[derive(Clone, Debug, PartialEq, Eq)]
pub struct RingSignature {
    /// The challenge at the first member of the ring.
    pub c0: String,
    /// The responses, in the order of the ring.
    pub s: Vec<String>,
}

/// The characters of a sequence of strings.
pub open spec fn texts(strings: Seq<String>) -> Seq<Seq<char>> {
    strings.map_values(|s: String| s@)
}

impl View for RingSignature {
    type V = HexSignatureView;

    open spec fn view(&self) -> HexSignatureView {
        HexSignatureView { c0: self.c0@, s: texts(self.s@) }
    }
}

/// The digits of a scalar.
pub open spec fn scalar_hex(a: nat) -> Seq<char> {
    hex_encoded(be_bytes(a, 32))
}

/// What reading a scalar from digits comes to.
pub open spec fn scalar_from_hex(digits: Seq<char>) -> Result<nat, ErrorView> {
    match hex_decoded(digits) {
        None => Err(ErrorView::PrivateKeyFormat("Scalar is not a hex string"@)),
        Some(bytes) => if bytes.len() != 32 {
            Err(ErrorView::PrivateKeyFormat("Scalar is not 32 bytes"@))
        } else if be_value(bytes) >= order() {
            Err(ErrorView::PrivateKeyFormat("Scalar is not below the group order"@))
        } else {
            Ok(be_value(bytes))
        },
    }
}

/// The hexadecimal form of a signature.
pub open spec fn signature_hex(signature: SignatureView) -> HexSignatureView {
    HexSignatureView {
        c0: scalar_hex(signature.c0),
        s: signature.s.map_values(|a: nat| scalar_hex(a)),
    }
}

/// Every scalar of the signature can be read.
pub open spec fn is_readable(signature: HexSignatureView) -> bool {
    &&& scalar_from_hex(signature.c0) is Ok
    &&& forall|i: int|
        0 <= i < signature.s.len() ==> scalar_from_hex(#[trigger] signature.s[i]) is Ok
}

/// What reading a signature from its hexadecimal form comes to.
pub open spec fn signature_from_hex(signature: HexSignatureView) -> Result<
    SignatureView,
    ErrorView,
> {
    if is_readable(signature) {
        Ok(
            SignatureView {
                c0: scalar_from_hex(signature.c0)->Ok_0,
                s: signature.s.map_values(|digits: Seq<char>| scalar_from_hex(digits)->Ok_0),
            },
        )
    } else {
        Err(ErrorView::InvalidSignatureFormat)
    }
}

/// Reads a scalar from 64 hexadecimal digits, most significant first.
pub fn hex_to_scalar(digits: &str) -> (r: Result<Scalar, Error>)
    ensures
        outcome(r) == scalar_from_hex(digits@),
{
    let bytes = match hex_decode(digits) {
        Some(bytes) => bytes,
        None => {
            return Err(Error::PrivateKeyFormat("Scalar is not a hex string".to_owned()));
        },
    };
    if bytes.len() != 32 {
        return Err(Error::PrivateKeyFormat("Scalar is not 32 bytes".to_owned()));
    }
    let mut repr = [0u8; 32];
    for i in 0..32usize
        invariant
            bytes@.len() == 32,
            forall|k: int| 0 <= k < i ==> repr@[k] == bytes@[k],
    {
        repr[i] = bytes[i];
    }
    assert(repr@ =~= bytes@);
    match Scalar::from_repr(repr) {
        Some(scalar) => Ok(scalar),
        None => Err(Error::PrivateKeyFormat("Scalar is not below the group order".to_owned())),
    }
}

/// Writes a scalar as 64 hexadecimal digits, most significant first.
pub fn scalar_to_hex(scalar: &Scalar) -> (r: String)
    ensures
        r@ == scalar_hex(scalar@),
{
    hex_encode(&scalar.to_repr())
}

impl RingSignature {
    /// The hexadecimal form of a signature.
    pub fn from_binary(signature: &RingSignatureBinary) -> (r: RingSignature)
        ensures
            r@ == signature_hex(signature@),
    {
        let mut s: Vec<String> = Vec::new();
        for i in 0..signature.s.len()
            invariant
                s@.len() == i,
                forall|k: int|
                    0 <= k < i ==> (#[trigger] s@[k])@ == scalar_hex(signature.s@[k]@),
        {
            s.push(scalar_to_hex(&signature.s[i]));
        }
        let r = RingSignature { c0: scalar_to_hex(&signature.c0), s };
        assert(r@ =~= signature_hex(signature@)) by {
            assert(r@.s =~= signature_hex(signature@).s);
        }
        r
    }

    /// Reads a signature from its hexadecimal form.
    pub fn to_binary(&self) -> (r: Result<RingSignatureBinary, Error>)
        ensures
            outcome(r) == signature_from_hex(self@),
    {
        let c0 = match hex_to_scalar(self.c0.as_str()) {
            Ok(c0) => c0,
            Err(_) => {
                return Err(Error::InvalidSignatureFormat);
            },
        };
        let mut s: Vec<Scalar> = Vec::new();
        for i in 0..self.s.len()
            invariant
                s@.len() == i,
                forall|k: int|
                    0 <= k < i ==> scalar_from_hex(self@.s[k]) == Ok::<nat, ErrorView>(
                        (#[trigger] s@[k])@,
                    ),
        {
            assert(self@.s[i as int] == self.s@[i as int]@);
            match hex_to_scalar(self.s[i].as_str()) {
                Ok(scalar) => {
                    s.push(scalar);
                },
                Err(_) => {
                    return Err(Error::InvalidSignatureFormat);
                },
            }
        }
        let r = RingSignatureBinary { c0, s };
        assert forall|k: int| 0 <= k < self@.s.len() implies scalar_from_hex(
            #[trigger] self@.s[k],
        ) is Ok by {
            assert(scalar_from_hex(self@.s[k]) == Ok::<nat, ErrorView>(s@[k]@));
        }
        assert(r@ =~= signature_from_hex(self@)->Ok_0) by {
            assert(r@.s =~= signature_from_hex(self@)->Ok_0.s);
        }
        Ok(r)
    }
}

} // verus!
