//! What digits, scalars, public keys and signatures stand for.

use vstd::prelude::*;

use crate::bytes::{be_bytes, be_value};
use crate::hex::{digit_value, hex_decoded, hex_digit, hex_encoded, hex_round_trip, is_hex_digit};
use crate::point::{element_of, elements, field_prime, on_curve, sec1_point, Point};
use crate::protocol::{ErrorView, SignatureView};
use crate::scalar::{order, scalar_values, scalars_fit_their_bytes, Scalar};
use crate::types::{
    outcome, scalar_from_hex, scalar_hex, signature_from_hex, signature_hex, texts, Error,
    HexSignatureView, RingSignature, RingSignatureBinary,
};
use crate::utils::{point_from_hex, ring_from_hex};

verus! {

// ---- Bytes and digits ----

/// Bytes are read most significant first, in base 256, however many there are.
pub proof fn bytes_are_read_in_base_256(bytes: Seq<u8>, next: u8)
    ensures
        be_value(Seq::<u8>::empty()) == 0,
        be_value(bytes.push(next)) == 256 * be_value(bytes) + next,
{
    assert(bytes.push(next).drop_last() =~= bytes);
}

/// A character is a digit of either case for a value below sixteen exactly if it stands at that
/// place in the list of digits of that case.
proof fn digits_in_order(c: char, value: nat)
    requires
        value < 16,
    ensures
        (is_hex_digit(c) && digit_value(c) == value) <==> ("0123456789abcdef"@[value as int] == c
            || "0123456789ABCDEF"@[value as int] == c),
        hex_digit(value) == "0123456789abcdef"@[value as int],
{
    reveal_strlit("0123456789abcdef");
    reveal_strlit("0123456789ABCDEF");
}

/// A string denotes bytes exactly if it has two digits for each of them, the high one first, in
/// lower or upper case.
pub proof fn digits_denote_bytes(digits: Seq<char>, bytes: Seq<u8>)
    ensures
        hex_decoded(digits) == Some(bytes) <==> {
            &&& digits.len() == 2 * bytes.len()
            &&& forall|i: int|
                0 <= i < bytes.len() ==> {
                    &&& ("0123456789abcdef"@[#[trigger] bytes[i] as int / 16] == digits[2 * i]
                        || "0123456789ABCDEF"@[bytes[i] as int / 16] == digits[2 * i])
                    &&& ("0123456789abcdef"@[bytes[i] as int % 16] == digits[2 * i + 1]
                        || "0123456789ABCDEF"@[bytes[i] as int % 16] == digits[2 * i + 1])
                }
        },
{
    if hex_decoded(digits) == Some(bytes) {
        assert forall|i: int| 0 <= i < bytes.len() implies {
            &&& ("0123456789abcdef"@[#[trigger] bytes[i] as int / 16] == digits[2 * i]
                || "0123456789ABCDEF"@[bytes[i] as int / 16] == digits[2 * i])
            &&& ("0123456789abcdef"@[bytes[i] as int % 16] == digits[2 * i + 1]
                || "0123456789ABCDEF"@[bytes[i] as int % 16] == digits[2 * i + 1])
        } by {
            assert(is_hex_digit(digits[2 * i]) && is_hex_digit(digits[2 * i + 1]));
            digits_in_order(digits[2 * i], digit_value(digits[2 * i]));
            digits_in_order(digits[2 * i + 1], digit_value(digits[2 * i + 1]));
        }
    } else if digits.len() == 2 * bytes.len() && forall|i: int|
        0 <= i < bytes.len() ==> {
            &&& ("0123456789abcdef"@[#[trigger] bytes[i] as int / 16] == digits[2 * i]
                || "0123456789ABCDEF"@[bytes[i] as int / 16] == digits[2 * i])
            &&& ("0123456789abcdef"@[bytes[i] as int % 16] == digits[2 * i + 1]
                || "0123456789ABCDEF"@[bytes[i] as int % 16] == digits[2 * i + 1])
        } {
        assert forall|i: int| 0 <= i < bytes.len() implies is_hex_digit(digits[2 * i])
            && is_hex_digit(digits[2 * i + 1]) && digit_value(digits[2 * i]) * 16 + digit_value(
            digits[2 * i + 1],
        ) == #[trigger] bytes[i] by {
            digits_in_order(digits[2 * i], bytes[i] as nat / 16);
            digits_in_order(digits[2 * i + 1], bytes[i] as nat % 16);
        }
        assert forall|k: int| 0 <= k < digits.len() implies is_hex_digit(#[trigger] digits[k]) by {
            let i = k / 2;
            assert(0 <= i < bytes.len() && (k == 2 * i || k == 2 * i + 1));
            assert(digit_value(digits[2 * i]) * 16 + digit_value(digits[2 * i + 1]) == bytes[i]);
        }
        assert(hex_decoded(digits).unwrap() =~= bytes);
    }
}

/// A string denotes no bytes exactly if its length is odd or some character is no digit.
pub proof fn other_strings_denote_no_bytes(digits: Seq<char>)
    ensures
        hex_decoded(digits) is None <==> digits.len() % 2 == 1 || exists|i: int|
            0 <= i < digits.len() && !('0' <= #[trigger] digits[i] <= '9' || 'a' <= digits[i] <= 'f'
                || 'A' <= digits[i] <= 'F'),
{
}

/// Each byte is written as two digits in lower case, the high one first.
pub proof fn bytes_are_written_in_lower_case(bytes: Seq<u8>, i: int)
    requires
        0 <= i < bytes.len(),
    ensures
        hex_encoded(bytes).len() == 2 * bytes.len(),
        hex_encoded(bytes)[2 * i] == "0123456789abcdef"@[bytes[i] as int / 16],
        hex_encoded(bytes)[2 * i + 1] == "0123456789abcdef"@[bytes[i] as int % 16],
{
    assert((2 * i) / 2 == i && (2 * i + 1) / 2 == i);
    digits_in_order('0', bytes[i] as nat / 16);
    digits_in_order('0', bytes[i] as nat % 16);
}

// ---- Views ----

/// Every member of a ring is in its view, at its place.
pub proof fn rings_are_seen_whole(points: Seq<Point>)
    ensures
        elements(points).len() == points.len(),
        forall|i: int| 0 <= i < points.len() ==> #[trigger] elements(points)[i] == points[i]@,
{
}

/// Every scalar is in the view of a sequence of them, at its place.
pub proof fn scalars_are_seen_whole(scalars: Seq<Scalar>)
    ensures
        scalar_values(scalars).len() == scalars.len(),
        forall|i: int|
            0 <= i < scalars.len() ==> #[trigger] scalar_values(scalars)[i] == scalars[i]@,
{
}

/// Every string is in the view of a sequence of them, at its place.
pub proof fn strings_are_seen_whole(strings: Seq<String>)
    ensures
        texts(strings).len() == strings.len(),
        forall|i: int| 0 <= i < strings.len() ==> #[trigger] texts(strings)[i] == strings[i]@,
{
}

/// The view of a signature has its first challenge and every response, at its place.
pub proof fn signatures_are_seen_whole(signature: RingSignatureBinary, written: RingSignature)
    ensures
        signature@.c0 == signature.c0@,
        signature@.s.len() == signature.s@.len(),
        forall|i: int|
            0 <= i < signature.s@.len() ==> #[trigger] signature@.s[i] == signature.s@[i]@,
        written@.c0 == written.c0@,
        written@.s.len() == written.s@.len(),
        forall|i: int| 0 <= i < written.s@.len() ==> #[trigger] written@.s[i] == written.s@[i]@,
{
}

/// The view of a result is a success with the same value, or a failure with the same error.
pub proof fn results_are_seen_whole<T: View>(value: T, error: Error)
    ensures
        outcome(Ok::<T, Error>(value)) == Ok::<T::V, ErrorView>(value@),
        outcome(Err::<T, Error>(error)) == Err::<T::V, ErrorView>(error@),
        error matches Error::PrivateKeyFormat(text) ==> error@ == ErrorView::PrivateKeyFormat(
            text@,
        ),
        error matches Error::PublicKeyFormat(text) ==> error@ == ErrorView::PublicKeyFormat(text@),
        error matches Error::RingTooSmall(size) ==> error@ == ErrorView::RingTooSmall(size as nat),
        error is SignerNotInRing ==> error@ == ErrorView::SignerNotInRing,
        error is InvalidSignatureFormat ==> error@ == ErrorView::InvalidSignatureFormat,
{
}

// ---- Scalars and signatures ----

/// A string is read as a scalar exactly if it denotes 32 bytes whose value is below the group
/// order, and it is read as that value.
pub proof fn scalars_are_read_from_32_bytes(digits: Seq<char>, a: nat)
    ensures
        scalar_from_hex(digits) == Ok::<nat, ErrorView>(a) <==> {
            &&& hex_decoded(digits) matches Some(bytes)
            &&& bytes.len() == 32
            &&& be_value(bytes) == a
            &&& a < order()
        },
        scalar_from_hex(digits) matches Err(error) ==> error is PrivateKeyFormat,
{
}

/// A scalar is written as 64 digits that denote the 32 bytes of its value.
pub proof fn scalars_are_written_as_64_digits(a: nat)
    requires
        a < order(),
    ensures
        scalar_hex(a).len() == 64,
        hex_decoded(scalar_hex(a)) matches Some(bytes) && bytes.len() == 32 && be_value(bytes)
            == a && scalar_hex(a) == hex_encoded(bytes),
{
    scalars_fit_their_bytes(a);
    hex_round_trip(be_bytes(a, 32));
}

/// A signature is read exactly if its first challenge and every response can be read, each from
/// its own digits and at its own place.
pub proof fn signatures_are_read_place_by_place(
    written: HexSignatureView,
    signature: SignatureView,
)
    ensures
        signature_from_hex(written) == Ok::<SignatureView, ErrorView>(signature) <==> {
            &&& scalar_from_hex(written.c0) == Ok::<nat, ErrorView>(signature.c0)
            &&& written.s.len() == signature.s.len()
            &&& forall|i: int|
                0 <= i < written.s.len() ==> scalar_from_hex(#[trigger] written.s[i]) == Ok::<
                    nat,
                    ErrorView,
                >(signature.s[i])
        },
        signature_from_hex(written) is Err <==> {
            ||| scalar_from_hex(written.c0) is Err
            ||| exists|i: int|
                0 <= i < written.s.len() && scalar_from_hex(#[trigger] written.s[i]) is Err
        },
        signature_from_hex(written) matches Err(error) ==> error
            == ErrorView::InvalidSignatureFormat,
{
    if signature_from_hex(written) is Ok {
        let read = signature_from_hex(written)->Ok_0;
        assert(read.s.len() == written.s.len());
        assert forall|i: int| 0 <= i < written.s.len() implies scalar_from_hex(
            #[trigger] written.s[i],
        ) == Ok::<nat, ErrorView>(read.s[i]) by {}
        if scalar_from_hex(written.c0) == Ok::<nat, ErrorView>(signature.c0) && written.s.len()
            == signature.s.len() && forall|i: int|
            0 <= i < written.s.len() ==> scalar_from_hex(#[trigger] written.s[i]) == Ok::<
                nat,
                ErrorView,
            >(signature.s[i]) {
            assert(read.s =~= signature.s) by {
                assert forall|i: int| 0 <= i < written.s.len() implies read.s[i]
                    == signature.s[i] by {
                    assert(scalar_from_hex(written.s[i]) == Ok::<nat, ErrorView>(read.s[i]));
                }
            }
            assert(read =~= signature);
        }
    }
}

/// A signature is written place by place, each scalar by its own digits.
pub proof fn signatures_are_written_place_by_place(signature: SignatureView)
    ensures
        signature_hex(signature).c0 == scalar_hex(signature.c0),
        signature_hex(signature).s.len() == signature.s.len(),
        forall|i: int|
            0 <= i < signature.s.len() ==> #[trigger] signature_hex(signature).s[i] == scalar_hex(
                signature.s[i],
            ),
{
}

// ---- Public keys ----

/// A public key that is no even number of digits, or not 32, 33 or 65 bytes, is refused.
pub proof fn keys_of_other_lengths_are_refused(digits: Seq<char>)
    ensures
        hex_decoded(digits) is None ==> point_from_hex(digits) is Err,
        digits.len() != 64 && digits.len() != 66 && digits.len() != 130 ==> point_from_hex(
            digits,
        ) is Err,
        point_from_hex(digits) matches Err(error) ==> error is PublicKeyFormat,
{
}

/// A compressed key is the point that has these 33 bytes: the abscissa `x`, and the ordinate of
/// the parity that the first byte tells. It is refused if there is no such point.
pub proof fn compressed_keys_are_read(digits: Seq<char>, x: Seq<u8>, odd: bool)
    requires
        x.len() == 32,
        hex_decoded(digits) == Some(seq![if odd { 3u8 } else { 2u8 }] + x),
    ensures
        (exists|y: nat|
            be_value(x) < field_prime() && y < field_prime() && #[trigger] (y * y)
                % field_prime() == (be_value(x) * be_value(x) * be_value(x) + 7) % field_prime()
                && (y % 2 == 1) == odd) ==> point_from_hex(digits) == Ok::<nat, ErrorView>(
            element_of(seq![if odd { 3u8 } else { 2u8 }] + x),
        ),
        point_from_hex(digits) is Ok ==> exists|y: nat|
            be_value(x) < field_prime() && y < field_prime() && #[trigger] (y * y)
                % field_prime() == (be_value(x) * be_value(x) * be_value(x) + 7) % field_prime()
                && (y % 2 == 1) == odd,
{
    let bytes = seq![if odd { 3u8 } else { 2u8 }] + x;
    assert(bytes.skip(1) =~= x);
    if exists|y: nat|
        be_value(x) < field_prime() && y < field_prime() && #[trigger] (y * y) % field_prime() == (
        be_value(x) * be_value(x) * be_value(x) + 7) % field_prime() && (y % 2 == 1) == odd {
        let y = choose|y: nat|
            be_value(x) < field_prime() && y < field_prime() && #[trigger] (y * y)
                % field_prime() == (be_value(x) * be_value(x) * be_value(x) + 7) % field_prime()
                && (y % 2 == 1) == odd;
        assert(on_curve(be_value(x), y));
    }
    if point_from_hex(digits) is Ok {
        let y = choose|y: nat| #[trigger] on_curve(be_value(x), y) && (y % 2 == 1) == odd;
        assert((y * y) % field_prime() == (be_value(x) * be_value(x) * be_value(x) + 7)
            % field_prime());
    }
}

/// An abscissa alone is read as the compressed key with the even ordinate, and so is the compact
/// form.
pub proof fn abscissas_mean_the_even_ordinate(
    alone: Seq<char>,
    compressed: Seq<char>,
    compact: Seq<char>,
    x: Seq<u8>,
)
    requires
        x.len() == 32,
        hex_decoded(alone) == Some(x),
        hex_decoded(compressed) == Some(seq![2u8] + x),
        hex_decoded(compact) == Some(seq![5u8] + x),
    ensures
        point_from_hex(alone) == point_from_hex(compressed),
        point_from_hex(compact) == point_from_hex(compressed),
{
    assert((seq![2u8] + x).skip(1) =~= x);
    assert((seq![5u8] + x).skip(1) =~= x);
}

/// An uncompressed key with the coordinates of a point on the curve is read as the compressed key
/// with the same abscissa and the parity of the same ordinate, whichever it is; any other
/// coordinates are refused.
pub proof fn uncompressed_keys_keep_their_ordinate(
    uncompressed: Seq<char>,
    compressed: Seq<char>,
    x: Seq<u8>,
    y: Seq<u8>,
)
    requires
        x.len() == 32,
        y.len() == 32,
        hex_decoded(uncompressed) == Some(seq![4u8] + x + y),
        hex_decoded(compressed) == Some(seq![if y[31] % 2 == 1 { 3u8 } else { 2u8 }] + x),
    ensures
        be_value(x) < field_prime() && be_value(y) < field_prime() && (be_value(y) * be_value(y))
            % field_prime() == (be_value(x) * be_value(x) * be_value(x) + 7) % field_prime() ==> {
            &&& point_from_hex(uncompressed) is Ok
            &&& point_from_hex(uncompressed) == point_from_hex(compressed)
            &&& point_from_hex(uncompressed) == Ok::<nat, ErrorView>(
                element_of(seq![if y[31] % 2 == 1 { 3u8 } else { 2u8 }] + x),
            )
        },
        point_from_hex(uncompressed) is Ok ==> be_value(x) < field_prime() && be_value(y)
            < field_prime() && (be_value(y) * be_value(y)) % field_prime() == (be_value(x)
            * be_value(x) * be_value(x) + 7) % field_prime(),
{
    let whole = seq![4u8] + x + y;
    let tagged = seq![if y[31] % 2 == 1 { 3u8 } else { 2u8 }] + x;
    assert(whole.subrange(1, 33) =~= x);
    assert(whole.subrange(33, 65) =~= y);
    assert(tagged.skip(1) =~= x);
    assert(be_value(y) == be_value(y.drop_last()) * 256 + y[31]);
    assert(be_value(y) % 2 == y[31] % 2);
    if on_curve(be_value(x), be_value(y)) {
        assert(seq![(2 + be_value(y) % 2) as u8] + x =~= tagged);
    }
}

/// Bytes that start otherwise than the forms of a point do are refused.
pub proof fn keys_of_other_forms_are_refused(digits: Seq<char>, bytes: Seq<u8>)
    requires
        hex_decoded(digits) == Some(bytes),
        bytes.len() == 33 && bytes[0] != 2 && bytes[0] != 3 && bytes[0] != 5 || bytes.len() == 65
            && bytes[0] != 4,
    ensures
        point_from_hex(digits) is Err,
{
}

/// The identity is read from one zero byte alone, and bytes of any other length than 1, 33 and 65
/// encode no point.
pub proof fn encodings_have_three_lengths(bytes: Seq<u8>)
    ensures
        sec1_point(seq![0u8]) == Some(Seq::new(33, |i: int| 0u8)),
        bytes.len() == 1 && bytes[0] != 0 ==> sec1_point(bytes) is None,
        bytes.len() != 1 && bytes.len() != 33 && bytes.len() != 65 ==> sec1_point(bytes) is None,
{
}

/// The digits of a point's compressed encoding are read as that point.
///
/// That its encoding is one of a point on the curve is what writing it ensures.
pub proof fn written_points_are_read_back(p: Point)
    requires
        p.wf(),
        p@ != 0,
        sec1_point(p.encoding()) == Some(p.encoding()),
    ensures
        point_from_hex(hex_encoded(p.encoding())) == Ok::<nat, ErrorView>(p@),
{
    hex_round_trip(p.encoding());
}

// ---- Rings of public keys ----

/// A ring is read exactly if every key can be read, and then it has one member for each key:
/// member `i` is what key `i` is read as on its own.
pub proof fn rings_are_read_key_by_key(keys: Seq<Seq<char>>, ring: Seq<nat>)
    ensures
        ring_from_hex(keys) == Ok::<Seq<nat>, ErrorView>(ring) <==> {
            &&& ring.len() == keys.len()
            &&& forall|i: int|
                0 <= i < keys.len() ==> point_from_hex(#[trigger] keys[i]) == Ok::<nat, ErrorView>(
                    ring[i],
                )
        },
    decreases keys.len(),
{
    if keys.len() > 0 {
        let front = keys.drop_last();
        if ring.len() == keys.len() {
            rings_are_read_key_by_key(front, ring.drop_last());
            assert(ring =~= ring.drop_last().push(ring.last()));
            assert forall|i: int| 0 <= i < front.len() implies front[i] == keys[i]
                && ring.drop_last()[i] == ring[i] by {}
            if ring_from_hex(keys) == Ok::<Seq<nat>, ErrorView>(ring) {
                let read = ring_from_hex(front)->Ok_0;
                assert(read.push(point_from_hex(keys.last())->Ok_0).drop_last() =~= read);
                assert(read.push(point_from_hex(keys.last())->Ok_0).last() == ring.last());
                assert forall|i: int| 0 <= i < keys.len() implies point_from_hex(
                    #[trigger] keys[i],
                ) == Ok::<nat, ErrorView>(ring[i]) by {
                    if i < front.len() {
                        assert(point_from_hex(front[i]) == Ok::<nat, ErrorView>(
                            ring.drop_last()[i],
                        ));
                    }
                }
            } else if forall|i: int|
                0 <= i < keys.len() ==> point_from_hex(#[trigger] keys[i]) == Ok::<nat, ErrorView>(
                    ring[i],
                ) {
                assert forall|i: int| 0 <= i < front.len() implies point_from_hex(
                    #[trigger] front[i],
                ) == Ok::<nat, ErrorView>(ring.drop_last()[i]) by {
                    assert(point_from_hex(keys[i]) == Ok::<nat, ErrorView>(ring[i]));
                }
                assert(point_from_hex(keys[keys.len() - 1]) == Ok::<nat, ErrorView>(ring.last()));
            }
        } else if ring_from_hex(keys) is Ok {
            let read = ring_from_hex(front)->Ok_0;
            rings_are_read_key_by_key(front, read);
        }
    } else if ring.len() == 0 {
        assert(ring =~= Seq::empty());
    }
}

/// A ring with a key that cannot be read is refused, with the error of the first such key.
pub proof fn the_first_unreadable_key_is_told(keys: Seq<Seq<char>>, i: int, error: ErrorView)
    requires
        0 <= i < keys.len(),
        point_from_hex(keys[i]) == Err::<nat, ErrorView>(error),
        forall|k: int| 0 <= k < i ==> point_from_hex(#[trigger] keys[k]) is Ok,
    ensures
        ring_from_hex(keys) == Err::<Seq<nat>, ErrorView>(error),
    decreases keys.len(),
{
    let front = keys.drop_last();
    if i < front.len() {
        the_first_unreadable_key_is_told(front, i, error);
    } else {
        let ring = Seq::new(front.len(), |k: int| point_from_hex(keys[k])->Ok_0);
        assert forall|k: int| 0 <= k < front.len() implies point_from_hex(#[trigger] front[k])
            == Ok::<nat, ErrorView>(ring[k]) by {
            assert(point_from_hex(keys[k]) is Ok);
        }
        rings_are_read_key_by_key(front, ring);
    }
}

} // verus!
