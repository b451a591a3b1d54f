//! Byte strings written as hexadecimal digits.

use vstd::prelude::*;
use vstd::string::StringExecFns;
use vstd::utf8::is_ascii_chars;

verus! {

/// `c` is a hexadecimal digit, of either case.
pub open spec fn is_hex_digit(c: char) -> bool {
    ||| '0' <= c <= '9'
    ||| 'a' <= c <= 'f'
    ||| 'A' <= c <= 'F'
}

/// The value of a hexadecimal digit.
pub open spec fn digit_value(c: char) -> nat {
    if '0' <= c <= '9' {
        (c as int - '0' as int) as nat
    } else if 'a' <= c <= 'f' {
        (c as int - 'a' as int + 10) as nat
    } else {
        (c as int - 'A' as int + 10) as nat
    }
}

/// The digit, in lower case, for a value below sixteen.
pub open spec fn hex_digit(value: nat) -> char {
    if value < 10 {
        ('0' as int + value) as char
    } else {
        ('a' as int + value - 10) as char
    }
}

/// The bytes that a string of hexadecimal digits denotes, two digits to the byte.
pub open spec fn hex_decoded(digits: Seq<char>) -> Option<Seq<u8>> {
    if digits.len() % 2 == 0 && forall|i: int|
        0 <= i < digits.len() ==> is_hex_digit(#[trigger] digits[i]) {
        Some(
            Seq::new(
                digits.len() / 2,
                |i: int| (digit_value(digits[2 * i]) * 16 + digit_value(digits[2 * i + 1])) as u8,
            ),
        )
    } else {
        None
    }
}

/// The digits for a byte string, two to the byte, in lower case.
pub open spec fn hex_encoded(bytes: Seq<u8>) -> Seq<char> {
    Seq::new(
        bytes.len() * 2,
        |i: int|
            if i % 2 == 0 {
                hex_digit(bytes[i / 2] as nat / 16)
            } else {
                hex_digit(bytes[i / 2] as nat % 16)
            },
    )
}

/// Reading what was written gives the same bytes.
pub proof fn hex_round_trip(bytes: Seq<u8>)
    ensures
        hex_decoded(hex_encoded(bytes)) == Some(bytes),
{
    let digits = hex_encoded(bytes);
    assert forall|i: int| 0 <= i < digits.len() implies is_hex_digit(#[trigger] digits[i]) by {}
    assert forall|i: int| 0 <= i < bytes.len() implies (digit_value(digits[2 * i]) * 16
        + digit_value(digits[2 * i + 1])) as u8 == #[trigger] bytes[i] by {
        assert((2 * i) / 2 == i && (2 * i + 1) / 2 == i);
    }
    assert(hex_decoded(digits).unwrap() =~= bytes);
}

/// The value of a digit given as an ASCII code; `None` for any other code.
fn code_value(code: u8) -> (r: Option<u8>)
    ensures
        r is Some <==> is_hex_digit(code as char),
        r matches Some(value) ==> value == digit_value(code as char) && value < 16,
{
    if 48 <= code && code <= 57 {
        Some((code - 48) as u8)
    } else if 97 <= code && code <= 102 {
        Some((code - 97 + 10) as u8)
    } else if 65 <= code && code <= 70 {
        Some((code - 65 + 10) as u8)
    } else {
        None
    }
}

/// Reads a string of hexadecimal digits; `None` if their number is odd or one is no digit.
pub fn hex_decode(digits: &str) -> (r: Option<Vec<u8>>)
    ensures
        r is Some <==> hex_decoded(digits@) is Some,
        r matches Some(bytes) ==> hex_decoded(digits@) == Some(bytes@),
{
    if !digits.is_ascii() {
        proof {
            let i = choose|i: int|
                0 <= i < digits@.len() && !('\0' <= #[trigger] digits@[i] <= '\u{7f}');
            assert(!is_hex_digit(digits@[i]));
        }
        return None;
    }
    let codes = digits.as_bytes();
    assert(codes@ =~= Seq::new(digits@.len(), |i: int| digits@[i] as u8));
    let len: usize = codes.len();
    if len % 2 != 0 {
        return None;
    }
    let count = len / 2;
    let mut bytes: Vec<u8> = Vec::new();
    for k in 0..count
        invariant
            codes@ == Seq::new(digits@.len(), |i: int| digits@[i] as u8),
            is_ascii_chars(digits@),
            len == codes@.len(),
            count * 2 == len,
            bytes@.len() == k,
            forall|i: int| 0 <= i < 2 * k ==> is_hex_digit(#[trigger] digits@[i]),
            forall|i: int|
                0 <= i < k ==> #[trigger] bytes@[i] == digit_value(digits@[2 * i]) * 16
                    + digit_value(digits@[2 * i + 1]),
    {
        let high_code = codes[2 * k];
        let low_code = codes[2 * k + 1];
        assert(high_code as char == digits@[2 * k]);
        assert(low_code as char == digits@[2 * k + 1]);
        match (code_value(high_code), code_value(low_code)) {
            (Some(high), Some(low)) => {
                bytes.push(high * 16 + low);
            },
            _ => {
                return None;
            },
        }
    }
    assert(hex_decoded(digits@) is Some);
    assert(hex_decoded(digits@).unwrap() =~= bytes@);
    Some(bytes)
}

/// The digit for a value below sixteen, as a string.
fn digit_string(value: u8) -> (r: &'static str)
    requires
        value < 16,
    ensures
        r@ == seq![hex_digit(value as nat)],
{
    proof {
        reveal_strlit("0");
        reveal_strlit("1");
        reveal_strlit("2");
        reveal_strlit("3");
        reveal_strlit("4");
        reveal_strlit("5");
        reveal_strlit("6");
        reveal_strlit("7");
        reveal_strlit("8");
        reveal_strlit("9");
        reveal_strlit("a");
        reveal_strlit("b");
        reveal_strlit("c");
        reveal_strlit("d");
        reveal_strlit("e");
        reveal_strlit("f");
    }
    match value {
        0 => "0",
        1 => "1",
        2 => "2",
        3 => "3",
        4 => "4",
        5 => "5",
        6 => "6",
        7 => "7",
        8 => "8",
        9 => "9",
        10 => "a",
        11 => "b",
        12 => "c",
        13 => "d",
        14 => "e",
        _ => "f",
    }
}

/// Writes bytes as hexadecimal digits in lower case.
pub fn hex_encode(bytes: &[u8]) -> (r: String)
    ensures
        r@ == hex_encoded(bytes@),
{
    let mut digits = String::new();
    for k in 0..bytes.len()
        invariant
            digits@ == hex_encoded(bytes@.take(k as int)),
    {
        let byte = bytes[k];
        digits.append(digit_string(byte / 16));
        digits.append(digit_string(byte % 16));
        assert(digits@ =~= hex_encoded(bytes@.take(k + 1)));
    }
    assert(bytes@.take(bytes@.len() as int) == bytes@);
    digits
}

} // verus!
