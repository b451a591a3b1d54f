//! Unsigned integers written as big-endian byte strings.

use vstd::arithmetic::power::pow;
use vstd::prelude::*;

verus! {

/// The integer that `bytes` denotes, most significant byte first.
pub open spec fn be_value(bytes: Seq<u8>) -> nat
    decreases bytes.len(),
{
    if bytes.len() == 0 {
        0
    } else {
        be_value(bytes.drop_last()) * 256 + bytes.last() as nat
    }
}

/// The `len` low-order bytes of `value`, most significant byte first.
pub open spec fn be_bytes(value: nat, len: nat) -> Seq<u8>
    decreases len,
{
    if len == 0 {
        Seq::empty()
    } else {
        be_bytes(value / 256, (len - 1) as nat).push((value % 256) as u8)
    }
}

/// A byte string is the expansion of its own value.
pub proof fn be_bytes_of_be_value(bytes: Seq<u8>)
    ensures
        be_bytes(be_value(bytes), bytes.len()) == bytes,
    decreases bytes.len(),
{
    if bytes.len() > 0 {
        be_bytes_of_be_value(bytes.drop_last());
        assert(bytes == bytes.drop_last().push(bytes.last()));
    }
}

/// The expansion of a value that fits denotes that value.
pub proof fn be_value_of_be_bytes(value: nat, len: nat)
    requires
        value < pow(256, len),
    ensures
        be_value(be_bytes(value, len)) == value,
    decreases len,
{
    reveal(pow);
    if len > 0 {
        be_value_of_be_bytes(value / 256, (len - 1) as nat);
        let bytes = be_bytes(value, len);
        assert(bytes.drop_last() == be_bytes(value / 256, (len - 1) as nat));
    }
}

/// The expansion of a value has as many bytes as were asked for.
pub proof fn be_bytes_len(value: nat, len: nat)
    ensures
        be_bytes(value, len).len() == len,
    decreases len,
{
    if len > 0 {
        be_bytes_len(value / 256, (len - 1) as nat);
    }
}

/// A run of zero bytes denotes zero.
pub proof fn be_value_of_zeros(bytes: Seq<u8>)
    requires
        forall|i: int| 0 <= i < bytes.len() ==> bytes[i] == 0,
    ensures
        be_value(bytes) == 0,
    decreases bytes.len(),
{
    if bytes.len() > 0 {
        be_value_of_zeros(bytes.drop_last());
    }
}

} // verus!
