//! Zigzag encoding for signed integers.
//!
//! Zigzag maps signed integers to unsigned ones so that small-magnitude negative
//! values produce small-magnitude varints. Pair these helpers with the
//! [`varint`][`crate::varint`] functions to encode signed values compactly.
//!
//! The mapping mirrors the one used by Protocol Buffers:
//!
//! | signed | unsigned |
//! | ------ | -------- |
//! |  0     | 0        |
//! | -1     | 1        |
//! |  1     | 2        |
//! | -2     | 3        |
//! |  2     | 4        |

use vstd::prelude::*;

verus! {

/// The zigzag code of `v`: non-negative values go to even numbers, negative
/// values to odd ones, in order of magnitude.
pub open spec fn zigzag(v: int) -> int {
    if v >= 0 {
        2 * v
    } else {
        -2 * v - 1
    }
}

/// The magnitude of `v`.
pub open spec fn abs(v: int) -> int {
    if v < 0 {
        -v
    } else {
        v
    }
}

/// The signed value whose zigzag code is `u`.
pub open spec fn unzigzag(u: int) -> int {
    if u % 2 == 0 {
        u / 2
    } else {
        -(u / 2) - 1
    }
}

/// Map a signed `i32` to its zigzag-encoded `u32`.
pub fn encode_i32(value: i32) -> (r: u32)
    ensures
        r == zigzag(value as int),
{
    let r = ((value << 1) ^ (value >> 31)) as u32;
    assert(r == zigzag(value as int)) by (bit_vector)
        requires
            r == ((value << 1) ^ (value >> 31)) as u32,
    ;
    r
}

/// Recover the signed `i32` from a zigzag-encoded `u32`.
pub fn decode_i32(value: u32) -> (r: i32)
    ensures
        r == unzigzag(value as int),
{
    let low = (value & 1) as i32;
    assert(low == 0 || low == 1) by (bit_vector)
        requires
            low == (value & 1) as i32,
    ;
    let sign = -low;
    let r = ((value >> 1) as i32) ^ sign;
    assert(r == unzigzag(value as int)) by (bit_vector)
        requires
            low == (value & 1) as i32,
            sign == if low == 0 {
                0i32
            } else {
                -1i32
            },
            r == ((value >> 1) as i32) ^ sign,
    ;
    r
}

/// Map a signed `i64` to its zigzag-encoded `u64`.
pub fn encode_i64(value: i64) -> (r: u64)
    ensures
        r == zigzag(value as int),
{
    let r = ((value << 1) ^ (value >> 63)) as u64;
    assert(r == zigzag(value as int)) by (bit_vector)
        requires
            r == ((value << 1) ^ (value >> 63)) as u64,
    ;
    r
}

/// Recover the signed `i64` from a zigzag-encoded `u64`.
pub fn decode_i64(value: u64) -> (r: i64)
    ensures
        r == unzigzag(value as int),
{
    let low = (value & 1) as i64;
    assert(low == 0 || low == 1) by (bit_vector)
        requires
            low == (value & 1) as i64,
    ;
    let sign = -low;
    let r = ((value >> 1) as i64) ^ sign;
    assert(r == unzigzag(value as int)) by (bit_vector)
        requires
            low == (value & 1) as i64,
            sign == if low == 0 {
                0i64
            } else {
                -1i64
            },
            r == ((value >> 1) as i64) ^ sign,
    ;
    r
}

/// Decoding undoes encoding, for every signed value.
pub proof fn law_decode_encode(v: int)
    ensures
        unzigzag(zigzag(v)) == v,
{
}

/// Encoding undoes decoding, for every code: the mapping is a bijection
/// between the signed integers and the natural numbers.
pub proof fn law_encode_decode(u: nat)
    ensures
        zigzag(unzigzag(u as int)) == u,
{
}

/// Zigzag keeps magnitudes in order: a value of smaller magnitude gets a
/// smaller code, and no code exceeds twice the magnitude.
pub proof fn law_magnitude_order(v1: int, v2: int)
    ensures
        abs(v1) < abs(v2) ==> zigzag(v1) < zigzag(v2),
        zigzag(v1) <= 2 * abs(v1),
        zigzag(v1) >= 2 * abs(v1) - 1,
{
}


/// The sign goes to the low bit: non-negative values get even codes and
/// negative values odd ones, so with [`law_magnitude_order`] the code of `v`
/// is `2v` for `v >= 0` and `2|v| - 1` for `v < 0`.
pub proof fn law_sign_in_low_bit(v: int)
    ensures
        zigzag(v) >= 0,
        zigzag(v) % 2 == 0 <==> v >= 0,
{
}

} // verus!
