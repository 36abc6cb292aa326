//! Unsigned LEB128 varint encoding.
//!
//! A varint encodes an unsigned integer in one to ten bytes. The low seven
//! bits of each byte carry payload, and the top bit signals continuation:
//! `1` means more bytes follow, `0` means the value is complete.
//!
//! The encoding is identical to the format used by Protocol Buffers,
//! WebAssembly, and DWARF. [`leb128`] is the encoding of a number and
//! [`decode_outcome`] what a decoder makes of a byte sequence.

use crate::buf::{lemma_wrote_chain, lemma_wrote_nothing, ReadBuf, WriteBuf};
use crate::error::{Error, Result};
use vstd::arithmetic::power2::{
    lemma2_to64,
    lemma2_to64_rest,
    lemma_pow2_adds,
    lemma_pow2_pos,
    lemma_pow2_strictly_increases,
    pow2,
};
use vstd::prelude::*;

verus! {

/// Maximum encoded length of a `u16` varint.
pub const MAX_LEN_U16: usize = 3;

/// Maximum encoded length of a `u32` varint.
pub const MAX_LEN_U32: usize = 5;

/// Maximum encoded length of a `u64` varint.
pub const MAX_LEN_U64: usize = 10;

// ---------------------------------------------------------------------------
// Model
// ---------------------------------------------------------------------------
/// The LEB128 encoding of `v`: seven payload bits per byte, least significant
/// group first, top bit set on every byte but the last.
pub open spec fn leb128(v: nat) -> Seq<u8>
    decreases v,
{
    if v < 128 {
        seq![v as u8]
    } else {
        seq![(v % 128 + 128) as u8] + leb128(v / 128)
    }
}

/// The number carried by the payload bits of `s`, least significant group
/// first (continuation bits ignored).
pub open spec fn leb128_value(s: Seq<u8>) -> nat
    decreases s.len(),
{
    if s.len() == 0 {
        0
    } else {
        (s[0] % 128) as nat + 128 * leb128_value(s.drop_first())
    }
}

/// Index of the first byte at or after `i`, and before `limit`, whose
/// continuation bit is clear.
pub open spec fn terminator_from(r: Seq<u8>, i: nat, limit: nat) -> Option<nat>
    decreases limit - i,
{
    if i >= limit || i >= r.len() {
        None
    } else if r[i as int] < 128 {
        Some(i)
    } else {
        terminator_from(r, i + 1, limit)
    }
}

/// What decoding a varint of at most `max_len` bytes and at most `max_value`
/// from the front of `r` gives, and how many bytes it consumes:
/// - a terminator within the first `max_len` bytes ends the varint; its value
///   is returned if it is at most `max_value`, else [`Error::VarintOverflow`];
/// - otherwise the input ran out ([`Error::UnexpectedEof`]) or the varint is
///   too long ([`Error::VarintOverflow`]).
pub open spec fn decode_outcome(r: Seq<u8>, max_len: nat, max_value: nat) -> (Result<nat>, nat) {
    match terminator_from(r, 0, max_len) {
        Some(t) => {
            let v = leb128_value(r.take(t + 1 as int));
            if v <= max_value {
                (Ok(v), t + 1)
            } else {
                (Err(Error::VarintOverflow), t + 1)
            }
        },
        None => {
            if r.len() < max_len {
                (Err(Error::UnexpectedEof), r.len())
            } else {
                (Err(Error::VarintOverflow), max_len)
            }
        },
    }
}

/// `r` (an exec result) agrees with `o` (a model result).
pub open spec fn agrees<T: Integer>(r: Result<T>, o: Result<nat>) -> bool {
    match r {
        Ok(v) => o == Ok::<nat, Error>(v as nat),
        Err(e) => o == Err::<nat, Error>(e),
    }
}

/// What a decoder does to its cursor and what it returns.
pub open spec fn decoded<'a, T: Integer>(
    before: ReadBuf<'a>,
    after: ReadBuf<'a>,
    r: Result<T>,
    max_len: nat,
    max_value: nat,
) -> bool {
    let (o, used) = decode_outcome(before.unread(), max_len, max_value);
    &&& before.advanced_by(&after, used)
    &&& agrees(r, o)
}

/// What an encoder does: it writes as much of `enc` as fits; it succeeds
/// exactly when all of `enc` fits, and reports [`Error::BufferFull`] otherwise.
pub open spec fn encoded<'a>(before: WriteBuf<'a>, after: WriteBuf<'a>, r: Result<()>, enc: Seq<u8>) -> bool {
    let k = if enc.len() <= before.room() {
        enc.len() as int
    } else {
        before.room()
    };
    &&& before.wrote(&after, enc.take(k))
    &&& (r is Ok <==> enc.len() <= before.room())
    &&& (r is Err ==> r == Err::<(), Error>(Error::BufferFull))
}

// ---------------------------------------------------------------------------
// Lemmas
// ---------------------------------------------------------------------------
/// Appending a byte adds its payload bits above those already there.
pub proof fn lemma_leb128_value_push(s: Seq<u8>, b: u8)
    ensures
        leb128_value(s.push(b)) == leb128_value(s) + (b % 128) as nat * pow2(7 * s.len()),
    decreases s.len(),
{
    lemma2_to64();
    if s.len() == 0 {
        assert(s.push(b).drop_first() =~= Seq::<u8>::empty());
        assert(leb128_value(Seq::<u8>::empty()) == 0);
        assert(pow2(7 * s.len()) == 1);
        assert(leb128_value(s) == 0);
    } else {
        let t = s.drop_first();
        assert(s.push(b).drop_first() =~= t.push(b));
        lemma_leb128_value_push(t, b);
        lemma_pow2_adds(7, 7 * t.len());
        assert(7 + 7 * t.len() == 7 * s.len());
        let c = (b % 128) as nat;
        let p = pow2(7 * t.len());
        assert(128 * (c * p) == c * (128 * p)) by (nonlinear_arith);
        assert(pow2(7 * s.len()) == 128 * p);
        assert(s.push(b)[0] == s[0]);
        assert(leb128_value(s.push(b)) == (s[0] % 128) as nat + 128 * leb128_value(t.push(b)));
        assert(leb128_value(s) == (s[0] % 128) as nat + 128 * leb128_value(t));
    }
}

/// Shape of the encoding: at least one byte, continuation bit on every byte
/// but the last, and its payload is `v`.
pub proof fn lemma_leb128_shape(v: nat)
    ensures
        leb128(v).len() >= 1,
        forall|j: int| 0 <= j < leb128(v).len() - 1 ==> leb128(v)[j] >= 128,
        leb128(v).last() < 128,
        leb128_value(leb128(v)) == v,
    decreases v,
{
    if v >= 128 {
        lemma_leb128_shape(v / 128);
        let e = leb128(v);
        assert(e.drop_first() =~= leb128(v / 128));
        assert forall|j: int| 0 <= j < e.len() - 1 implies e[j] >= 128 by {
            if j > 0 {
                assert(e[j] == leb128(v / 128)[j - 1]);
            }
        }
    } else {
        assert(leb128_value(leb128(v).drop_first()) == 0);
    }
}

/// `leb128(v)` fits in `k >= 1` bytes exactly when `v < 2^(7k)`.
pub proof fn lemma_leb128_len(v: nat, k: nat)
    requires
        k >= 1,
    ensures
        leb128(v).len() <= k <==> v < pow2(7 * k),
    decreases k,
{
    lemma2_to64();
    if v >= 128 {
        lemma_leb128_shape(v / 128);
        assert(leb128(v).len() == 1 + leb128(v / 128).len());
        if k > 1 {
            lemma_leb128_len(v / 128, (k - 1) as nat);
            lemma_pow2_adds(7, 7 * (k - 1) as nat);
            assert(7 + 7 * (k - 1) as nat == 7 * k);
        } else {
            lemma_leb128_shape(v / 128);
        }
    } else {
        lemma_pow2_pos(7 * (k - 1) as nat);
        lemma_pow2_adds(7, 7 * (k - 1) as nat);
        assert(7 + 7 * (k - 1) as nat == 7 * k);
    }
}

/// Scanning for the terminator skips over bytes whose continuation bit is set
/// and stops at the first one whose bit is clear.
pub proof fn lemma_terminator_at(r: Seq<u8>, i: nat, t: nat, limit: nat)
    requires
        i <= t < limit,
        t < r.len(),
        r[t as int] < 128,
        forall|j: int| i <= j < t ==> r[j] >= 128,
    ensures
        terminator_from(r, i, limit) == Some(t),
    decreases t - i,
{
    if i < t {
        lemma_terminator_at(r, i + 1, t, limit);
    }
}

/// Scanning from `i` finds nothing when every byte in `[i, min(limit, len))`
/// carries a continuation bit.
pub proof fn lemma_terminator_none(r: Seq<u8>, i: nat, limit: nat)
    requires
        forall|j: int| i <= j < limit && j < r.len() ==> r[j] >= 128,
    ensures
        terminator_from(r, i, limit) == None::<nat>,
    decreases limit - i,
{
    if i < limit && i < r.len() {
        lemma_terminator_none(r, i + 1, limit);
    }
}

/// Decoding the encoding of `v`, with any bytes after it, gives back `v` and
/// consumes exactly the encoding, provided it fits the decoder's limits.
pub proof fn lemma_decode_encoded(v: nat, rest: Seq<u8>, max_len: nat, max_value: nat)
    requires
        leb128(v).len() <= max_len,
        v <= max_value,
    ensures
        decode_outcome(leb128(v) + rest, max_len, max_value) == (Ok::<nat, Error>(v), leb128(v).len()),
{
    let e = leb128(v);
    let r = e + rest;
    lemma_leb128_shape(v);
    lemma_terminator_at(r, 0, (e.len() - 1) as nat, max_len);
    assert(r.take(e.len() as int) =~= e);
}

// ---------------------------------------------------------------------------
// Laws
// ---------------------------------------------------------------------------
/// Round trip: a `u32` varint decodes to the value that was encoded, and the
/// decoder consumes exactly the bytes the encoder wrote, whatever follows.
pub proof fn law_u32_round_trip(v: u32, rest: Seq<u8>)
    ensures
        decode_outcome(leb128(v as nat) + rest, MAX_LEN_U32 as nat, u32::MAX as nat) == (
            Ok::<nat, Error>(v as nat),
            leb128(v as nat).len(),
        ),
{
    lemma2_to64_rest();
    lemma_leb128_len(v as nat, 5);
    lemma_decode_encoded(v as nat, rest, 5, u32::MAX as nat);
}

/// Round trip: a `u64` varint decodes to the value that was encoded, and the
/// decoder consumes exactly the bytes the encoder wrote, whatever follows.
pub proof fn law_u64_round_trip(v: u64, rest: Seq<u8>)
    ensures
        decode_outcome(leb128(v as nat) + rest, MAX_LEN_U64 as nat, u64::MAX as nat) == (
            Ok::<nat, Error>(v as nat),
            leb128(v as nat).len(),
        ),
{
    lemma2_to64();
    lemma_pow2_strictly_increases(64, 70);
    lemma_leb128_len(v as nat, 10);
    lemma_decode_encoded(v as nat, rest, 10, u64::MAX as nat);
}

/// Truncation: every proper prefix of an encoding decodes to
/// [`Error::UnexpectedEof`] after consuming the whole prefix.
pub proof fn law_truncated_is_eof(v: nat, cut: nat, max_len: nat, max_value: nat)
    requires
        cut < leb128(v).len() <= max_len,
    ensures
        decode_outcome(leb128(v).take(cut as int), max_len, max_value) == (
            Err::<nat, Error>(Error::UnexpectedEof),
            cut,
        ),
{
    lemma_leb128_shape(v);
    let p = leb128(v).take(cut as int);
    lemma_terminator_none(p, 0, max_len);
}

/// Overlong input: when each of the first `max_len` bytes carries a
/// continuation bit the decoder reports [`Error::VarintOverflow`] after
/// consuming exactly `max_len` bytes.
pub proof fn law_overlong_overflows(r: Seq<u8>, max_len: nat, max_value: nat)
    requires
        r.len() >= max_len,
        forall|j: int| 0 <= j < max_len ==> r[j] >= 128,
    ensures
        decode_outcome(r, max_len, max_value) == (Err::<nat, Error>(Error::VarintOverflow), max_len),
{
    lemma_terminator_none(r, 0, max_len);
}

/// A byte sequence whose payload bits are the base-128 digits of `x`, least
/// significant first, with `x` below `2^(7 len)`, carries `x`.
proof fn lemma_leb128_value_digits(s: Seq<u8>, x: nat)
    requires
        x < pow2(7 * s.len()),
        forall|i: int| 0 <= i < s.len() ==> #[trigger] (s[i] % 128) as nat == (x / pow2((7 * i) as nat)) % 128,
    ensures
        leb128_value(s) == x,
    decreases s.len(),
{
    lemma2_to64();
    if s.len() == 0 {
        assert(x == 0);
    } else {
        let t = s.drop_first();
        let y = x / 128;
        lemma_pow2_adds(7, 7 * t.len());
        assert(7 + 7 * t.len() == 7 * s.len());
        assert(y < pow2(7 * t.len())) by {
            vstd::arithmetic::div_mod::lemma_div_is_ordered(x as int, (pow2(7 * s.len()) - 1) as int, 128);
            assert(pow2(7 * s.len()) == 128 * pow2(7 * t.len()));
            vstd::arithmetic::div_mod::lemma_fundamental_div_mod(x as int, 128);
        }
        assert forall|i: int| 0 <= i < t.len() implies #[trigger] (t[i] % 128) as nat == (y / pow2(
            (7 * i) as nat,
        )) % 128 by {
            let k = (7 * i) as nat;
            assert(t[i] == s[i + 1]);
            assert(((s[i + 1] % 128) as nat) == (x / pow2((7 * (i + 1)) as nat)) % 128);
            lemma_pow2_pos(k);
            lemma_pow2_adds(7, k);
            assert((7 * (i + 1)) as nat == 7 + k);
            vstd::arithmetic::div_mod::lemma_div_denominator(x as int, 128, pow2(k) as int);
        }
        lemma_leb128_value_digits(t, y);
        assert((s[0] % 128) as nat == (x / pow2(0)) % 128);
        assert(x / pow2(0) == x);
        vstd::arithmetic::div_mod::lemma_fundamental_div_mod(x as int, 128);
    }
}

/// The encoding is positional: `leb128(v)` has the fewest bytes that hold
/// `v` (`v < 2^(7n)`, and `v >= 2^(7(n - 1))` when there are two or more),
/// and byte `i` carries base-128 digit `i` of `v` in its low seven bits, with
/// the top bit set on every byte but the last.
pub proof fn law_leb128_is_positional(v: nat)
    ensures
        ({
            let e = leb128(v);
            let n = e.len();
            &&& n >= 1
            &&& v < pow2(7 * n)
            &&& n >= 2 ==> v >= pow2(7 * (n - 1) as nat)
            &&& forall|i: int|
                0 <= i < n ==> #[trigger] e[i] as nat == (v / pow2((7 * i) as nat)) % 128 + if i
                    < n - 1 {
                    128nat
                } else {
                    0nat
                }
        }),
    decreases v,
{
    let e = leb128(v);
    let n = e.len();
    lemma2_to64();
    lemma_leb128_shape(v);
    lemma_leb128_len(v, n);
    if n >= 2 {
        lemma_leb128_len(v, (n - 1) as nat);
    }
    if v >= 128 {
        let w = v / 128;
        law_leb128_is_positional(w);
        assert(e.drop_first() =~= leb128(w));
        assert forall|i: int| 0 <= i < n implies #[trigger] e[i] as nat == (v / pow2(
            (7 * i) as nat,
        )) % 128 + if i < n - 1 {
            128nat
        } else {
            0nat
        } by {
            if i == 0 {
                assert(v / pow2(0) == v);
            } else {
                let k = (7 * (i - 1)) as nat;
                assert(e[i] == leb128(w)[i - 1]);
                lemma_pow2_pos(k);
                lemma_pow2_adds(7, k);
                assert((7 * i) as nat == 7 + k);
                vstd::arithmetic::div_mod::lemma_div_denominator(v as int, 128, pow2(k) as int);
            }
        }
    } else {
        assert(v / pow2(0) == v);
        assert(v % 128 == v);
    }
}

/// Decoding is positional: when the first byte without a continuation bit
/// is byte `t`, inside the length limit, and the payload bits of bytes
/// `0..=t` are the base-128 digits of `x < 2^(7(t + 1))`, least significant
/// first, the decoder consumes those `t + 1` bytes and gives `x`, or
/// [`Error::VarintOverflow`] when `x` is over the value limit. Overlong
/// (non-minimal) encodings decode like any other.
pub proof fn law_decode_is_positional(r: Seq<u8>, t: nat, x: nat, max_len: nat, max_value: nat)
    requires
        t < max_len,
        t < r.len(),
        r[t as int] < 128,
        forall|j: int| 0 <= j < t ==> r[j] >= 128,
        x < pow2(7 * (t + 1)),
        forall|i: int| 0 <= i <= t ==> #[trigger] (r[i] % 128) as nat == (x / pow2((7 * i) as nat)) % 128,
    ensures
        decode_outcome(r, max_len, max_value) == if x <= max_value {
            (Ok::<nat, Error>(x), t + 1)
        } else {
            (Err::<nat, Error>(Error::VarintOverflow), t + 1)
        },
{
    lemma_terminator_at(r, 0, t, max_len);
    let s = r.take(t + 1 as int);
    assert forall|i: int| 0 <= i < s.len() implies #[trigger] (s[i] % 128) as nat == (x / pow2(
        (7 * i) as nat,
    )) % 128 by {
        assert(s[i] == r[i]);
    }
    lemma_leb128_value_digits(s, x);
}

// ---------------------------------------------------------------------------
// Lengths
// ---------------------------------------------------------------------------
/// Where the top set bit of a `u32` sits, in terms of ranges of values.
proof fn lemma_u32_bits(v: u32, lz: u32)
    by (bit_vector)
    requires
        lz <= 32,
        v >> ((32 - lz) as u32) == 0,
        lz < 32 ==> (v >> ((31 - lz) as u32)) & 1u32 != 0u32,
    ensures
        (32 - lz <= 7) == (v < 0x80),
        (32 - lz <= 14) == (v < 0x4000),
        (32 - lz <= 21) == (v < 0x20_0000),
        (32 - lz <= 28) == (v < 0x1000_0000),
{
}

/// Where the top set bit of a `u64` sits, in terms of ranges of values.
proof fn lemma_u64_bits(v: u64, lz: u64)
    by (bit_vector)
    requires
        lz <= 64,
        v >> ((64 - lz) as u64) == 0,
        lz < 64 ==> (v >> ((63 - lz) as u64)) & 1u64 != 0u64,
    ensures
        (64 - lz <= 7) == (v < 0x80),
        (64 - lz <= 14) == (v < 0x4000),
        (64 - lz <= 21) == (v < 0x20_0000),
        (64 - lz <= 28) == (v < 0x1000_0000),
        (64 - lz <= 35) == (v < 0x8_0000_0000),
        (64 - lz <= 42) == (v < 0x400_0000_0000),
        (64 - lz <= 49) == (v < 0x2_0000_0000_0000),
        (64 - lz <= 56) == (v < 0x100_0000_0000_0000),
        (64 - lz <= 63) == (v < 0x8000_0000_0000_0000),
{
}

/// Encoded length of `value` as a `u32` varint, in bytes (1 to 5).
pub fn encoded_len_u32(value: u32) -> (r: usize)
    ensures
        r == leb128(value as nat).len(),
        1 <= r <= MAX_LEN_U32,
{
    let lz = value.leading_zeros();
    let bits = (u32::BITS - lz) as usize;
    proof {
        vstd::std_specs::bits::axiom_u32_leading_zeros(value);
        lemma_u32_bits(value, lz);
        lemma2_to64();
        lemma2_to64_rest();
        let v = value as nat;
        lemma_leb128_len(v, 1);
        lemma_leb128_len(v, 2);
        lemma_leb128_len(v, 3);
        lemma_leb128_len(v, 4);
        lemma_leb128_len(v, 5);
    }
    if bits == 0 {
        1
    } else {
        (bits + 6) / 7
    }
}

/// Encoded length of `value` as a `u64` varint, in bytes (1 to 10).
pub fn encoded_len_u64(value: u64) -> (r: usize)
    ensures
        r == leb128(value as nat).len(),
        1 <= r <= MAX_LEN_U64,
{
    let lz = value.leading_zeros();
    let bits = (u64::BITS - lz) as usize;
    proof {
        vstd::std_specs::bits::axiom_u64_leading_zeros(value);
        lemma_u64_bits(value, lz as u64);
        lemma2_to64();
        lemma2_to64_rest();
        lemma_pow2_strictly_increases(64, 70);
        let v = value as nat;
        lemma_leb128_len(v, 1);
        lemma_leb128_len(v, 2);
        lemma_leb128_len(v, 3);
        lemma_leb128_len(v, 4);
        lemma_leb128_len(v, 5);
        lemma_leb128_len(v, 6);
        lemma_leb128_len(v, 7);
        lemma_leb128_len(v, 8);
        lemma_leb128_len(v, 9);
        lemma_leb128_len(v, 10);
    }
    if bits == 0 {
        1
    } else {
        (bits + 6) / 7
    }
}

// ---------------------------------------------------------------------------
// Encoding
// ---------------------------------------------------------------------------
/// Write the LEB128 encoding of `value`, one byte at a time.
fn encode_varint(value: u64, buf: &mut WriteBuf<'_>) -> (r: Result<()>)
    ensures
        encoded(*old(buf), *final(buf), r, leb128(value as nat)),
{
    let ghost enc = leb128(value as nat);
    let ghost mut done: Seq<u8> = Seq::empty();
    let mut v = value;
    proof {
        use_type_invariant(&*buf);
        lemma_wrote_nothing(*buf);
        assert(done + enc =~= enc);
    }
    while v >= 0x80
        invariant
            enc == leb128(value as nat),
            old(buf).pos() <= old(buf).contents().len(),
            old(buf).wrote(&*buf, done),
            done + leb128(v as nat) == enc,
            done.len() <= old(buf).room(),
            buf.contents().len() == old(buf).contents().len(),
        decreases v,
    {
        let byte = (v % 128) as u8 + 0x80;
        let ghost prev = *buf;
        proof {
            assert(leb128(v as nat) == seq![byte] + leb128((v / 128) as nat));
        }
        let res = buf.write_u8(byte);
        if res.is_err() {
            proof {
                lemma_leb128_shape((v / 128) as nat);
                assert(enc.take(done.len() as int) =~= done);
            }
            return res;
        }
        proof {
            lemma_wrote_chain(*old(buf), prev, *buf, done, seq![byte]);
            assert(buf.contents().len() == old(buf).contents().len());
            assert(done + seq![byte] + leb128((v / 128) as nat) =~= done + leb128(v as nat));
            done = done + seq![byte];
        }
        v = v / 128;
    }
    let ghost prev = *buf;
    let last = v as u8;
    proof {
        assert(leb128(v as nat) == seq![last]);
    }
    match buf.write_u8(last) {
        Ok(()) => {},
        Err(e) => {
            proof {
                assert(enc.take(done.len() as int) =~= done);
            }
            return Err(e);
        },
    }
    proof {
        lemma_wrote_chain(*old(buf), prev, *buf, done, seq![last]);
        assert(enc.take(enc.len() as int) =~= enc);
    }
    Ok(())
}

/// Encode `value` as a `u32` varint into `buf`.
///
/// Returns [`Error::BufferFull`] if `buf` has fewer than [`encoded_len_u32`]
/// bytes available; the bytes that did fit have then been written.
pub fn encode_u32(value: u32, buf: &mut WriteBuf<'_>) -> (r: Result<()>)
    ensures
        encoded(*old(buf), *final(buf), r, leb128(value as nat)),
{
    encode_varint(value as u64, buf)
}

/// Encode `value` as a `u64` varint into `buf`.
///
/// Returns [`Error::BufferFull`] if `buf` has fewer than [`encoded_len_u64`]
/// bytes available; the bytes that did fit have then been written.
pub fn encode_u64(value: u64, buf: &mut WriteBuf<'_>) -> (r: Result<()>)
    ensures
        encoded(*old(buf), *final(buf), r, leb128(value as nat)),
{
    encode_varint(value, buf)
}

// ---------------------------------------------------------------------------
// Decoding
// ---------------------------------------------------------------------------
/// Decode a `u32` varint from `buf`.
///
/// - [`Error::UnexpectedEof`] if `buf` is exhausted before the terminator byte.
/// - [`Error::VarintOverflow`] if the decoded value exceeds `u32::MAX` or if
///   more than [`MAX_LEN_U32`] bytes would be consumed.
pub fn decode_u32(buf: &mut ReadBuf<'_>) -> (r: Result<u32>)
    ensures
        decoded(*old(buf), *final(buf), r, MAX_LEN_U32 as nat, u32::MAX as nat),
{
    let ghost r0 = buf.unread();
    let mut value: u64 = 0;
    let mut mult: u64 = 1;
    let mut i: usize = 0;
    proof {
        use_type_invariant(&*buf);
        lemma2_to64();
        lemma2_to64_rest();
        assert(r0.take(0) =~= Seq::<u8>::empty());
    }
    while i < MAX_LEN_U32
        invariant
            0 <= i <= 5,
            r0 == old(buf).unread(),
            old(buf).pos() <= old(buf).data().len(),
            old(buf).advanced_by(&*buf, i as nat),
            i <= r0.len(),
            forall|j: int| 0 <= j < i ==> r0[j] >= 128,
            terminator_from(r0, 0, 5) == terminator_from(r0, i as nat, 5),
            value == leb128_value(r0.take(i as int)),
            mult == pow2(7 * i as nat),
            value < mult,
        decreases 5 - i,
    {
        let byte = buf.read_u8()?;
        let chunk = (byte % 128) as u64;
        proof {
            lemma2_to64();
            lemma2_to64_rest();
            assert(byte == r0[i as int]);
            assert(r0.take(i + 1) =~= r0.take(i as int).push(byte));
            lemma_leb128_value_push(r0.take(i as int), byte);
            assert(mult <= pow2(28)) by {
                if i < 4 {
                    lemma_pow2_strictly_increases(7 * i as nat, 28);
                }
            }
            assert(chunk * mult <= 127 * mult) by (nonlinear_arith)
                requires
                    chunk <= 127,
            ;
            lemma_pow2_adds(7 * i as nat, 7);
            assert(7 * i as nat + 7 == 7 * (i + 1) as nat);
        }
        value = value + chunk * mult;
        if byte < 0x80 {
            proof {
                lemma_terminator_at(r0, i as nat, i as nat, 5);
            }
            if value > u32::MAX as u64 {
                return Err(Error::VarintOverflow);
            }
            return Ok(value as u32);
        }
        mult = mult * 128;
        i += 1;
    }
    Err(Error::VarintOverflow)
}

/// Decode a `u64` varint from `buf`.
///
/// - [`Error::UnexpectedEof`] if `buf` is exhausted before the terminator byte.
/// - [`Error::VarintOverflow`] if more than [`MAX_LEN_U64`] bytes would be
///   consumed or the final byte carries bits that would overflow `u64`.
pub fn decode_u64(buf: &mut ReadBuf<'_>) -> (r: Result<u64>)
    ensures
        decoded(*old(buf), *final(buf), r, MAX_LEN_U64 as nat, u64::MAX as nat),
{
    let ghost r0 = buf.unread();
    let mut value: u64 = 0;
    let mut mult: u64 = 1;
    let mut i: usize = 0;
    proof {
        use_type_invariant(&*buf);
        lemma2_to64();
        lemma2_to64_rest();
        assert(r0.take(0) =~= Seq::<u8>::empty());
    }
    while i < MAX_LEN_U64
        invariant
            0 <= i <= 10,
            r0 == old(buf).unread(),
            old(buf).pos() <= old(buf).data().len(),
            old(buf).advanced_by(&*buf, i as nat),
            i <= r0.len(),
            forall|j: int| 0 <= j < i ==> r0[j] >= 128,
            terminator_from(r0, 0, 10) == terminator_from(r0, i as nat, 10),
            value == leb128_value(r0.take(i as int)),
            mult == pow2(7 * i as nat),
            value < mult,
        decreases 10 - i,
    {
        let byte = buf.read_u8()?;
        proof {
            lemma2_to64();
            lemma2_to64_rest();
            assert(byte == r0[i as int]);
            assert(r0.take(i + 1) =~= r0.take(i as int).push(byte));
            lemma_leb128_value_push(r0.take(i as int), byte);
            assert(mult <= pow2(63)) by {
                if i < 9 {
                    lemma_pow2_strictly_increases(7 * i as nat, 63);
                }
            }
            lemma_pow2_adds(7 * i as nat, 7);
            assert(7 * i as nat + 7 == 7 * (i + 1) as nat);
        }
        if i == MAX_LEN_U64 - 1 {
            // Final byte of a 10-byte u64 varint can only carry 1 payload bit.
            if byte > 1 {
                proof {
                    if byte < 128 {
                        lemma_terminator_at(r0, 9, 9, 10);
                        assert((byte % 128) as nat * mult >= 2 * mult) by (nonlinear_arith)
                            requires
                                byte % 128 >= 2,
                        ;
                        assert(mult == pow2(63));
                        assert(leb128_value(r0.take(10)) > u64::MAX);
                    } else {
                        assert(terminator_from(r0, 10, 10) == None::<nat>);
                        assert(terminator_from(r0, 9, 10) == None::<nat>);
                        assert(r0.len() >= 10);
                    }
                }
                return Err(Error::VarintOverflow);
            }
            proof {
                lemma_terminator_at(r0, 9, 9, 10);
            }
            value = value + (byte as u64) * mult;
            return Ok(value);
        }
        let chunk = (byte % 128) as u64;
        proof {
            assert(chunk * mult <= 127 * mult) by (nonlinear_arith)
                requires
                    chunk <= 127,
            ;
            assert(mult <= pow2(56)) by {
                if i < 8 {
                    lemma_pow2_strictly_increases(7 * i as nat, 56);
                }
            }
        }
        value = value + chunk * mult;
        if byte < 0x80 {
            proof {
                lemma_terminator_at(r0, i as nat, i as nat, 10);
            }
            return Ok(value);
        }
        mult = mult * 128;
        i += 1;
    }
    Err(Error::VarintOverflow)
}

} // verus!
