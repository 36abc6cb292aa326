//! Bit-level read and write cursors.
//!
//! [`BitReader`] consumes bits from a borrowed byte slice in most-significant-bit
//! first order, suitable for packed binary protocols where multiple fields share
//! a single byte. [`BitWriter`] performs the reverse operation against a caller-
//! supplied output buffer.
//!
//! Both cursors support arbitrary widths from 1 to 64 bits per call. The bits of
//! a byte slice are numbered as a stream: byte by byte, each byte from its most
//! significant bit down ([`stream_bit`]).

use crate::error::{Error, Result};
use vstd::arithmetic::div_mod::lemma_mod_breakdown;
use vstd::arithmetic::power2::{lemma2_to64, lemma_pow2_adds, lemma_pow2_pos, lemma_pow2_unfold, pow2};
use vstd::prelude::*;

verus! {

broadcast use vstd::slice::group_slice_axioms;

/// Maximum bit width per `read_bits` / `write_bits` call.
pub const MAX_BIT_WIDTH: u32 = 64;

// ---------------------------------------------------------------------------
// Model
// ---------------------------------------------------------------------------
/// Bit `j` of byte `b`, counting from the most significant bit (`j == 0`).
pub open spec fn byte_bit(b: u8, j: u32) -> bool {
    ((b as u32) >> ((7 - j) as u32)) & 1u32 == 1u32
}

/// Bit `i` of the stream formed by `s`: byte `i / 8`, bit `i % 8` from the top.
pub open spec fn stream_bit(s: Seq<u8>, i: int) -> bool {
    byte_bit(s[i / 8], (i % 8) as u32)
}

/// The number formed by the `n` stream bits of `s` starting at `start`, the
/// first of them most significant.
pub open spec fn bits_value(s: Seq<u8>, start: int, n: nat) -> nat
    decreases n,
{
    if n == 0 {
        0
    } else {
        2 * bits_value(s, start, (n - 1) as nat) + if stream_bit(s, start + n - 1) {
            1nat
        } else {
            0nat
        }
    }
}

/// Bit `k` of `v`, counting from the least significant bit (`k == 0`).
pub open spec fn value_bit(v: u64, k: u64) -> bool {
    (v >> k) & 1u64 == 1u64
}

/// `after` holds the low `n` bits of `value` at stream positions
/// `[start, start + n)`, most significant first, has zero bits from there up
/// to the next byte boundary, and agrees with `before` on every other bit.
pub open spec fn bits_placed(before: Seq<u8>, after: Seq<u8>, start: int, n: nat, value: u64) -> bool {
    &&& after.len() == before.len()
    &&& forall|i: int|
        0 <= i < 8 * after.len() ==> #[trigger] stream_bit(after, i) == if start <= i < start + n {
            value_bit(value, (start + n - 1 - i) as u64)
        } else if start + n <= i < round_up8((start + n) as nat) {
            false
        } else {
            stream_bit(before, i)
        }
}

/// `after` has zero bits at stream positions `[from, to)` and agrees with
/// `before` on every other bit.
pub open spec fn bits_cleared(before: Seq<u8>, after: Seq<u8>, from: int, to: int) -> bool {
    &&& after.len() == before.len()
    &&& forall|i: int|
        0 <= i < 8 * after.len() ==> #[trigger] stream_bit(after, i) == if from <= i < to {
            false
        } else {
            stream_bit(before, i)
        }
}

/// `value` has no bits set at or above position `n` (always true for 64).
pub open spec fn fits_in(value: u64, n: u32) -> bool {
    n >= 64 || value < pow2(n as nat)
}

/// `bit_pos` rounded up to the next multiple of eight.
pub open spec fn round_up8(bit_pos: nat) -> nat {
    ((bit_pos + 7) / 8 * 8) as nat
}

/// The `t` bits of byte `b` starting `off` bits from the top, as the
/// cursors extract them.
pub open spec fn byte_chunk(b: u8, off: u32, t: u32) -> u32 {
    ((b as u32) >> ((8 - off - t) as u32)) & (((1u32 << t) - 1) as u32)
}

/// Byte `b` as `write_bits` leaves it: its top `off` bits kept, the next
/// `take` bits set to bits `[bits_left - take, bits_left)` of `value`, and the
/// bits below them cleared.
pub open spec fn placed_byte(b: u8, value: u64, bits_left: u32, take: u32, off: u32) -> u8 {
    let shift = (8 - off - take) as u32;
    let chunk = ((value >> ((bits_left - take) as u64)) & (((1u64 << (take as u64)) - 1) as u64)) as u8;
    (b & !(0xFFu8 >> (off as u8))) | (chunk << (shift as u8))
}

/// Byte `b` with every bit from `off` bits below the top cleared.
pub open spec fn cleared_byte(b: u8, off: u32) -> u8 {
    b & !(0xFFu8 >> (off as u8))
}

// ---------------------------------------------------------------------------
// Lemmas
// ---------------------------------------------------------------------------
proof fn lemma_chunk_zero(b: u8, off: u32)
    by (bit_vector)
    requires
        off <= 8,
    ensures
        byte_chunk(b, off, 0) == 0,
{
}

proof fn lemma_chunk_step(b: u8, off: u32, t: u32)
    by (bit_vector)
    requires
        1 <= t,
        off + t <= 8,
    ensures
        byte_chunk(b, off, t) == 2 * byte_chunk(b, off, (t - 1) as u32) + (if byte_bit(
            b,
            (off + t - 1) as u32,
        ) {
            1u32
        } else {
            0u32
        }),
{
}

proof fn lemma_placed_bit(b: u8, value: u64, bits_left: u32, take: u32, off: u32, j: u32)
    by (bit_vector)
    requires
        1 <= take <= bits_left <= 64,
        off + take <= 8,
        j < 8,
    ensures
        byte_bit(placed_byte(b, value, bits_left, take, off), j) == if j < off {
            byte_bit(b, j)
        } else if j < off + take {
            value_bit(value, (bits_left - 1 - (j - off)) as u64)
        } else {
            false
        },
{
}

proof fn lemma_cleared_bit(b: u8, off: u32, j: u32)
    by (bit_vector)
    requires
        off < 8,
        j < 8,
    ensures
        byte_bit(cleared_byte(b, off), j) == if off <= j {
            false
        } else {
            byte_bit(b, j)
        },
{
}

proof fn lemma_value_bit_shift(v: u64, k: u64)
    by (bit_vector)
    requires
        k < 63,
    ensures
        value_bit(v, (k + 1) as u64) == value_bit(v >> 1u64, k),
        v >> 1u64 == v / 2,
        value_bit(v, 0) == (v % 2 == 1),
{
}

/// Stream positions inside one byte map to that byte's bits.
proof fn lemma_stream_bit_in_byte(s: Seq<u8>, pos: int, k: int)
    requires
        0 <= pos,
        0 <= k,
        pos % 8 + k < 8,
    ensures
        stream_bit(s, pos + k) == byte_bit(s[pos / 8], (pos % 8 + k) as u32),
{
    assert((pos + k) / 8 == pos / 8);
    assert((pos + k) % 8 == pos % 8 + k);
}

/// The chunk a cursor extracts from one byte is the value of those bits.
proof fn lemma_chunk_value(s: Seq<u8>, pos: int, t: u32)
    requires
        0 <= pos,
        pos % 8 + t <= 8,
    ensures
        byte_chunk(s[pos / 8], (pos % 8) as u32, t) == bits_value(s, pos, t as nat),
    decreases t,
{
    let b = s[pos / 8];
    let off = (pos % 8) as u32;
    if t == 0 {
        lemma_chunk_zero(b, off);
    } else {
        lemma_chunk_value(s, pos, (t - 1) as u32);
        lemma_chunk_step(b, off, t);
        lemma_stream_bit_in_byte(s, pos, (t - 1) as int);
    }
}

/// The bits of a stream split at any point: the first `m` bits shifted up
/// past the next `k`.
pub proof fn lemma_bits_value_concat(s: Seq<u8>, a: int, m: nat, k: nat)
    ensures
        bits_value(s, a, m + k) == bits_value(s, a, m) * pow2(k) + bits_value(s, a + m, k),
    decreases k,
{
    lemma2_to64();
    if k > 0 {
        lemma_bits_value_concat(s, a, m, (k - 1) as nat);
        lemma_pow2_unfold(k);
        let x = bits_value(s, a, m);
        let p = pow2((k - 1) as nat);
        let y = bits_value(s, a + m, (k - 1) as nat);
        let bit: nat = if stream_bit(s, a + m + k - 1) {
            1
        } else {
            0
        };
        assert(2 * (x * p) == x * (2 * p)) by (nonlinear_arith);
        assert((m + k - 1) as nat == m + (k - 1) as nat);
        assert(bits_value(s, a, m + k) == 2 * bits_value(s, a, (m + k - 1) as nat) + bit);
        assert(bits_value(s, a + m, k) == 2 * y + bit);
        assert(bits_value(s, a, (m + k - 1) as nat) == x * p + y);
        assert(x * pow2(k) == x * (2 * p));
    } else {
        let x = bits_value(s, a, m);
        assert(x * pow2(0) == x) by {
            assert(pow2(0) == 1);
        }
        assert(m + k == m);
    }
}

/// `n` bits make a number below `2^n`.
pub proof fn lemma_bits_value_bound(s: Seq<u8>, a: int, n: nat)
    ensures
        bits_value(s, a, n) < pow2(n),
    decreases n,
{
    lemma2_to64();
    if n > 0 {
        lemma_bits_value_bound(s, a, (n - 1) as nat);
        lemma_pow2_unfold(n);
    }
}

/// When the `n` stream bits at `start` are the low `n` bits of `v`, most
/// significant first, they read back as `v` modulo `2^n`.
pub proof fn lemma_bits_value_of(s: Seq<u8>, start: int, n: nat, v: u64)
    requires
        n <= 64,
        forall|k: u64| k < n ==> stream_bit(s, start + n - 1 - k) == #[trigger] value_bit(v, k),
    ensures
        bits_value(s, start, n) == (v as nat) % pow2(n),
    decreases n,
{
    lemma2_to64();
    if n > 0 {
        let w = v >> 1u64;
        lemma_value_bit_shift(v, 0);
        assert forall|k: u64| k < n - 1 implies stream_bit(s, start + (n - 1) - 1 - k)
            == #[trigger] value_bit(w, k) by {
            lemma_value_bit_shift(v, k);
            assert(stream_bit(s, start + n - 1 - (k + 1)) == value_bit(v, (k + 1) as u64));
        }
        lemma_bits_value_of(s, start, (n - 1) as nat, w);
        assert(stream_bit(s, start + n - 1 - 0) == value_bit(v, 0));
        lemma_pow2_unfold(n);
        lemma_pow2_pos((n - 1) as nat);
        lemma_mod_breakdown(v as int, 2, pow2((n - 1) as nat) as int);
    }
}

/// Bit values depend only on the bits they span.
pub proof fn lemma_bits_value_agree(s1: Seq<u8>, s2: Seq<u8>, a: int, m: nat)
    requires
        forall|i: int| a <= i < a + m ==> stream_bit(s1, i) == stream_bit(s2, i),
    ensures
        bits_value(s1, a, m) == bits_value(s2, a, m),
    decreases m,
{
    if m > 0 {
        lemma_bits_value_agree(s1, s2, a, (m - 1) as nat);
        assert(stream_bit(s1, a + m - 1) == stream_bit(s2, a + m - 1));
    }
}

/// A write never disturbs a field written before it: bits ending at or before
/// the write's start read back as they did before the write.
pub proof fn law_later_write_keeps_earlier_bits(
    before: Seq<u8>,
    after: Seq<u8>,
    p: int,
    n: nat,
    v: u64,
    a: int,
    m: nat,
)
    requires
        bits_placed(before, after, p, n, v),
        0 <= a,
        a + m <= p,
        a + m <= 8 * before.len(),
    ensures
        bits_value(after, a, m) == bits_value(before, a, m),
{
    assert forall|i: int| a <= i < a + m implies stream_bit(after, i) == stream_bit(before, i) by {
        assert(0 <= i < 8 * after.len());
    }
    lemma_bits_value_agree(after, before, a, m);
}

/// Reading from the first `k` bytes of a buffer gives the same bits as reading
/// from the whole buffer, for fields inside those bytes; so a reader over the
/// prefix a writer reports with `finish` sees what was written.
pub proof fn law_prefix_keeps_bits(s: Seq<u8>, k: int, a: int, m: nat)
    requires
        0 <= a,
        0 <= k <= s.len(),
        a + m <= 8 * k,
    ensures
        bits_value(s.take(k), a, m) == bits_value(s, a, m),
{
    assert forall|i: int| a <= i < a + m implies stream_bit(s.take(k), i) == stream_bit(s, i) by {
        assert(i / 8 < k);
        assert(s.take(k)[i / 8] == s[i / 8]);
    }
    lemma_bits_value_agree(s.take(k), s, a, m);
}

/// Bit `i` of the stream, as arithmetic on its byte.
proof fn lemma_stream_bit_arith(s: Seq<u8>, i: int)
    requires
        0 <= i < 8 * s.len(),
    ensures
        stream_bit(s, i) == ((s[i / 8] as nat / pow2((7 - i % 8) as nat)) % 2 == 1),
{
    let x = s[i / 8] as u32;
    let sh = (7 - ((i % 8) as u32)) as u32;
    vstd::bits::lemma_u32_shr_is_div(x, sh);
    let y = x >> sh;
    assert(y & 1u32 == y % 2) by (bit_vector);
}

/// Binary digit `n - 1 - k` of the `n` bits at `a` is stream bit `a + k`.
proof fn lemma_bits_value_digit(s: Seq<u8>, a: int, n: nat, k: int)
    requires
        0 <= k < n,
    ensures
        (bits_value(s, a, n) / pow2((n - 1 - k) as nat)) % 2 == if stream_bit(s, a + k) {
            1nat
        } else {
            0nat
        },
    decreases n,
{
    let m = (n - 1) as nat;
    let x = bits_value(s, a, m);
    let b: nat = if stream_bit(s, a + m) {
        1
    } else {
        0
    };
    assert(bits_value(s, a, n) == 2 * x + b);
    lemma2_to64();
    if k == m {
        assert((n - 1 - k) as nat == 0);
    } else {
        lemma_bits_value_digit(s, a, m, k);
        let e = (m - 1 - k) as nat;
        let p = pow2(e);
        lemma_pow2_pos(e);
        lemma_pow2_unfold((n - 1 - k) as nat);
        assert(pow2((n - 1 - k) as nat) == 2 * p);
        vstd::arithmetic::div_mod::lemma_div_denominator((2 * x + b) as int, 2, p as int);
        assert((2 * x + b) / 2 == x);
    }
}

/// Bit fields are read most significant bit first, each byte from its top
/// bit: the `n` bits at stream position `start` make a number below `2^n`
/// whose binary digit `n - 1 - k` is bit `7 - (start + k) % 8` (counting from
/// the least significant) of byte `(start + k) / 8`.
pub proof fn law_bits_are_positional(s: Seq<u8>, start: int, n: nat, k: int)
    requires
        0 <= start,
        start + n <= 8 * s.len(),
        0 <= k < n,
    ensures
        bits_value(s, start, n) < pow2(n),
        (bits_value(s, start, n) / pow2((n - 1 - k) as nat)) % 2 == (s[(start + k) / 8] as nat
            / pow2((7 - (start + k) % 8) as nat)) % 2,
{
    lemma_bits_value_bound(s, start, n);
    lemma_bits_value_digit(s, start, n, k);
    lemma_stream_bit_arith(s, start + k);
}

/// Stream position of field `j` when `fields` (each a value and its width in
/// bits) are written one after another from the start of a buffer.
pub open spec fn field_offset(fields: Seq<(u64, u32)>, j: nat) -> nat
    decreases j,
{
    if j == 0 {
        0
    } else {
        field_offset(fields, (j - 1) as nat) + fields[j - 1].1 as nat
    }
}

/// `bufs[j + 1]` is `bufs[j]` after a successful `write_bits` of field `j` at
/// its offset: each width is accepted by `write_bits`, each value fits its
/// width, and every field lies inside the buffer.
pub open spec fn fields_written(fields: Seq<(u64, u32)>, bufs: Seq<Seq<u8>>) -> bool {
    &&& bufs.len() == fields.len() + 1
    &&& field_offset(fields, fields.len()) <= 8 * bufs[0].len()
    &&& forall|j: int|
        #![trigger fields[j]]
        0 <= j < fields.len() ==> {
            &&& 1 <= fields[j].1 <= MAX_BIT_WIDTH
            &&& fits_in(fields[j].0, fields[j].1)
            &&& bits_placed(
                bufs[j],
                bufs[j + 1],
                field_offset(fields, j as nat) as int,
                fields[j].1 as nat,
                fields[j].0,
            )
        }
}

/// The bits a write placed read back as the value written.
proof fn lemma_placed_reads_back(before: Seq<u8>, after: Seq<u8>, p: int, n: u32, v: u64)
    requires
        bits_placed(before, after, p, n as nat, v),
        1 <= n <= 64,
        fits_in(v, n),
        0 <= p,
        p + n <= 8 * after.len(),
    ensures
        bits_value(after, p, n as nat) == v,
{
    assert forall|k: u64| k < n implies stream_bit(after, p + n - 1 - k) == #[trigger] value_bit(
        v,
        k,
    ) by {
        assert(stream_bit(after, p + n - 1 - k) == value_bit(v, (p + n - 1 - (p + n - 1 - k)) as u64));
    }
    lemma_bits_value_of(after, p, n as nat, v);
    lemma2_to64();
    if n < 64 {
        vstd::arithmetic::power2::lemma_pow2_strictly_increases(n as nat, 64);
    }
    lemma_pow2_pos(n as nat);
    vstd::arithmetic::div_mod::lemma_small_mod(v as nat, pow2(n as nat));
}

/// Field offsets grow with the field index.
proof fn lemma_offset_monotone(fields: Seq<(u64, u32)>, j: nat, k: nat)
    requires
        j <= k,
    ensures
        field_offset(fields, j) <= field_offset(fields, k),
    decreases k,
{
    if j < k {
        lemma_offset_monotone(fields, j, (k - 1) as nat);
    }
}

/// Every buffer in a run of writes has the length of the first.
proof fn lemma_written_len(fields: Seq<(u64, u32)>, bufs: Seq<Seq<u8>>, k: nat)
    requires
        fields_written(fields, bufs),
        k <= fields.len(),
    ensures
        bufs[k as int].len() == bufs[0].len(),
    decreases k,
{
    if k > 0 {
        lemma_written_len(fields, bufs, (k - 1) as nat);
        assert(fields[k - 1].1 >= 1);
    }
}

/// After field `j` is written, it reads back unchanged through every later
/// write.
proof fn lemma_field_kept(fields: Seq<(u64, u32)>, bufs: Seq<Seq<u8>>, j: nat, k: nat)
    requires
        fields_written(fields, bufs),
        j < k <= fields.len(),
    ensures
        bits_value(bufs[k as int], field_offset(fields, j) as int, fields[j as int].1 as nat)
            == fields[j as int].0,
    decreases k,
{
    let m = fields.len();
    lemma_offset_monotone(fields, j + 1, m);
    lemma_written_len(fields, bufs, k);
    lemma_written_len(fields, bufs, (k - 1) as nat);
    assert(field_offset(fields, j + 1) == field_offset(fields, j) + fields[j as int].1);
    if k == j + 1 {
        lemma_placed_reads_back(
            bufs[j as int],
            bufs[k as int],
            field_offset(fields, j) as int,
            fields[j as int].1,
            fields[j as int].0,
        );
    } else {
        lemma_field_kept(fields, bufs, j, (k - 1) as nat);
        let i = k - 1;
        lemma_offset_monotone(fields, j + 1, i as nat);
        law_later_write_keeps_earlier_bits(
            bufs[i],
            bufs[k as int],
            field_offset(fields, i as nat) as int,
            fields[i].1 as nat,
            fields[i].0,
            field_offset(fields, j) as int,
            fields[j as int].1 as nat,
        );
    }
}

/// Fields round trip: fields written one after another with `write_bits` from
/// the start of a buffer read back, in order and each at its offset, from the
/// prefix of the buffer that `finish` reports, which is what `into_written`
/// hands back. `bufs[j]` is the buffer before the write of field `j` and
/// `bufs[j + 1]` after it; successive `read_bits` calls of the same widths
/// over that prefix start at exactly these offsets.
pub proof fn law_fields_round_trip(fields: Seq<(u64, u32)>, bufs: Seq<Seq<u8>>)
    requires
        fields_written(fields, bufs),
    ensures
        ({
            let total = field_offset(fields, fields.len());
            let used = round_up8(total) / 8;
            &&& used <= bufs.last().len()
            &&& forall|j: int|
                0 <= j < fields.len() ==> #[trigger] bits_value(
                    bufs.last().take(used as int),
                    field_offset(fields, j as nat) as int,
                    fields[j].1 as nat,
                ) == fields[j].0
        }),
{
    let m = fields.len();
    let total = field_offset(fields, m);
    let used = round_up8(total) / 8;
    let last = bufs.last();
    lemma_written_len(fields, bufs, m);
    let len0 = bufs[0].len();
    assert(used <= len0 && total <= 8 * used) by (nonlinear_arith)
        requires
            total <= 8 * len0,
            used == ((total + 7) / 8 * 8) as nat / 8,
    ;
    assert forall|j: int| 0 <= j < m implies #[trigger] bits_value(
        last.take(used as int),
        field_offset(fields, j as nat) as int,
        fields[j].1 as nat,
    ) == fields[j].0 by {
        lemma_field_kept(fields, bufs, j as nat, m);
        lemma_offset_monotone(fields, (j + 1) as nat, m);
        assert(field_offset(fields, (j + 1) as nat) == field_offset(fields, j as nat) + fields[j].1);
        law_prefix_keeps_bits(
            last,
            used as int,
            field_offset(fields, j as nat) as int,
            fields[j].1 as nat,
        );
    }
}

// ---------------------------------------------------------------------------
// BitReader
// ---------------------------------------------------------------------------
/// Reads packed bits from a borrowed byte slice, most-significant-bit first.
#[derive(Debug)]
pub struct BitReader<'a> {
    bytes: &'a [u8],
    bit_pos: usize,
}

impl<'a> BitReader<'a> {
    #[verifier::type_invariant]
    pub(crate) open spec fn inv(&self) -> bool {
        self.bit_pos() <= 8 * self.data().len() <= usize::MAX
    }

    /// The backing slice.
    pub closed spec fn data(&self) -> Seq<u8> {
        self.bytes@
    }

    /// Number of bits consumed so far.
    pub closed spec fn bit_pos(&self) -> nat {
        self.bit_pos as nat
    }

    /// Wrap `bytes` in a new bit cursor positioned at the first bit.
    pub fn new(bytes: &'a [u8]) -> (r: Self)
        requires
            8 * bytes@.len() <= usize::MAX,
        ensures
            r.data() == bytes@,
            r.bit_pos() == 0,
    {
        BitReader { bytes, bit_pos: 0 }
    }

    /// Number of bits already consumed.
    pub fn bits_consumed(&self) -> (r: usize)
        ensures
            r == self.bit_pos(),
    {
        self.bit_pos
    }

    /// Number of bits still available to read.
    pub fn bits_remaining(&self) -> (r: usize)
        ensures
            r == 8 * self.data().len() - self.bit_pos(),
    {
        proof {
            use_type_invariant(self);
        }
        (self.bytes.len() * 8) - self.bit_pos
    }

    /// Advance the cursor to the next byte boundary.
    pub fn align_to_byte(&mut self)
        ensures
            final(self).data() == old(self).data(),
            final(self).bit_pos() == round_up8(old(self).bit_pos()),
    {
        proof {
            use_type_invariant(&*self);
        }
        let q: usize = self.bit_pos + 7;
        assert(q & !7usize == q / 8 * 8) by (bit_vector);
        self.bit_pos = q & !7;
    }

    /// Read the next `n` bits as the low-order bits of a `u64`.
    ///
    /// - [`Error::BitOverflow`] if `n` is `0` or greater than [`MAX_BIT_WIDTH`].
    /// - [`Error::UnexpectedEof`] if fewer than `n` bits remain in the input.
    ///
    /// The cursor only moves on success.
    pub fn read_bits(&mut self, n: u32) -> (r: Result<u64>)
        ensures
            final(self).data() == old(self).data(),
            n == 0 || n > MAX_BIT_WIDTH ==> {
                &&& r == Err::<u64, Error>(Error::BitOverflow)
                &&& final(self).bit_pos() == old(self).bit_pos()
            },
            1 <= n <= MAX_BIT_WIDTH && old(self).bit_pos() + n > 8 * old(self).data().len() ==> {
                &&& r == Err::<u64, Error>(Error::UnexpectedEof)
                &&& final(self).bit_pos() == old(self).bit_pos()
            },
            1 <= n <= MAX_BIT_WIDTH && old(self).bit_pos() + n <= 8 * old(self).data().len() ==> {
                &&& r is Ok
                &&& r.unwrap() as nat == bits_value(old(self).data(), old(self).bit_pos() as int, n as nat)
                &&& final(self).bit_pos() == old(self).bit_pos() + n
            },
    {
        proof {
            use_type_invariant(&*self);
        }
        if n == 0 || n > MAX_BIT_WIDTH {
            return Err(Error::BitOverflow);
        }
        if (n as usize) > self.bits_remaining() {
            return Err(Error::UnexpectedEof);
        }
        let ghost s = self.bytes@;
        let ghost start = self.bit_pos as int;
        let mut value: u64 = 0;
        let mut bits_left = n;
        while bits_left > 0
            invariant
                s == self.bytes@,
                s == old(self).data(),
                start == old(self).bit_pos(),
                1 <= n <= 64,
                bits_left <= n,
                self.bit_pos == start + (n - bits_left),
                start + n <= 8 * s.len() <= usize::MAX,
                value == bits_value(s, start, (n - bits_left) as nat),
            decreases bits_left,
        {
            let byte_idx = self.bit_pos / 8;
            let bit_off = (self.bit_pos % 8) as u32;
            let avail = 8 - bit_off;
            let take = if bits_left < avail {
                bits_left
            } else {
                avail
            };
            let shift = avail - take;
            proof {
                lemma2_to64();
                vstd::bits::lemma_u32_shl_is_mul(1, take);
            }
            let mask: u32 = (1u32 << take) - 1;
            let chunk = (u32::from(self.bytes[byte_idx]) >> shift) & mask;
            let ghost done = (n - bits_left) as nat;
            proof {
                lemma_chunk_value(s, self.bit_pos as int, take);
                lemma_bits_value_concat(s, start, done, take as nat);
                lemma_bits_value_bound(s, start, done);
                lemma_bits_value_bound(s, self.bit_pos as int, take as nat);
                lemma_pow2_adds(done, take as nat);
                lemma2_to64();
                vstd::bits::lemma_u64_shl_is_mul(1, take as u64);
                vstd::arithmetic::power2::lemma_pow2_strictly_increases(take as nat, 64);
                if done + take < 64 {
                    vstd::arithmetic::power2::lemma_pow2_strictly_increases((done + take) as nat, 64);
                }
                let p = pow2(take as nat);
                assert(value * p + chunk < pow2(done) * p) by (nonlinear_arith)
                    requires
                        value < pow2(done),
                        chunk < p,
                ;
            }
            value = value * (1u64 << take) + chunk as u64;
            self.bit_pos += take as usize;
            bits_left -= take;
            assert((n - bits_left) as nat == done + take as nat);
        }
        Ok(value)
    }
}

impl<'a> Clone for BitReader<'a> {
    fn clone(&self) -> (r: Self)
        ensures
            r == *self,
    {
        proof {
            use_type_invariant(self);
        }
        BitReader { bytes: self.bytes, bit_pos: self.bit_pos }
    }
}

// ---------------------------------------------------------------------------
// BitWriter
// ---------------------------------------------------------------------------
/// Writes packed bits to a caller-supplied byte slice, most-significant-bit first.
///
/// The cursor zero-fills bytes lazily as it advances: every write clears the
/// rest of the byte it ends in, and [`BitWriter::align_to_byte`] clears the
/// bits it skips, so callers can pass a reused buffer and read out only the
/// prefix returned by [`BitWriter::finish`].
#[derive(Debug)]
pub struct BitWriter<'a> {
    bytes: &'a mut [u8],
    bit_pos: usize,
}

impl<'a> BitWriter<'a> {
    #[verifier::type_invariant]
    pub(crate) open spec fn inv(&self) -> bool {
        self.bit_pos() <= 8 * self.contents().len() <= usize::MAX
    }

    /// The current contents of the backing slice.
    pub closed spec fn contents(&self) -> Seq<u8> {
        self.bytes@
    }

    /// Number of bits written so far.
    pub closed spec fn bit_pos(&self) -> nat {
        self.bit_pos as nat
    }

    /// Wrap `bytes` in a new bit cursor. Existing contents of `bytes` are
    /// overwritten as bits are written.
    pub fn new(bytes: &'a mut [u8]) -> (r: Self)
        requires
            8 * old(bytes)@.len() <= usize::MAX,
        ensures
            r.contents() == old(bytes)@,
            r.bit_pos() == 0,
    {
        BitWriter { bytes, bit_pos: 0 }
    }

    /// Number of bits written so far.
    pub fn bits_written(&self) -> (r: usize)
        ensures
            r == self.bit_pos(),
    {
        self.bit_pos
    }

    /// Pad the cursor with zero bits up to the next byte boundary.
    ///
    /// The boundary always lies within the backing slice, so this never
    /// reports [`Error::BufferFull`].
    pub fn align_to_byte(&mut self) -> (r: Result<()>)
        ensures
            r is Ok,
            final(self).bit_pos() == round_up8(old(self).bit_pos()),
            bits_cleared(
                old(self).contents(),
                final(self).contents(),
                old(self).bit_pos() as int,
                round_up8(old(self).bit_pos()) as int,
            ),
    {
        proof {
            use_type_invariant(&*self);
        }
        let q: usize = self.bit_pos + 7;
        assert(q & !7usize == q / 8 * 8) by (bit_vector);
        let aligned = q & !7;
        if aligned > self.bytes.len() * 8 {
            return Err(Error::BufferFull);
        }
        let ghost before = self.bytes@;
        let ghost p = self.bit_pos as int;
        let off = (self.bit_pos % 8) as u32;
        if off != 0 {
            let idx = self.bit_pos / 8;
            self.bytes[idx] = self.bytes[idx] & !(0xFFu8 >> (off as u8));
            proof {
                assert forall|i: int| 0 <= i < 8 * self.bytes@.len() implies #[trigger] stream_bit(
                    self.bytes@,
                    i,
                ) == if p <= i < round_up8(p as nat) {
                    false
                } else {
                    stream_bit(before, i)
                } by {
                    if i / 8 == idx {
                        lemma_cleared_bit(before[idx as int], off, (i % 8) as u32);
                    }
                }
            }
        }
        self.bit_pos = aligned;
        Ok(())
    }

    /// Write the low `n` bits of `value` into the buffer, most significant
    /// first; the rest of the byte the write ends in is cleared.
    ///
    /// - [`Error::BitOverflow`] if `n` is `0`, greater than [`MAX_BIT_WIDTH`],
    ///   or `value` has bits set above position `n`.
    /// - [`Error::BufferFull`] if fewer than `n` bits remain in the buffer.
    ///
    /// Nothing is written when an error is reported.
    pub fn write_bits(&mut self, value: u64, n: u32) -> (r: Result<()>)
        ensures
            n == 0 || n > MAX_BIT_WIDTH ==> {
                &&& r == Err::<(), Error>(Error::BitOverflow)
                &&& *final(self) == *old(self)
            },
            1 <= n <= MAX_BIT_WIDTH && !fits_in(value, n) ==> {
                &&& r == Err::<(), Error>(Error::BitOverflow)
                &&& *final(self) == *old(self)
            },
            1 <= n <= MAX_BIT_WIDTH && fits_in(value, n)
                && old(self).bit_pos() + n > 8 * old(self).contents().len() ==> {
                &&& r == Err::<(), Error>(Error::BufferFull)
                &&& *final(self) == *old(self)
            },
            1 <= n <= MAX_BIT_WIDTH && fits_in(value, n)
                && old(self).bit_pos() + n <= 8 * old(self).contents().len() ==> {
                &&& r is Ok
                &&& final(self).bit_pos() == old(self).bit_pos() + n
                &&& bits_placed(
                    old(self).contents(),
                    final(self).contents(),
                    old(self).bit_pos() as int,
                    n as nat,
                    value,
                )
                &&& bits_value(final(self).contents(), old(self).bit_pos() as int, n as nat)
                    == value
            },
    {
        proof {
            use_type_invariant(&*self);
            lemma2_to64();
        }
        if n == 0 || n > MAX_BIT_WIDTH {
            return Err(Error::BitOverflow);
        }
        if n < 64 {
            proof {
                vstd::bits::lemma_u64_shr_is_div(value, n as u64);
                lemma_pow2_pos(n as nat);
                let d = pow2(n as nat) as int;
                if value < d {
                    vstd::arithmetic::div_mod::lemma_basic_div(value as int, d);
                } else {
                    vstd::arithmetic::div_mod::lemma_fundamental_div_mod(value as int, d);
                    vstd::arithmetic::div_mod::lemma_mod_pos_bound(value as int, d);
                    if value as int / d == 0 {
                        assert(d * (value as int / d) == 0);
                    }
                }
            }
            if (value >> (n as u64)) != 0 {
                return Err(Error::BitOverflow);
            }
        }
        if (n as usize) > self.bytes.len() * 8 - self.bit_pos {
            return Err(Error::BufferFull);
        }
        let ghost before = self.bytes@;
        let ghost start = self.bit_pos as int;
        let mut bits_left = n;
        while bits_left > 0
            invariant
                before == old(self).contents(),
                start == old(self).bit_pos(),
                1 <= n <= 64,
                bits_left <= n,
                self.bit_pos == start + (n - bits_left),
                start + n <= 8 * before.len() <= usize::MAX,
                self.bytes@.len() == before.len(),
                forall|i: int|
                    0 <= i < 8 * before.len() ==> #[trigger] stream_bit(self.bytes@, i) == if start
                        <= i < self.bit_pos {
                        value_bit(value, (start + n - 1 - i) as u64)
                    } else if start < self.bit_pos && self.bit_pos <= i < round_up8(
                        self.bit_pos as nat,
                    ) {
                        false
                    } else {
                        stream_bit(before, i)
                    },
            decreases bits_left,
        {
            let byte_idx = self.bit_pos / 8;
            let bit_off = (self.bit_pos % 8) as u32;
            let avail = 8 - bit_off;
            let take = if bits_left < avail {
                bits_left
            } else {
                avail
            };
            let shift = avail - take;
            proof {
                lemma2_to64();
                vstd::bits::lemma_u64_shl_is_mul(1, take as u64);
            }
            let chunk = ((value >> ((bits_left - take) as u64)) & ((1u64 << (take as u64)) - 1)) as u8;
            let ghost cur = self.bit_pos as int;
            let ghost prev = self.bytes@;
            let ghost old_byte = prev[byte_idx as int];
            self.bit_pos += take as usize;
            self.bytes[byte_idx] = (self.bytes[byte_idx] & !(0xFFu8 >> (bit_off as u8))) | (chunk
                << (shift as u8));
            proof {
                assert(self.bytes@[byte_idx as int] == placed_byte(
                    old_byte,
                    value,
                    bits_left,
                    take,
                    bit_off,
                ));
                let nxt = self.bit_pos as int;
                assert forall|i: int| 0 <= i < 8 * before.len() implies #[trigger] stream_bit(
                    self.bytes@,
                    i,
                ) == if start <= i < nxt {
                    value_bit(value, (start + n - 1 - i) as u64)
                } else if start < nxt && nxt <= i < round_up8(nxt as nat) {
                    false
                } else {
                    stream_bit(before, i)
                } by {
                    if i / 8 == byte_idx {
                        lemma_placed_bit(old_byte, value, bits_left, take, bit_off, (i % 8) as u32);
                        assert(stream_bit(prev, i) == byte_bit(old_byte, (i % 8) as u32));
                    } else {
                        assert(self.bytes@[i / 8] == prev[i / 8]);
                        assert(stream_bit(self.bytes@, i) == stream_bit(prev, i));
                    }
                }
            }
            bits_left -= take;
        }
        proof {
            assert(bits_placed(before, self.bytes@, start, n as nat, value));
            lemma_placed_reads_back(before, self.bytes@, start, n, value);
        }
        Ok(())
    }

    /// Finalize writes and hand back the bytes written: the prefix of the
    /// backing slice whose length [`BitWriter::finish`] reports, with the
    /// rest of its last byte zeroed.
    pub fn into_written(self) -> (r: &'a mut [u8])
        ensures
            r@ == self.contents().take((round_up8(self.bit_pos()) / 8) as int),
    {
        proof {
            use_type_invariant(&self);
        }
        let BitWriter { bytes, bit_pos } = self;
        let whole = bit_pos / 8;
        let used = if bit_pos % 8 != 0 {
            whole + 1
        } else {
            whole
        };
        let (head, _tail) = bytes.split_at_mut(used);
        head
    }

    /// Finalize writes and return the number of whole bytes consumed.
    ///
    /// A partially-filled trailing byte counts as one full byte; its remaining
    /// low-order bits were zeroed by the write that ended in it.
    pub fn finish(self) -> (r: usize)
        ensures
            r == round_up8(self.bit_pos()) / 8,
            8 * r < self.bit_pos() + 8,
            self.bit_pos() <= 8 * r,
    {
        let whole = self.bit_pos / 8;
        if self.bit_pos % 8 != 0 {
            whole + 1
        } else {
            whole
        }
    }
}

} // verus!
