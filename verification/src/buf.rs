//! Zero-copy cursor primitives over borrowed byte slices.
//!
//! [`ReadBuf`] wraps an immutable `&[u8]` and tracks a read position. It hands
//! back sub-slices that borrow from the original buffer, so decoders never copy.
//! [`WriteBuf`] wraps a mutable `&mut [u8]` and tracks a write position into a
//! caller-owned region.
//!
//! The byte-order model used by the fixed-width readers and writers lives here
//! too: [`be_value`] / [`le_value`] read a byte sequence as a number, and
//! [`be_bytes`] / [`le_bytes`] give the `n`-byte representation of a number.

use crate::error::{Error, Result};
use vstd::arithmetic::div_mod::lemma_mod_breakdown;
use vstd::arithmetic::power2::{
    lemma2_to64,
    lemma2_to64_rest,
    lemma_pow2_adds,
    lemma_pow2_pos,
    lemma_pow2_strictly_increases,
    pow2,
};
use vstd::prelude::*;

verus! {

broadcast use vstd::slice::group_slice_axioms;

// ---------------------------------------------------------------------------
// Byte-sequence model
// ---------------------------------------------------------------------------
/// `s` with `w` written over it starting at offset `at`; the length of `s` is
/// kept when `at + w.len() <= s.len()`.
pub open spec fn splice(s: Seq<u8>, at: int, w: Seq<u8>) -> Seq<u8> {
    s.take(at) + w + s.skip(at + w.len())
}

/// The number whose big-endian representation is `s`.
pub open spec fn be_value(s: Seq<u8>) -> nat
    decreases s.len(),
{
    if s.len() == 0 {
        0
    } else {
        be_value(s.drop_last()) * 256 + s.last() as nat
    }
}

/// The number whose little-endian representation is `s`.
pub open spec fn le_value(s: Seq<u8>) -> nat
    decreases s.len(),
{
    if s.len() == 0 {
        0
    } else {
        s[0] as nat + 256 * le_value(s.drop_first())
    }
}

/// The low `n` bytes of `v`, most significant first.
pub open spec fn be_bytes(v: nat, n: nat) -> Seq<u8>
    decreases n,
{
    if n == 0 {
        Seq::empty()
    } else {
        be_bytes(v / 256, (n - 1) as nat).push((v % 256) as u8)
    }
}

/// The low `n` bytes of `v`, least significant first.
pub open spec fn le_bytes(v: nat, n: nat) -> Seq<u8>
    decreases n,
{
    if n == 0 {
        Seq::empty()
    } else {
        seq![(v % 256) as u8] + le_bytes(v / 256, (n - 1) as nat)
    }
}

/// `be_bytes` and `le_bytes` have the requested length.
pub proof fn lemma_bytes_len(v: nat, n: nat)
    ensures
        be_bytes(v, n).len() == n,
        le_bytes(v, n).len() == n,
    decreases n,
{
    if n > 0 {
        lemma_bytes_len(v / 256, (n - 1) as nat);
    }
}

/// A byte sequence read as a number is below `2^(8 * len)`.
pub proof fn lemma_value_bound(s: Seq<u8>)
    ensures
        be_value(s) < pow2(8 * s.len()),
        le_value(s) < pow2(8 * s.len()),
    decreases s.len(),
{
    if s.len() == 0 {
        lemma2_to64();
    } else {
        lemma_value_bound(s.drop_last());
        lemma_value_bound(s.drop_first());
        lemma_pow2_adds(8 * (s.len() - 1) as nat, 8);
        lemma2_to64();
        assert(8 * (s.len() - 1) as nat + 8 == 8 * s.len());
    }
}

/// Reading the `n`-byte big-endian representation of `v` gives back `v`
/// modulo `2^(8n)`; likewise for little-endian.
pub proof fn lemma_bytes_value(v: nat, n: nat)
    ensures
        be_value(be_bytes(v, n)) == v % pow2(8 * n),
        le_value(le_bytes(v, n)) == v % pow2(8 * n),
    decreases n,
{
    lemma2_to64();
    if n == 0 {
    } else {
        let m = (n - 1) as nat;
        lemma_bytes_value(v / 256, m);
        let s = be_bytes(v / 256, m);
        assert(be_bytes(v, n).drop_last() =~= s);
        let t = le_bytes(v / 256, m);
        assert(le_bytes(v, n).drop_first() =~= t);
        lemma_pow2_pos(8 * m);
        lemma_pow2_adds(8, 8 * m);
        assert(8 + 8 * m == 8 * n);
        lemma_mod_breakdown(v as int, 256, pow2(8 * m) as int);
    }
}

/// Writing the bytes of a value read from `s` reproduces `s`.
pub proof fn lemma_value_bytes(s: Seq<u8>)
    ensures
        be_bytes(be_value(s), s.len()) == s,
        le_bytes(le_value(s), s.len()) == s,
    decreases s.len(),
{
    if s.len() > 0 {
        lemma_value_bytes(s.drop_last());
        lemma_value_bytes(s.drop_first());
        assert(be_bytes(be_value(s), s.len()) =~= s);
        assert(le_bytes(le_value(s), s.len()) =~= s);
    }
}

/// Fixed-width round trip: a value that fits in `n` bytes reads back from
/// its `n`-byte representation, in either byte order, and a byte sequence
/// reads back as itself when its value is written out again.
pub proof fn law_fixed_width_round_trip(v: nat, n: nat, s: Seq<u8>)
    requires
        v < pow2(8 * n),
    ensures
        be_value(be_bytes(v, n)) == v,
        le_value(le_bytes(v, n)) == v,
        be_bytes(be_value(s), s.len()) == s,
        le_bytes(le_value(s), s.len()) == s,
{
    lemma_bytes_value(v, n);
    lemma_value_bytes(s);
    lemma_pow2_pos(8 * n);
    vstd::arithmetic::div_mod::lemma_small_mod(v, pow2(8 * n));
}

/// Byte `i` of the `n`-byte representation of `v` is a base-256 digit of
/// `v`: digit `n - 1 - i` for big-endian, digit `i` for little-endian.
pub proof fn lemma_bytes_digits(v: nat, n: nat)
    ensures
        forall|i: int|
            0 <= i < n ==> #[trigger] be_bytes(v, n)[i] as nat == (v / pow2(
                (8 * (n - 1 - i)) as nat,
            )) % 256,
        forall|i: int|
            0 <= i < n ==> #[trigger] le_bytes(v, n)[i] as nat == (v / pow2((8 * i) as nat)) % 256,
    decreases n,
{
    if n > 0 {
        let m = (n - 1) as nat;
        let w = v / 256;
        lemma_bytes_digits(w, m);
        lemma_bytes_len(w, m);
        lemma2_to64();
        assert forall|i: int| 0 <= i < n implies #[trigger] be_bytes(v, n)[i] as nat == (v / pow2(
            (8 * (n - 1 - i)) as nat,
        )) % 256 by {
            if i == m {
                assert((8 * (n - 1 - i)) as nat == 0);
                assert(be_bytes(v, n)[i] == (v % 256) as u8);
                assert(v / pow2(0) == v);
            } else {
                let k = (8 * (m - 1 - i)) as nat;
                assert(be_bytes(v, n)[i] == be_bytes(w, m)[i]);
                assert(be_bytes(w, m)[i] as nat == (w / pow2(k)) % 256);
                lemma_pow2_pos(k);
                lemma_pow2_adds(8, k);
                assert((8 * (n - 1 - i)) as nat == 8 + k);
                vstd::arithmetic::div_mod::lemma_div_denominator(v as int, 256, pow2(k) as int);
                assert(w / pow2(k) == v / pow2(8 + k));
            }
        }
        assert forall|i: int| 0 <= i < n implies #[trigger] le_bytes(v, n)[i] as nat == (v / pow2(
            (8 * i) as nat,
        )) % 256 by {
            if i == 0 {
                assert((8 * i) as nat == 0);
                assert(le_bytes(v, n)[i] == (v % 256) as u8);
                assert(v / pow2(0) == v);
            } else {
                let k = (8 * (i - 1)) as nat;
                assert(le_bytes(v, n)[i] == le_bytes(w, m)[i - 1]);
                assert(le_bytes(w, m)[i - 1] as nat == (w / pow2(k)) % 256);
                lemma_pow2_pos(k);
                lemma_pow2_adds(8, k);
                assert((8 * i) as nat == 8 + k);
                vstd::arithmetic::div_mod::lemma_div_denominator(v as int, 256, pow2(k) as int);
                assert(w / pow2(k) == v / pow2(8 + k));
            }
        }
    }
}

/// Big-endian value of a slice of at most eight bytes.
pub(crate) fn be_to_u64(b: &[u8]) -> (r: u64)
    requires
        b@.len() <= 8,
    ensures
        r == be_value(b@),
{
    let mut value: u64 = 0;
    let mut i: usize = 0;
    proof {
        lemma2_to64();
    }
    while i < b.len()
        invariant
            0 <= i <= b@.len() <= 8,
            value == be_value(b@.take(i as int)),
            value < pow2(8 * i as nat),
        decreases b@.len() - i,
    {
        proof {
            lemma_pow2_adds(8 * i as nat, 8);
            lemma2_to64();
            assert(b@.take(i + 1).drop_last() =~= b@.take(i as int));
            lemma2_to64_rest();
            assert(pow2(8 * i as nat) <= pow2(56)) by {
                if i < 7 {
                    lemma_pow2_strictly_increases(8 * i as nat, 56);
                }
            }
        }
        value = value * 256 + b[i] as u64;
        i += 1;
        assert(8 * (i - 1) as nat + 8 == 8 * i as nat);
    }
    assert(b@.take(i as int) =~= b@);
    value
}

/// Little-endian value of a slice of at most eight bytes.
pub(crate) fn le_to_u64(b: &[u8]) -> (r: u64)
    requires
        b@.len() <= 8,
    ensures
        r == le_value(b@),
{
    let mut value: u64 = 0;
    let mut i: usize = b.len();
    proof {
        lemma2_to64();
    }
    while i > 0
        invariant
            0 <= i <= b@.len() <= 8,
            value == le_value(b@.skip(i as int)),
            value < pow2(8 * (b@.len() - i) as nat),
        decreases i,
    {
        let ghost k = (b@.len() - i) as nat;
        proof {
            lemma_pow2_adds(8 * k, 8);
            lemma2_to64();
            assert(b@.skip(i - 1).drop_first() =~= b@.skip(i as int));
            lemma2_to64_rest();
            assert(pow2(8 * k) <= pow2(56)) by {
                if k < 7 {
                    lemma_pow2_strictly_increases(8 * k, 56);
                }
            }
        }
        value = value * 256 + b[i - 1] as u64;
        i -= 1;
        assert(8 * k + 8 == 8 * (b@.len() - i) as nat);
    }
    assert(b@.skip(0) =~= b@);
    value
}

/// The `n`-byte big-endian representation of `v`, in the first `n` cells.
fn be_array(v: u64, n: usize) -> (r: [u8; 8])
    requires
        n <= 8,
    ensures
        r@.take(n as int) == be_bytes(v as nat, n as nat),
{
    let mut arr = [0u8; 8];
    let mut x = v;
    let mut i = n;
    proof {
        lemma_bytes_len(v as nat, n as nat);
        assert(arr@.take(n as int).skip(n as int) =~= Seq::<u8>::empty());
    }
    while i > 0
        invariant
            0 <= i <= n <= 8,
            arr@.len() == 8,
            be_bytes(x as nat, i as nat) + arr@.take(n as int).skip(i as int) == be_bytes(
                v as nat,
                n as nat,
            ),
        decreases i,
    {
        let ghost old_arr = arr@;
        arr[i - 1] = (x % 256) as u8;
        proof {
            assert(arr@.take(n as int).skip(i - 1) =~= seq![(x % 256) as u8] + old_arr.take(
                n as int,
            ).skip(i as int));
            assert(be_bytes(x as nat, i as nat) =~= be_bytes((x / 256) as nat, (i - 1) as nat).push(
                (x % 256) as u8,
            ));
            assert(be_bytes((x / 256) as nat, (i - 1) as nat) + arr@.take(n as int).skip(i - 1)
                =~= be_bytes(x as nat, i as nat) + old_arr.take(n as int).skip(i as int));
        }
        x = x / 256;
        i -= 1;
    }
    assert(be_bytes(x as nat, 0) =~= Seq::<u8>::empty());
    assert(arr@.take(n as int).skip(0) =~= arr@.take(n as int));
    arr
}

/// The `n`-byte little-endian representation of `v`, in the first `n` cells.
fn le_array(v: u64, n: usize) -> (r: [u8; 8])
    requires
        n <= 8,
    ensures
        r@.take(n as int) == le_bytes(v as nat, n as nat),
{
    let mut arr = [0u8; 8];
    let mut x = v;
    let mut i: usize = 0;
    proof {
        lemma_bytes_len(v as nat, n as nat);
    }
    while i < n
        invariant
            0 <= i <= n <= 8,
            arr@.len() == 8,
            arr@.take(i as int) + le_bytes(x as nat, (n - i) as nat) == le_bytes(
                v as nat,
                n as nat,
            ),
        decreases n - i,
    {
        let ghost old_arr = arr@;
        arr[i] = (x % 256) as u8;
        proof {
            assert(arr@.take(i + 1) =~= old_arr.take(i as int).push((x % 256) as u8));
            assert(le_bytes(x as nat, (n - i) as nat) =~= seq![(x % 256) as u8] + le_bytes(
                (x / 256) as nat,
                (n - i - 1) as nat,
            ));
            assert(arr@.take(i + 1) + le_bytes((x / 256) as nat, (n - i - 1) as nat) =~= old_arr.take(
                i as int,
            ) + le_bytes(x as nat, (n - i) as nat));
        }
        x = x / 256;
        i += 1;
    }
    assert(le_bytes(x as nat, 0) =~= Seq::<u8>::empty());
    assert(arr@.take(n as int) + Seq::<u8>::empty() =~= arr@.take(n as int));
    arr
}

// ---------------------------------------------------------------------------
// ReadBuf
// ---------------------------------------------------------------------------
/// Cursor over an immutable byte slice with a tracked read position.
#[derive(Debug)]
pub struct ReadBuf<'a> {
    bytes: &'a [u8],
    pos: usize,
}

impl<'a> ReadBuf<'a> {
    #[verifier::type_invariant]
    pub(crate) open spec fn inv(&self) -> bool {
        self.pos() <= self.data().len() <= usize::MAX
    }

    /// The whole backing slice.
    pub closed spec fn data(&self) -> Seq<u8> {
        self.bytes@
    }

    /// The current read offset.
    pub closed spec fn pos(&self) -> nat {
        self.pos as nat
    }

    /// The bytes not yet consumed.
    pub open spec fn unread(&self) -> Seq<u8> {
        self.data().skip(self.pos() as int)
    }

    /// The cursor after reading `n` more bytes: same slice, offset moved by `n`.
    pub open spec fn advanced_by(&self, next: &Self, n: nat) -> bool {
        &&& next.data() == self.data()
        &&& next.pos() == self.pos() + n
    }

    /// Wrap `bytes` in a new cursor positioned at the start of the slice.
    pub fn new(bytes: &'a [u8]) -> (r: Self)
        ensures
            r.data() == bytes@,
            r.pos() == 0,
    {
        assert(bytes@.len() == bytes.len());
        ReadBuf { bytes, pos: 0 }
    }

    /// Current read offset within the backing slice.
    pub fn position(&self) -> (r: usize)
        ensures
            r == self.pos(),
    {
        self.pos
    }

    /// Number of bytes still available for reading.
    pub fn remaining(&self) -> (r: usize)
        ensures
            r == self.data().len() - self.pos(),
            r == self.unread().len(),
    {
        proof {
            use_type_invariant(self);
        }
        self.bytes.len() - self.pos
    }

    /// Whether the cursor has consumed every byte of the backing slice.
    pub fn is_empty(&self) -> (r: bool)
        ensures
            r <==> self.pos() >= self.data().len(),
    {
        self.pos >= self.bytes.len()
    }

    /// Slice of bytes that have not yet been consumed.
    pub fn remaining_slice(&self) -> (r: &'a [u8])
        ensures
            r@ == self.unread(),
    {
        proof {
            use_type_invariant(self);
        }
        let bytes: &'a [u8] = self.bytes;
        let r = &bytes[self.pos..bytes.len()];
        assert(r@ =~= self.unread());
        r
    }

    /// Look at the next `n` bytes without advancing the cursor.
    ///
    /// Returns [`Error::UnexpectedEof`] when fewer than `n` bytes remain.
    pub fn peek(&self, n: usize) -> (r: Result<&'a [u8]>)
        ensures
            self.pos() + n <= self.data().len() ==> r is Ok && r.unwrap()@ == self.unread().take(
                n as int,
            ),
            self.pos() + n > self.data().len() ==> r == Err::<&'a [u8], Error>(
                Error::UnexpectedEof,
            ),
    {
        proof {
            use_type_invariant(self);
        }
        let end = match self.pos.checked_add(n) {
            Some(end) => end,
            None => return Err(Error::UnexpectedEof),
        };
        if end > self.bytes.len() {
            return Err(Error::UnexpectedEof);
        }
        let bytes: &'a [u8] = self.bytes;
        let r = &bytes[self.pos..end];
        assert(r@ =~= self.unread().take(n as int));
        Ok(r)
    }

    /// Read the next `n` bytes and advance the cursor by `n`.
    ///
    /// Returns [`Error::UnexpectedEof`], leaving the cursor where it was, when
    /// fewer than `n` bytes remain.
    pub fn read_bytes(&mut self, n: usize) -> (r: Result<&'a [u8]>)
        ensures
            old(self).pos() + n <= old(self).data().len() ==> {
                &&& r is Ok
                &&& r.unwrap()@ == old(self).unread().take(n as int)
                &&& old(self).advanced_by(&*final(self), n as nat)
            },
            old(self).pos() + n > old(self).data().len() ==> {
                &&& r == Err::<&'a [u8], Error>(Error::UnexpectedEof)
                &&& *final(self) == *old(self)
            },
    {
        proof {
            use_type_invariant(&*self);
        }
        let slice = self.peek(n)?;
        self.pos = self.pos + n;
        Ok(slice)
    }

    /// Advance the cursor by `n` bytes without returning the skipped data.
    ///
    /// Returns [`Error::UnexpectedEof`], leaving the cursor where it was, when
    /// fewer than `n` bytes remain.
    pub fn advance(&mut self, n: usize) -> (r: Result<()>)
        ensures
            old(self).pos() + n <= old(self).data().len() ==> r is Ok && old(self).advanced_by(
                &*final(self),
                n as nat,
            ),
            old(self).pos() + n > old(self).data().len() ==> r == Err::<(), Error>(
                Error::UnexpectedEof,
            ) && *final(self) == *old(self),
    {
        proof {
            use_type_invariant(&*self);
        }
        let end = match self.pos.checked_add(n) {
            Some(end) => end,
            None => return Err(Error::UnexpectedEof),
        };
        if end > self.bytes.len() {
            return Err(Error::UnexpectedEof);
        }
        self.pos = end;
        Ok(())
    }

    /// Read a single byte.
    ///
    /// Returns [`Error::UnexpectedEof`] when the cursor is exhausted.
    pub fn read_u8(&mut self) -> (r: Result<u8>)
        ensures
            old(self).pos() < old(self).data().len() ==> r == Ok::<u8, Error>(
                old(self).data()[old(self).pos() as int],
            ) && old(self).advanced_by(&*final(self), 1),
            old(self).pos() >= old(self).data().len() ==> r == Err::<u8, Error>(
                Error::UnexpectedEof,
            ) && *final(self) == *old(self),
    {
        if self.pos >= self.bytes.len() {
            return Err(Error::UnexpectedEof);
        }
        let value = self.bytes[self.pos];
        self.pos = self.pos + 1;
        Ok(value)
    }

    /// Read `n <= 8` bytes as a big-endian (or little-endian) number.
    fn read_uint(&mut self, n: usize, big: bool) -> (r: Result<u64>)
        requires
            n <= 8,
        ensures
            old(self).pos() + n <= old(self).data().len() ==> {
                let b = old(self).unread().take(n as int);
                &&& r == Ok::<u64, Error>(
                    if big {
                        be_value(b)
                    } else {
                        le_value(b)
                    } as u64,
                )
                &&& old(self).advanced_by(&*final(self), n as nat)
            },
            old(self).pos() + n > old(self).data().len() ==> r == Err::<u64, Error>(
                Error::UnexpectedEof,
            ) && *final(self) == *old(self),
    {
        let bytes = self.read_bytes(n)?;
        if big {
            Ok(be_to_u64(bytes))
        } else {
            Ok(le_to_u64(bytes))
        }
    }

    /// Read a big-endian `u16`.
    pub fn read_u16_be(&mut self) -> (r: Result<u16>)
        ensures
            read_outcome(*old(self), *final(self), r, 2, true),
    {
        let v = self.read_uint(2, true)?;
        proof {
            lemma_value_bound(old(self).unread().take(2));
            lemma2_to64();
        }
        Ok(v as u16)
    }

    /// Read a little-endian `u16`.
    pub fn read_u16_le(&mut self) -> (r: Result<u16>)
        ensures
            read_outcome(*old(self), *final(self), r, 2, false),
    {
        let v = self.read_uint(2, false)?;
        proof {
            lemma_value_bound(old(self).unread().take(2));
            lemma2_to64();
        }
        Ok(v as u16)
    }

    /// Read a big-endian `u32`.
    pub fn read_u32_be(&mut self) -> (r: Result<u32>)
        ensures
            read_outcome(*old(self), *final(self), r, 4, true),
    {
        let v = self.read_uint(4, true)?;
        proof {
            lemma_value_bound(old(self).unread().take(4));
            lemma2_to64();
        }
        Ok(v as u32)
    }

    /// Read a little-endian `u32`.
    pub fn read_u32_le(&mut self) -> (r: Result<u32>)
        ensures
            read_outcome(*old(self), *final(self), r, 4, false),
    {
        let v = self.read_uint(4, false)?;
        proof {
            lemma_value_bound(old(self).unread().take(4));
            lemma2_to64();
        }
        Ok(v as u32)
    }

    /// Read a big-endian `u64`.
    pub fn read_u64_be(&mut self) -> (r: Result<u64>)
        ensures
            read_outcome(*old(self), *final(self), r, 8, true),
    {
        proof {
            lemma_value_bound(self.unread().take(8));
            lemma2_to64();
        }
        self.read_uint(8, true)
    }

    /// Read a little-endian `u64`.
    pub fn read_u64_le(&mut self) -> (r: Result<u64>)
        ensures
            read_outcome(*old(self), *final(self), r, 8, false),
    {
        proof {
            lemma_value_bound(self.unread().take(8));
            lemma2_to64();
        }
        self.read_uint(8, false)
    }
}

/// What reading an `n`-byte integer in the given byte order does: with at
/// least `n` bytes left it returns their value and moves past them, otherwise
/// it reports [`Error::UnexpectedEof`] and leaves the cursor alone.
pub open spec fn read_outcome<'a, T: Integer>(
    before: ReadBuf<'a>,
    after: ReadBuf<'a>,
    r: Result<T>,
    n: nat,
    big: bool,
) -> bool {
    if before.pos() + n <= before.data().len() {
        let b = before.unread().take(n as int);
        &&& r is Ok
        &&& r.unwrap() as int == if big {
            be_value(b)
        } else {
            le_value(b)
        }
        &&& before.advanced_by(&after, n)
    } else {
        &&& r == Err::<T, Error>(Error::UnexpectedEof)
        &&& after == before
    }
}

impl<'a> Clone for ReadBuf<'a> {
    fn clone(&self) -> (r: Self)
        ensures
            r == *self,
    {
        proof {
            use_type_invariant(self);
        }
        ReadBuf { bytes: self.bytes, pos: self.pos }
    }
}

// ---------------------------------------------------------------------------
// WriteBuf
// ---------------------------------------------------------------------------
/// Cursor over a mutable byte slice with a tracked write position.
#[derive(Debug)]
pub struct WriteBuf<'a> {
    bytes: &'a mut [u8],
    pos: usize,
}

impl<'a> WriteBuf<'a> {
    #[verifier::type_invariant]
    pub(crate) open spec fn inv(&self) -> bool {
        self.pos() <= self.contents().len()
    }

    /// The current contents of the whole backing slice.
    pub closed spec fn contents(&self) -> Seq<u8> {
        self.bytes@
    }

    /// The current write offset.
    pub closed spec fn pos(&self) -> nat {
        self.pos as nat
    }

    /// Free room after the write offset.
    pub open spec fn room(&self) -> int {
        self.contents().len() - self.pos()
    }

    /// `next` is `self` with `w` written at the write offset and the offset
    /// moved past it.
    pub open spec fn wrote(&self, next: &Self, w: Seq<u8>) -> bool {
        &&& next.contents() == splice(self.contents(), self.pos() as int, w)
        &&& next.pos() == self.pos() + w.len()
    }

    /// Wrap `bytes` in a new cursor positioned at offset zero.
    pub fn new(bytes: &'a mut [u8]) -> (r: Self)
        ensures
            r.contents() == old(bytes)@,
            r.pos() == 0,
    {
        WriteBuf { bytes, pos: 0 }
    }

    /// Total capacity of the backing slice.
    pub fn capacity(&self) -> (r: usize)
        ensures
            r == self.contents().len(),
    {
        self.bytes.len()
    }

    /// Current write offset within the backing slice.
    pub fn position(&self) -> (r: usize)
        ensures
            r == self.pos(),
    {
        self.pos
    }

    /// Number of bytes still available for writing.
    pub fn remaining(&self) -> (r: usize)
        ensures
            r == self.room(),
    {
        proof {
            use_type_invariant(self);
        }
        self.bytes.len() - self.pos
    }

    /// Borrow the prefix that has been written so far.
    pub fn written(&self) -> (r: &[u8])
        ensures
            r@ == self.contents().take(self.pos() as int),
    {
        proof {
            use_type_invariant(self);
        }
        &self.bytes[0..self.pos]
    }

    /// Append `src` to the buffer and advance the cursor.
    ///
    /// Returns [`Error::BufferFull`], writing nothing, if fewer than
    /// `src.len()` bytes remain.
    pub fn write_bytes(&mut self, src: &[u8]) -> (r: Result<()>)
        ensures
            src@.len() <= old(self).room() ==> r is Ok && old(self).wrote(&*final(self), src@),
            src@.len() > old(self).room() ==> r == Err::<(), Error>(Error::BufferFull)
                && *final(self) == *old(self),
    {
        proof {
            use_type_invariant(&*self);
        }
        if src.len() > self.bytes.len() - self.pos {
            return Err(Error::BufferFull);
        }
        let start = self.pos;
        let mut i: usize = 0;
        while i < src.len()
            invariant
                0 <= i <= src@.len(),
                start + src@.len() <= self.bytes@.len() <= usize::MAX,
                self.pos == start,
                self.bytes@.len() == old(self).bytes@.len(),
                self.bytes@ == old(self).contents().take(start as int) + src@.take(i as int)
                    + old(self).contents().skip(start + i as int),
            decreases src@.len() - i,
        {
            self.bytes[start + i] = src[i];
            i += 1;
            assert(self.bytes@ =~= old(self).contents().take(start as int) + src@.take(i as int)
                + old(self).contents().skip(start + i as int));
        }
        self.pos = start + src.len();
        assert(src@.take(i as int) =~= src@);
        Ok(())
    }

    /// Write a single byte.
    ///
    /// Returns [`Error::BufferFull`] when no room is left.
    pub fn write_u8(&mut self, value: u8) -> (r: Result<()>)
        ensures
            old(self).room() >= 1 ==> r is Ok && old(self).wrote(&*final(self), seq![value]),
            old(self).room() < 1 ==> r == Err::<(), Error>(Error::BufferFull) && *final(self)
                == *old(self),
    {
        proof {
            use_type_invariant(&*self);
        }
        if self.pos >= self.bytes.len() {
            return Err(Error::BufferFull);
        }
        let ghost before = self.bytes@;
        self.bytes[self.pos] = value;
        self.pos = self.pos + 1;
        assert(self.bytes@ =~= splice(before, self.pos - 1, seq![value]));
        Ok(())
    }

    /// Write the `n`-byte representation of `v` in the given byte order.
    pub(crate) fn write_uint(&mut self, v: u64, n: usize, big: bool) -> (r: Result<()>)
        requires
            n <= 8,
        ensures
            write_outcome(*old(self), *final(self), r, v as nat, n as nat, big),
    {
        let arr = if big {
            be_array(v, n)
        } else {
            le_array(v, n)
        };
        let s = arr.as_slice();
        let src = &s[0..n];
        assert(src@ =~= arr@.take(n as int));
        proof {
            lemma_bytes_len(v as nat, n as nat);
        }
        self.write_bytes(src)
    }

    /// Write a big-endian `u16`.
    pub fn write_u16_be(&mut self, value: u16) -> (r: Result<()>)
        ensures
            write_outcome(*old(self), *final(self), r, value as nat, 2, true),
    {
        self.write_uint(value as u64, 2, true)
    }

    /// Write a little-endian `u16`.
    pub fn write_u16_le(&mut self, value: u16) -> (r: Result<()>)
        ensures
            write_outcome(*old(self), *final(self), r, value as nat, 2, false),
    {
        self.write_uint(value as u64, 2, false)
    }

    /// Write a big-endian `u32`.
    pub fn write_u32_be(&mut self, value: u32) -> (r: Result<()>)
        ensures
            write_outcome(*old(self), *final(self), r, value as nat, 4, true),
    {
        self.write_uint(value as u64, 4, true)
    }

    /// Write a little-endian `u32`.
    pub fn write_u32_le(&mut self, value: u32) -> (r: Result<()>)
        ensures
            write_outcome(*old(self), *final(self), r, value as nat, 4, false),
    {
        self.write_uint(value as u64, 4, false)
    }

    /// Write a big-endian `u64`.
    pub fn write_u64_be(&mut self, value: u64) -> (r: Result<()>)
        ensures
            write_outcome(*old(self), *final(self), r, value as nat, 8, true),
    {
        self.write_uint(value, 8, true)
    }

    /// Write a little-endian `u64`.
    pub fn write_u64_le(&mut self, value: u64) -> (r: Result<()>)
        ensures
            write_outcome(*old(self), *final(self), r, value as nat, 8, false),
    {
        self.write_uint(value, 8, false)
    }

    /// Consume the cursor and return the prefix that has been written.
    pub fn into_written(self) -> (r: &'a mut [u8])
        ensures
            r@ == self.contents().take(self.pos() as int),
    {
        proof {
            use_type_invariant(&self);
        }
        let WriteBuf { bytes, pos } = self;
        let (head, _tail) = bytes.split_at_mut(pos);
        head
    }
}

/// Two writes in a row, the second starting where the first ended, amount to
/// one write of the two sequences joined.
pub proof fn lemma_wrote_chain<'a>(
    a: WriteBuf<'a>,
    b: WriteBuf<'a>,
    c: WriteBuf<'a>,
    w1: Seq<u8>,
    w2: Seq<u8>,
)
    requires
        a.wrote(&b, w1),
        b.wrote(&c, w2),
        a.pos() + w1.len() + w2.len() <= a.contents().len(),
    ensures
        a.wrote(&c, w1 + w2),
{
    let s = a.contents();
    let p = a.pos() as int;
    assert(splice(splice(s, p, w1), p + w1.len(), w2) =~= splice(s, p, w1 + w2));
}

/// Writing nothing leaves a cursor as it is.
pub proof fn lemma_wrote_nothing<'a>(a: WriteBuf<'a>)
    requires
        a.pos() <= a.contents().len(),
    ensures
        a.wrote(&a, Seq::empty()),
{
    assert(splice(a.contents(), a.pos() as int, Seq::empty()) =~= a.contents());
}

/// What writing the `n`-byte representation of `v` does: with room for `n`
/// bytes it writes them at the offset and moves past them, otherwise it
/// reports [`Error::BufferFull`] and writes nothing.
pub open spec fn write_outcome<'a>(
    before: WriteBuf<'a>,
    after: WriteBuf<'a>,
    r: Result<()>,
    v: nat,
    n: nat,
    big: bool,
) -> bool {
    if n <= before.room() {
        &&& r is Ok
        &&& before.wrote(
            &after,
            if big {
                be_bytes(v, n)
            } else {
                le_bytes(v, n)
            },
        )
    } else {
        &&& r == Err::<(), Error>(Error::BufferFull)
        &&& after == before
    }
}


/// Fixed-width reads are positional. With `n` bytes left the read succeeds,
/// moves past exactly those bytes, and returns the number below `2^(8n)`
/// whose base-256 digits they are: byte `i` is digit `n - 1 - i` for
/// big-endian and digit `i` for little-endian. With fewer bytes left it
/// reports [`Error::UnexpectedEof`] and leaves the cursor alone.
pub proof fn law_read_is_positional<'a, T: Integer>(
    before: ReadBuf<'a>,
    after: ReadBuf<'a>,
    r: Result<T>,
    n: nat,
    big: bool,
)
    requires
        read_outcome(before, after, r, n, big),
    ensures
        before.pos() + n <= before.data().len() ==> {
            &&& r is Ok
            &&& 0 <= (r.unwrap() as int) < pow2(8 * n)
            &&& forall|i: int|
                0 <= i < n ==> #[trigger] before.data()[before.pos() + i] as int == (r.unwrap() as int
                    / pow2((if big { 8 * (n - 1 - i) } else { 8 * i }) as nat) as int) % 256
            &&& after.data() == before.data()
            &&& after.pos() == before.pos() + n
        },
        before.pos() + n > before.data().len() ==> {
            &&& r == Err::<T, Error>(Error::UnexpectedEof)
            &&& after == before
        },
{
    if before.pos() + n <= before.data().len() {
        let b = before.unread().take(n as int);
        let x: nat = if big {
            be_value(b)
        } else {
            le_value(b)
        };
        lemma_value_bound(b);
        lemma_value_bytes(b);
        lemma_bytes_digits(x, n);
        assert forall|i: int| 0 <= i < n implies #[trigger] before.data()[before.pos() + i] as int
            == (r.unwrap() as int / pow2((if big { 8 * (n - 1 - i) } else { 8 * i }) as nat) as int)
            % 256 by {
            assert(b[i] == before.data()[before.pos() + i]);
            if big {
                assert(be_bytes(x, n)[i] == b[i]);
            } else {
                assert(le_bytes(x, n)[i] == b[i]);
            }
        }
    }
}

/// Fixed-width writes are positional. With room for `n` bytes the write
/// succeeds, puts the base-256 digits of `v` at the write offset (byte `i`
/// is digit `n - 1 - i` for big-endian, digit `i` for little-endian), leaves
/// every other byte as it was, and moves past them. Without room it reports
/// [`Error::BufferFull`] and writes nothing.
pub proof fn law_write_is_positional<'a>(
    before: WriteBuf<'a>,
    after: WriteBuf<'a>,
    r: Result<()>,
    v: nat,
    n: nat,
    big: bool,
)
    requires
        write_outcome(before, after, r, v, n, big),
    ensures
        n <= before.room() ==> {
            &&& r is Ok
            &&& after.contents().len() == before.contents().len()
            &&& after.pos() == before.pos() + n
            &&& forall|i: int|
                0 <= i < n ==> #[trigger] after.contents()[before.pos() + i] as nat == (v / pow2(
                    (if big { 8 * (n - 1 - i) } else { 8 * i }) as nat,
                )) % 256
            &&& forall|j: int|
                0 <= j < before.contents().len() && !(before.pos() <= j < before.pos() + n)
                    ==> #[trigger] after.contents()[j] == before.contents()[j]
        },
        n > before.room() ==> {
            &&& r == Err::<(), Error>(Error::BufferFull)
            &&& after == before
        },
{
    if n <= before.room() {
        let w = if big {
            be_bytes(v, n)
        } else {
            le_bytes(v, n)
        };
        let p = before.pos() as int;
        let s = before.contents();
        lemma_bytes_len(v, n);
        lemma_bytes_digits(v, n);
        assert forall|i: int| 0 <= i < n implies #[trigger] after.contents()[before.pos() + i] as nat
            == (v / pow2((if big { 8 * (n - 1 - i) } else { 8 * i }) as nat)) % 256 by {
            assert(splice(s, p, w)[p + i] == w[i]);
        }
        assert forall|j: int|
            0 <= j < before.contents().len() && !(before.pos() <= j < before.pos() + n) implies
            #[trigger] after.contents()[j] == before.contents()[j] by {
            if j < p {
                assert(splice(s, p, w)[j] == s.take(p)[j]);
            } else {
                assert(splice(s, p, w)[j] == s.skip(p + n)[j - p - n]);
            }
        }
    }
}

/// A fixed-width write reads back: reading `n` bytes in the same byte order
/// from where a write of `v < 2^(8n)` put them gives `v`.
pub proof fn law_write_then_read<'a, 'b, T: Integer>(
    wb: WriteBuf<'a>,
    wa: WriteBuf<'a>,
    w: Result<()>,
    v: nat,
    n: nat,
    big: bool,
    rb: ReadBuf<'b>,
    ra: ReadBuf<'b>,
    r: Result<T>,
)
    requires
        write_outcome(wb, wa, w, v, n, big),
        n <= wb.room(),
        v < pow2(8 * n),
        rb.pos() + n <= rb.data().len(),
        rb.unread().take(n as int) == wa.contents().subrange(wb.pos() as int, (wb.pos() + n) as int),
        read_outcome(rb, ra, r, n, big),
    ensures
        r is Ok,
        r.unwrap() as int == v,
{
    let bytes = if big {
        be_bytes(v, n)
    } else {
        le_bytes(v, n)
    };
    lemma_bytes_len(v, n);
    let p = wb.pos() as int;
    assert(wa.contents().subrange(p, p + n) =~= bytes);
    law_fixed_width_round_trip(v, n, Seq::empty());
}

} // verus!
