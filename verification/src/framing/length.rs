//! Length-prefixed framing.
//!
//! Each frame is preceded by a fixed-width unsigned integer that gives the
//! length of the payload in bytes. The width and endianness are chosen at
//! construction time.

use crate::buf::{be_bytes, be_to_u64, be_value, le_bytes, le_to_u64, le_value, WriteBuf};
use crate::error::{Error, Result};
use crate::framing::{frame_result_view, Frame, Framer};
use vstd::arithmetic::power2::pow2;
use vstd::prelude::*;

verus! {

/// Width of the length prefix, in bytes.
///
/// Marked `#[non_exhaustive]` so wider prefix widths can be added in future
/// minor releases without a major version bump.
#[non_exhaustive]
#[derive(Debug, Clone, Copy, PartialEq, Eq, Hash, Structural)]
pub enum LengthWidth {
    /// One-byte length prefix; payload up to 255 bytes.
    U8,
    /// Two-byte length prefix; payload up to 65 535 bytes.
    U16,
    /// Four-byte length prefix; payload up to 4 294 967 295 bytes.
    U32,
}

impl LengthWidth {
    /// Width of the prefix in bytes.
    pub open spec fn spec_header_size(self) -> nat {
        match self {
            LengthWidth::U8 => 1,
            LengthWidth::U16 => 2,
            LengthWidth::U32 => 4,
        }
    }

    /// Largest payload size encodable by this width: `2^(8 * header) - 1`.
    pub open spec fn spec_max_payload(self) -> nat {
        match self {
            LengthWidth::U8 => 0xFF,
            LengthWidth::U16 => 0xFFFF,
            LengthWidth::U32 => 0xFFFF_FFFF,
        }
    }

    /// Width of the prefix in bytes.
    pub fn header_size(self) -> (r: usize)
        ensures
            r == self.spec_header_size(),
    {
        match self {
            LengthWidth::U8 => 1,
            LengthWidth::U16 => 2,
            LengthWidth::U32 => 4,
        }
    }

    /// Largest payload size encodable by this width.
    pub fn max_payload(self) -> (r: u64)
        ensures
            r == self.spec_max_payload(),
    {
        match self {
            LengthWidth::U8 => 0xFF,
            LengthWidth::U16 => 0xFFFF,
            LengthWidth::U32 => 0xFFFF_FFFF,
        }
    }
}

/// Byte order for the length prefix.
#[derive(Debug, Clone, Copy, PartialEq, Eq, Hash, Structural)]
pub enum Endian {
    /// Most significant byte first (network order).
    Big,
    /// Least significant byte first.
    Little,
}

/// The value of a length prefix in the given byte order.
pub open spec fn prefix_value(endian: Endian, header: Seq<u8>) -> nat {
    match endian {
        Endian::Big => be_value(header),
        Endian::Little => le_value(header),
    }
}

/// The `n`-byte length prefix for `len` in the given byte order.
pub open spec fn prefix_bytes(endian: Endian, len: nat, n: nat) -> Seq<u8> {
    match endian {
        Endian::Big => be_bytes(len, n),
        Endian::Little => le_bytes(len, n),
    }
}

/// Length-prefixed framer.
#[derive(Debug, Clone, Copy, PartialEq, Eq, Hash)]
pub struct LengthPrefixed {
    width: LengthWidth,
    endian: Endian,
    max_payload: u64,
}

impl LengthPrefixed {
    /// Configured prefix width.
    pub closed spec fn spec_width(&self) -> LengthWidth {
        self.width
    }

    /// Configured endianness.
    pub closed spec fn spec_endian(&self) -> Endian {
        self.endian
    }

    /// Configured payload limit.
    pub closed spec fn spec_max_payload(&self) -> nat {
        self.max_payload as nat
    }

    /// The limit never exceeds what the prefix width can encode; every
    /// constructor establishes this.
    #[verifier::type_invariant]
    pub open spec fn well_formed(&self) -> bool {
        self.spec_max_payload() <= self.spec_width().spec_max_payload()
    }

    /// What [`Framer::next_frame`] answers on `input`:
    /// - too short for the header: more bytes needed;
    /// - advertised length over the limit: [`Error::FrameTooLarge`];
    /// - payload not all there yet: more bytes needed;
    /// - otherwise the payload after the header, consuming header and payload.
    pub open spec fn spec_next_frame(&self, input: Seq<u8>) -> Result<Option<(Seq<u8>, nat)>> {
        let h = self.spec_width().spec_header_size();
        if input.len() < h {
            Ok(None)
        } else {
            let len = prefix_value(self.spec_endian(), input.take(h as int));
            if len > self.spec_max_payload() {
                Err(Error::FrameTooLarge { len: len as usize, limit: self.spec_max_payload() as usize })
            } else if input.len() < h + len {
                Ok(None)
            } else {
                Ok(Some((input.subrange(h as int, (h + len) as int), h + len)))
            }
        }
    }

    /// The frame [`Framer::write_frame`] produces for a payload of `len`
    /// bytes: the prefix, then the payload.
    pub open spec fn header_for(&self, len: nat) -> Seq<u8> {
        prefix_bytes(self.spec_endian(), len, self.spec_width().spec_header_size())
    }

    /// Build a framer using the given prefix width and endianness.
    ///
    /// The maximum payload size defaults to the largest value the prefix can
    /// encode. Use [`LengthPrefixed::with_max_payload`] to tighten it.
    pub fn new(width: LengthWidth, endian: Endian) -> (r: Self)
        ensures
            r.spec_width() == width,
            r.spec_endian() == endian,
            r.spec_max_payload() == width.spec_max_payload(),
            r.well_formed(),
    {
        LengthPrefixed { width, endian, max_payload: width.max_payload() }
    }

    /// Override the payload size limit enforced when reading and writing frames.
    ///
    /// The limit is clamped to [`LengthWidth::max_payload`] of the configured
    /// width.
    pub fn with_max_payload(self, max: u64) -> (r: Self)
        ensures
            r.spec_width() == self.spec_width(),
            r.spec_endian() == self.spec_endian(),
            r.spec_max_payload() == if max < self.spec_width().spec_max_payload() {
                max as nat
            } else {
                self.spec_width().spec_max_payload()
            },
            r.well_formed(),
    {
        let cap = self.width.max_payload();
        let mut this = self;
        this.max_payload = if max < cap {
            max
        } else {
            cap
        };
        this
    }

    /// Configured prefix width.
    pub fn width(&self) -> (r: LengthWidth)
        ensures
            r == self.spec_width(),
    {
        self.width
    }

    /// Configured endianness.
    pub fn endian(&self) -> (r: Endian)
        ensures
            r == self.spec_endian(),
    {
        self.endian
    }

    /// Configured maximum payload size in bytes.
    pub fn max_payload(&self) -> (r: u64)
        ensures
            r == self.spec_max_payload(),
    {
        self.max_payload
    }

    /// Read the length prefix from the first prefix-width bytes of `header`;
    /// any bytes after them are left alone.
    fn read_prefix(&self, header: &[u8]) -> (r: u64)
        requires
            header@.len() >= self.spec_width().spec_header_size(),
        ensures
            r == prefix_value(
                self.spec_endian(),
                header@.take(self.spec_width().spec_header_size() as int),
            ),
            r <= self.spec_width().spec_max_payload(),
    {
        let header_size = self.width.header_size();
        let prefix = &header[0..header_size];
        proof {
            assert(prefix@ =~= header@.take(header_size as int));
            crate::buf::lemma_value_bound(prefix@);
            lemma_width_cap(self.spec_width());
        }
        match self.endian {
            Endian::Big => be_to_u64(prefix),
            Endian::Little => le_to_u64(prefix),
        }
    }

    /// Write the length prefix for `len`.
    fn write_prefix(&self, len: u64, out: &mut WriteBuf<'_>) -> (r: Result<()>)
        ensures
            self.spec_width().spec_header_size() <= old(out).room() ==> r is Ok && old(out).wrote(
                &*final(out),
                self.header_for(len as nat),
            ),
            self.spec_width().spec_header_size() > old(out).room() ==> r == Err::<(), Error>(
                Error::BufferFull,
            ) && *final(out) == *old(out),
    {
        let n = self.width.header_size();
        let big = match self.endian {
            Endian::Big => true,
            Endian::Little => false,
        };
        out.write_uint(len, n, big)
    }
}

/// The limit of a width is the largest number its prefix can hold.
proof fn lemma_width_cap(w: LengthWidth)
    ensures
        w.spec_max_payload() + 1 == vstd::arithmetic::power2::pow2(8 * w.spec_header_size()),
{
    vstd::arithmetic::power2::lemma2_to64();
}

/// Round trip: the frame written for a payload within the limit, followed by
/// anything, reads back as that payload, consuming exactly the header and the
/// payload.
pub proof fn law_round_trip(lp: LengthPrefixed, payload: Seq<u8>, rest: Seq<u8>)
    requires
        lp.well_formed(),
        payload.len() <= lp.spec_max_payload(),
    ensures
        ({
            let h = lp.spec_width().spec_header_size();
            lp.spec_next_frame(lp.header_for(payload.len()) + payload + rest) == Ok::<
                Option<(Seq<u8>, nat)>,
                Error,
            >(Some((payload, h + payload.len())))
        }),
{
    let h = lp.spec_width().spec_header_size();
    let len = payload.len();
    let header = lp.header_for(len);
    let input = header + payload + rest;
    lemma_width_cap(lp.spec_width());
    crate::buf::lemma_bytes_len(len, h);
    crate::buf::law_fixed_width_round_trip(len, h, Seq::empty());
    assert(input.take(h as int) =~= header);
    assert(input.subrange(h as int, (h + len) as int) =~= payload);
}

/// Back-pressure: every proper prefix of a frame within the limit asks for
/// more bytes.
pub proof fn law_truncated_needs_more(lp: LengthPrefixed, payload: Seq<u8>, cut: nat)
    requires
        lp.well_formed(),
        payload.len() <= lp.spec_max_payload(),
        cut < lp.spec_width().spec_header_size() + payload.len(),
    ensures
        lp.spec_next_frame((lp.header_for(payload.len()) + payload).take(cut as int)) == Ok::<
            Option<(Seq<u8>, nat)>,
            Error,
        >(None),
{
    let h = lp.spec_width().spec_header_size();
    let len = payload.len();
    let header = lp.header_for(len);
    let input = (header + payload).take(cut as int);
    lemma_width_cap(lp.spec_width());
    crate::buf::lemma_bytes_len(len, h);
    crate::buf::law_fixed_width_round_trip(len, h, Seq::empty());
    if cut >= h {
        assert(input.take(h as int) =~= header);
    }
}

/// A frame whose prefix advertises more than the limit is rejected with the
/// advertised length and the limit.
pub proof fn law_over_limit_rejected(lp: LengthPrefixed, len: nat, rest: Seq<u8>)
    requires
        lp.well_formed(),
        lp.spec_max_payload() < len <= lp.spec_width().spec_max_payload(),
    ensures
        lp.spec_next_frame(lp.header_for(len) + rest) == Err::<Option<(Seq<u8>, nat)>, Error>(
            Error::FrameTooLarge { len: len as usize, limit: lp.spec_max_payload() as usize },
        ),
{
    let h = lp.spec_width().spec_header_size();
    lemma_width_cap(lp.spec_width());
    crate::buf::lemma_bytes_len(len, h);
    crate::buf::law_fixed_width_round_trip(len, h, Seq::empty());
    assert((lp.header_for(len) + rest).take(h as int) =~= lp.header_for(len));
}

/// A frame lies inside the input: its payload is the input right after the
/// header, and it consumes the header and the payload.
pub proof fn law_frame_within_input(lp: LengthPrefixed, input: Seq<u8>)
    ensures
        lp.spec_next_frame(input) matches Ok(Some((p, c))) ==> {
            &&& c <= input.len()
            &&& c == lp.spec_width().spec_header_size() + p.len()
            &&& p == input.subrange(c - p.len(), c as int)
        },
{
}

/// The header written for a payload of `len` bytes is positional: it is
/// as wide as the prefix, and its byte `i` is base-256 digit `h - 1 - i` of
/// `len` for [`Endian::Big`] and digit `i` for [`Endian::Little`].
pub proof fn law_header_is_positional(lp: LengthPrefixed, len: nat)
    ensures
        ({
            let h = lp.spec_width().spec_header_size();
            let big = lp.spec_endian() == Endian::Big;
            &&& lp.header_for(len).len() == h
            &&& forall|i: int|
                0 <= i < h ==> #[trigger] lp.header_for(len)[i] as nat == (len / pow2(
                    (if big { 8 * (h - 1 - i) } else { 8 * i }) as nat,
                )) % 256
        }),
{
    let h = lp.spec_width().spec_header_size();
    crate::buf::lemma_bytes_len(len, h);
    crate::buf::lemma_bytes_digits(len, h);
}

/// The length prefix is read positionally: when the first `h` input bytes
/// are the base-256 digits of `len < 2^(8h)` (most significant first for
/// [`Endian::Big`], least significant first for [`Endian::Little`]), the
/// frame announces `len` bytes: over the limit it is
/// [`Error::FrameTooLarge`], with fewer bytes present more are needed, and
/// otherwise the `len` bytes after the header are the payload, consuming
/// header and payload.
pub proof fn law_prefix_is_positional(lp: LengthPrefixed, input: Seq<u8>, len: nat)
    requires
        lp.spec_width().spec_header_size() <= input.len(),
        len < pow2(8 * lp.spec_width().spec_header_size()),
        forall|i: int|
            0 <= i < lp.spec_width().spec_header_size() ==> #[trigger] input[i] as nat == (len
                / pow2(
                (if lp.spec_endian() == Endian::Big {
                    8 * (lp.spec_width().spec_header_size() - 1 - i)
                } else {
                    8 * i
                }) as nat,
            )) % 256,
    ensures
        ({
            let h = lp.spec_width().spec_header_size();
            lp.spec_next_frame(input) == if len > lp.spec_max_payload() {
                Err::<Option<(Seq<u8>, nat)>, Error>(
                    Error::FrameTooLarge { len: len as usize, limit: lp.spec_max_payload() as usize },
                )
            } else if input.len() < h + len {
                Ok::<Option<(Seq<u8>, nat)>, Error>(None)
            } else {
                Ok::<Option<(Seq<u8>, nat)>, Error>(
                    Some((input.subrange(h as int, (h + len) as int), h + len)),
                )
            }
        }),
{
    let h = lp.spec_width().spec_header_size();
    let header = lp.header_for(len);
    law_header_is_positional(lp, len);
    assert(input.take(h as int) =~= header) by {
        assert forall|i: int| 0 <= i < h implies input.take(h as int)[i] == header[i] by {
            assert(input.take(h as int)[i] == input[i]);
        }
    }
    crate::buf::lemma_bytes_len(len, h);
    crate::buf::law_fixed_width_round_trip(len, h, Seq::empty());
    assert(prefix_value(lp.spec_endian(), input.take(h as int)) == len);
}

impl Framer for LengthPrefixed {
    fn next_frame<'a>(&self, input: &'a [u8]) -> (r: Result<Option<Frame<'a>>>)
        ensures
            frame_result_view(r) == self.spec_next_frame(input@),
    {
        proof {
            use_type_invariant(self);
        }
        let header_size = self.width.header_size();
        if input.len() < header_size {
            return Ok(None);
        }
        let len = self.read_prefix(input);
        if len > self.max_payload {
            return Err(Error::FrameTooLarge { len: len as usize, limit: self.max_payload as usize });
        }
        if len as usize > input.len() - header_size {
            return Ok(None);
        }
        let consumed = header_size + (len as usize);
        let payload = &input[header_size..consumed];
        Ok(Some(Frame::new(payload, consumed)))
    }

    fn write_frame(&self, payload: &[u8], out: &mut WriteBuf<'_>) -> (r: Result<()>)
        ensures
            ({
                let h = self.spec_width().spec_header_size();
                let len = payload@.len();
                let header = self.header_for(len);
                if len > self.spec_max_payload() {
                    &&& r == Err::<(), Error>(
                        Error::FrameTooLarge { len: len as usize, limit: self.spec_max_payload() as usize },
                    )
                    &&& *final(out) == *old(out)
                } else if old(out).room() < h {
                    &&& r == Err::<(), Error>(Error::BufferFull)
                    &&& *final(out) == *old(out)
                } else if old(out).room() < h + len {
                    &&& r == Err::<(), Error>(Error::BufferFull)
                    &&& old(out).wrote(&*final(out), header)
                } else {
                    &&& r is Ok
                    &&& old(out).wrote(&*final(out), header + payload@)
                }
            }),
    {
        let len = payload.len() as u64;
        if len > self.max_payload {
            return Err(Error::FrameTooLarge { len: payload.len(), limit: self.max_payload as usize });
        }
        proof {
            use_type_invariant(&*out);
        }
        let ghost start = *out;
        self.write_prefix(len, out)?;
        let ghost mid = *out;
        let r = out.write_bytes(payload);
        proof {
            crate::buf::lemma_bytes_len(len as nat, self.spec_width().spec_header_size());
            if r is Ok {
                crate::buf::lemma_wrote_chain(start, mid, *out, self.header_for(len as nat), payload@);
            }
        }
        r
    }
}

} // verus!
