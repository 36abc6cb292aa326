//! Byte-delimited framing.
//!
//! Frames are separated by a configured delimiter byte sequence (typically
//! `\n` for newline-terminated text, or `\r\n` for HTTP-style protocols). The
//! delimiter is stripped from the emitted payload but counted toward
//! [`Frame::consumed`].

use crate::buf::WriteBuf;
use crate::error::{Error, Result};
use crate::framing::{frame_result_view, Frame, Framer};
use vstd::prelude::*;

verus! {

broadcast use vstd::slice::group_slice_axioms;

/// `needle` occurs in `haystack` at offset `i`.
pub open spec fn matches_at(haystack: Seq<u8>, needle: Seq<u8>, i: int) -> bool {
    &&& 0 <= i
    &&& i + needle.len() <= haystack.len()
    &&& haystack.subrange(i, i + needle.len()) == needle
}

/// The first offset at or after `i` where `needle` occurs in `haystack`.
pub open spec fn find_from(haystack: Seq<u8>, needle: Seq<u8>, i: nat) -> Option<nat>
    decreases haystack.len() + 1 - i,
{
    if i + needle.len() > haystack.len() {
        None
    } else if matches_at(haystack, needle, i as int) {
        Some(i)
    } else {
        find_from(haystack, needle, i + 1)
    }
}

/// The first offset where `needle` occurs in `haystack`.
pub open spec fn first_match(haystack: Seq<u8>, needle: Seq<u8>) -> Option<nat> {
    find_from(haystack, needle, 0)
}

/// Byte-delimited framer.
#[derive(Debug, Clone, Copy, PartialEq, Eq, Hash)]
pub struct Delimited<'d> {
    delimiter: &'d [u8],
    max_payload: usize,
}

impl<'d> Delimited<'d> {
    /// Configured delimiter sequence.
    pub closed spec fn spec_delimiter(&self) -> Seq<u8> {
        self.delimiter@
    }

    /// Configured maximum payload size.
    pub closed spec fn spec_max_payload(&self) -> nat {
        self.max_payload as nat
    }

    /// How far [`Framer::next_frame`] looks for the delimiter: the payload
    /// limit plus the delimiter, saturating at `usize::MAX`.
    pub open spec fn window(&self) -> nat {
        let w = self.spec_max_payload() + self.spec_delimiter().len();
        if w > usize::MAX {
            usize::MAX as nat
        } else {
            w
        }
    }

    /// What [`Framer::next_frame`] answers on `input`:
    /// - the delimiter occurs within the window: the bytes before its first
    ///   occurrence, consuming them and the delimiter (or
    ///   [`Error::FrameTooLarge`] if they exceed the limit);
    /// - no delimiter in the window, but the input is longer than the window:
    ///   [`Error::FrameTooLarge`];
    /// - otherwise more bytes are needed.
    pub open spec fn spec_next_frame(&self, input: Seq<u8>) -> Result<Option<(Seq<u8>, nat)>> {
        let d = self.spec_delimiter();
        let scan = if input.len() > self.window() {
            input.take(self.window() as int)
        } else {
            input
        };
        match first_match(scan, d) {
            Some(p) => if p > self.spec_max_payload() {
                Err(Error::FrameTooLarge { len: p as usize, limit: self.spec_max_payload() as usize })
            } else {
                Ok(Some((input.take(p as int), p + d.len())))
            },
            None => if input.len() > self.window() {
                Err(
                    Error::FrameTooLarge {
                        len: input.len() as usize,
                        limit: self.spec_max_payload() as usize,
                    },
                )
            } else {
                Ok(None)
            },
        }
    }

    /// Build a framer using `delimiter` to separate frames, with no limit on
    /// payload size.
    ///
    /// Returns [`Error::EmptyDelimiter`] if `delimiter` is empty. An empty
    /// delimiter cannot uniquely separate frames.
    pub fn new(delimiter: &'d [u8]) -> (r: Result<Self>)
        ensures
            delimiter@.len() == 0 ==> r == Err::<Self, Error>(Error::EmptyDelimiter),
            delimiter@.len() > 0 ==> r is Ok && r.unwrap().spec_delimiter() == delimiter@
                && r.unwrap().spec_max_payload() == usize::MAX,
    {
        if delimiter.is_empty() {
            return Err(Error::EmptyDelimiter);
        }
        Ok(Delimited { delimiter, max_payload: usize::MAX })
    }

    /// Set an upper bound on payload size. Frames whose payload would exceed
    /// this size cause [`Error::FrameTooLarge`].
    pub fn with_max_payload(self, max: usize) -> (r: Self)
        ensures
            r.spec_delimiter() == self.spec_delimiter(),
            r.spec_max_payload() == max,
    {
        let mut this = self;
        this.max_payload = max;
        this
    }

    /// Configured delimiter sequence.
    pub fn delimiter(&self) -> (r: &'d [u8])
        ensures
            r@ == self.spec_delimiter(),
    {
        self.delimiter
    }

    /// Configured maximum payload size.
    pub fn max_payload(&self) -> (r: usize)
        ensures
            r == self.spec_max_payload(),
    {
        self.max_payload
    }

    /// Whether the delimiter occurs in `haystack` at offset `i`.
    fn delimiter_at(&self, haystack: &[u8], i: usize) -> (r: bool)
        requires
            i + self.spec_delimiter().len() <= haystack@.len(),
        ensures
            r == matches_at(haystack@, self.spec_delimiter(), i as int),
    {
        let needle = self.delimiter;
        assert(haystack@.len() == haystack.len());
        let mut k: usize = 0;
        while k < needle.len()
            invariant
                needle@ == self.spec_delimiter(),
                i + needle@.len() <= haystack@.len() <= usize::MAX,
                k <= needle@.len(),
                forall|j: int| 0 <= j < k ==> haystack@[i + j] == needle@[j],
            decreases needle@.len() - k,
        {
            if haystack[i + k] != needle[k] {
                proof {
                    assert(haystack@.subrange(i as int, i + needle@.len())[k as int] != needle@[k as int]);
                }
                return false;
            }
            k += 1;
        }
        assert(haystack@.subrange(i as int, i + needle@.len()) =~= needle@);
        true
    }

    /// Offset of the first occurrence of the delimiter in `haystack`.
    fn find_delimiter(&self, haystack: &[u8]) -> (r: Option<usize>)
        ensures
            r matches Some(p) ==> first_match(haystack@, self.spec_delimiter()) == Some(p as nat),
            r is None ==> first_match(haystack@, self.spec_delimiter()) is None,
    {
        let needle = self.delimiter;
        if haystack.len() < needle.len() {
            return None;
        }
        let last = haystack.len() - needle.len();
        let mut i: usize = 0;
        while i <= last
            invariant
                needle@ == self.spec_delimiter(),
                last + needle@.len() == haystack@.len() <= usize::MAX,
                i <= last + 1,
                find_from(haystack@, needle@, 0) == find_from(haystack@, needle@, i as nat),
            decreases last + 1 - i,
        {
            if self.delimiter_at(haystack, i) {
                return Some(i);
            }
            proof {
                if needle@.len() == 0 {
                    assert(haystack@.subrange(i as int, i as int) =~= needle@);
                }
            }
            i += 1;
        }
        None
    }
}

impl<'d> Framer for Delimited<'d> {
    fn next_frame<'a>(&self, input: &'a [u8]) -> (r: Result<Option<Frame<'a>>>)
        ensures
            frame_result_view(r) == self.spec_next_frame(input@),
    {
        // Cap the search window at max_payload + delimiter length. Saturating
        // because the default max_payload is usize::MAX.
        let window_cap = self.max_payload.saturating_add(self.delimiter.len());
        let scan_window = if input.len() > window_cap {
            &input[0..window_cap]
        } else {
            input
        };
        proof {
            if input@.len() > window_cap {
                assert(scan_window@ =~= input@.take(window_cap as int));
            }
        }
        match self.find_delimiter(scan_window) {
            Some(pos) => {
                if pos > self.max_payload {
                    return Err(Error::FrameTooLarge { len: pos, limit: self.max_payload });
                }
                proof {
                    let d = self.spec_delimiter();
                    assert(matches_at(scan_window@, d, pos as int)) by {
                        lemma_find_from_matches(scan_window@, d, 0);
                    }
                }
                let consumed = pos + self.delimiter.len();
                Ok(Some(Frame::new(&input[0..pos], consumed)))
            },
            None => {
                // No delimiter inside the window, and the input has already
                // exceeded the limit: the protocol is broken.
                if input.len() > window_cap {
                    return Err(Error::FrameTooLarge { len: input.len(), limit: self.max_payload });
                }
                Ok(None)
            },
        }
    }

    fn write_frame(&self, payload: &[u8], out: &mut WriteBuf<'_>) -> (r: Result<()>)
        ensures
            ({
                let d = self.spec_delimiter();
                let len = payload@.len();
                if len > self.spec_max_payload() {
                    &&& r == Err::<(), Error>(
                        Error::FrameTooLarge { len: len as usize, limit: self.spec_max_payload() as usize },
                    )
                    &&& *final(out) == *old(out)
                } else if old(out).room() < len {
                    &&& r == Err::<(), Error>(Error::BufferFull)
                    &&& *final(out) == *old(out)
                } else if old(out).room() < len + d.len() {
                    &&& r == Err::<(), Error>(Error::BufferFull)
                    &&& old(out).wrote(&*final(out), payload@)
                } else {
                    &&& r is Ok
                    &&& old(out).wrote(&*final(out), payload@ + d)
                }
            }),
    {
        if payload.len() > self.max_payload {
            return Err(Error::FrameTooLarge { len: payload.len(), limit: self.max_payload });
        }
        proof {
            use_type_invariant(&*out);
        }
        let ghost start = *out;
        out.write_bytes(payload)?;
        let ghost mid = *out;
        let r = out.write_bytes(self.delimiter);
        proof {
            if r is Ok {
                crate::buf::lemma_wrote_chain(start, mid, *out, payload@, self.spec_delimiter());
            }
        }
        r
    }
}

/// The scan finds the first occurrence: with none in `[i, t)` and one at `t`,
/// it answers `t`.
pub proof fn lemma_find_from_first(haystack: Seq<u8>, needle: Seq<u8>, i: nat, t: nat)
    requires
        i <= t,
        matches_at(haystack, needle, t as int),
        forall|j: int| i <= j < t ==> !matches_at(haystack, needle, j),
    ensures
        find_from(haystack, needle, i) == Some(t),
    decreases t - i,
{
    if i < t {
        lemma_find_from_first(haystack, needle, i + 1, t);
    }
}

/// Round trip: a payload within the limit in which the delimiter does not
/// start before the payload's end, followed by the delimiter and anything
/// else, reads back as that payload, consuming the payload and the delimiter.
pub proof fn law_round_trip(d: Delimited, payload: Seq<u8>, rest: Seq<u8>)
    requires
        payload.len() <= d.spec_max_payload(),
        payload.len() + d.spec_delimiter().len() + rest.len() <= usize::MAX,
        forall|i: int|
            0 <= i < payload.len() ==> !matches_at(
                payload + d.spec_delimiter(),
                d.spec_delimiter(),
                i,
            ),
    ensures
        d.spec_next_frame(payload + d.spec_delimiter() + rest) == Ok::<
            Option<(Seq<u8>, nat)>,
            Error,
        >(Some((payload, payload.len() + d.spec_delimiter().len()))),
{
    let dl = d.spec_delimiter();
    let framed = payload + dl;
    let input = framed + rest;
    let scan = if input.len() > d.window() {
        input.take(d.window() as int)
    } else {
        input
    };
    assert(scan.subrange(payload.len() as int, (payload.len() + dl.len()) as int) =~= dl);
    assert(scan.len() >= framed.len());
    assert forall|j: int| 0 <= j < payload.len() implies !matches_at(scan, dl, j) by {
        assert(!matches_at(framed, dl, j));
        assert(scan.subrange(j, j + dl.len()) =~= framed.subrange(j, j + dl.len()));
    }
    lemma_find_from_first(scan, dl, 0, payload.len());
    assert(input.take(payload.len() as int) =~= payload);
}

/// A frame lies inside the input: its payload is a prefix of the input, the
/// delimiter follows it, and the frame consumes both.
pub proof fn law_frame_within_input(d: Delimited, input: Seq<u8>)
    ensures
        d.spec_next_frame(input) matches Ok(Some((p, c))) ==> {
            &&& c <= input.len()
            &&& c == p.len() + d.spec_delimiter().len()
            &&& p == input.take(p.len() as int)
            &&& input.subrange(p.len() as int, c as int) == d.spec_delimiter()
        },
{
    let dl = d.spec_delimiter();
    let scan = if input.len() > d.window() {
        input.take(d.window() as int)
    } else {
        input
    };
    lemma_find_from_matches(scan, dl, 0);
    if let Some(p) = first_match(scan, dl) {
        assert(input.subrange(p as int, (p + dl.len()) as int) =~= scan.subrange(p as int, (p + dl.len()) as int));
    }
}

/// A match found by the scan is an occurrence.
pub proof fn lemma_find_from_matches(haystack: Seq<u8>, needle: Seq<u8>, i: nat)
    ensures
        find_from(haystack, needle, i) matches Some(p) ==> i <= p && matches_at(
            haystack,
            needle,
            p as int,
        ),
    decreases haystack.len() + 1 - i,
{
    if i + needle.len() <= haystack.len() && !matches_at(haystack, needle, i as int) {
        lemma_find_from_matches(haystack, needle, i + 1);
    }
}


/// What the scan from `i` answers: the first occurrence at or after `i`, or
/// `None` when there is none.
proof fn lemma_find_from_first_or_none(haystack: Seq<u8>, needle: Seq<u8>, i: nat)
    ensures
        match find_from(haystack, needle, i) {
            Some(p) => {
                &&& i <= p
                &&& matches_at(haystack, needle, p as int)
                &&& forall|j: int| i <= j < p ==> !matches_at(haystack, needle, j)
            },
            None => forall|j: int| i <= j ==> !matches_at(haystack, needle, j),
        },
    decreases haystack.len() + 1 - i,
{
    if i + needle.len() <= haystack.len() && !matches_at(haystack, needle, i as int) {
        lemma_find_from_first_or_none(haystack, needle, i + 1);
    }
}

/// What `next_frame` answers, stated without the scan window: the bytes
/// before the first occurrence of the delimiter when it starts within the
/// payload limit, consuming them and the delimiter; otherwise
/// [`Error::FrameTooLarge`] with the input's length once the input is longer
/// than the limit plus the delimiter, and a request for more bytes before
/// that.
pub proof fn law_next_frame_direct(d: Delimited, input: Seq<u8>)
    requires
        input.len() <= usize::MAX,
    ensures
        ({
            let dl = d.spec_delimiter();
            let m = d.spec_max_payload();
            let found = first_match(input, dl);
            if found is Some && found->0 <= m {
                d.spec_next_frame(input) == Ok::<Option<(Seq<u8>, nat)>, Error>(
                    Some((input.take(found->0 as int), found->0 + dl.len())),
                )
            } else if input.len() > m + dl.len() {
                d.spec_next_frame(input) == Err::<Option<(Seq<u8>, nat)>, Error>(
                    Error::FrameTooLarge { len: input.len() as usize, limit: m as usize },
                )
            } else {
                d.spec_next_frame(input) == Ok::<Option<(Seq<u8>, nat)>, Error>(None)
            }
        }),
{
    let dl = d.spec_delimiter();
    let m = d.spec_max_payload();
    let w = d.window();
    let scan = if input.len() > w {
        input.take(w as int)
    } else {
        input
    };
    lemma_find_from_first_or_none(input, dl, 0);
    lemma_find_from_first_or_none(scan, dl, 0);
    // Below the window the scan and the input hold the same occurrences.
    assert forall|j: int| j + dl.len() <= scan.len() implies matches_at(scan, dl, j) == matches_at(
        input,
        dl,
        j,
    ) by {
        if 0 <= j {
            assert(scan.subrange(j, j + dl.len()) =~= input.subrange(j, j + dl.len()));
        }
    }
    match first_match(scan, dl) {
        Some(p) => {
            assert(p + dl.len() <= scan.len());
            assert forall|j: int| 0 <= j < p implies !matches_at(input, dl, j) by {
                assert(!matches_at(scan, dl, j));
            }
            lemma_find_from_first(input, dl, 0, p);
            if input.len() <= w {
                assert(p <= m);
            }
        },
        None => {
            if let Some(q) = first_match(input, dl) {
                if q <= m {
                    assert(q + dl.len() <= scan.len());
                    assert(matches_at(scan, dl, q as int));
                }
            }
        },
    }
}

} // verus!
