//! Frame extraction strategies.
//!
//! A [`Framer`] is a stateless protocol that locates and emits one frame at a
//! time from a borrowed byte slice. Frames are described by [`Frame`], which
//! carries a zero-copy reference to the payload alongside the count of bytes
//! the framer consumed from the input.
//!
//! Two concrete framers ship with the crate:
//!
//! - [`length::LengthPrefixed`] for fixed-width length-prefixed protocols.
//! - [`delimiter::Delimited`] for byte-delimited protocols such as newline-
//!   terminated text.

pub mod delimiter;
pub mod length;

pub use delimiter::Delimited;
pub use length::{Endian, LengthPrefixed, LengthWidth};

use crate::buf::WriteBuf;
use crate::error::Result;
use vstd::prelude::*;

verus! {

/// A frame extracted from an input byte slice.
///
/// The `payload` borrow lives as long as the input slice, so framers never
/// copy data. `consumed` tells the caller how many bytes from the input the
/// frame occupied in total, including any header or delimiter bytes.
#[derive(Debug, Clone, Copy, PartialEq, Eq)]
pub struct Frame<'a> {
    payload: &'a [u8],
    consumed: usize,
}

impl<'a> View for Frame<'a> {
    /// The payload bytes and the consumed-byte count.
    type V = (Seq<u8>, nat);

    closed spec fn view(&self) -> (Seq<u8>, nat) {
        (self.payload@, self.consumed as nat)
    }
}

impl<'a> Frame<'a> {
    /// Construct a frame from its payload and total consumed-byte count.
    ///
    /// `consumed` should be at least `payload.len()`; framers in this crate
    /// uphold that invariant.
    pub fn new(payload: &'a [u8], consumed: usize) -> (r: Self)
        ensures
            r@ == (payload@, consumed as nat),
    {
        Frame { payload, consumed }
    }

    /// Zero-copy borrow of the frame payload.
    pub fn payload(&self) -> (r: &'a [u8])
        ensures
            r@ == self@.0,
    {
        self.payload
    }

    /// Number of bytes the framer consumed from the input to produce this frame.
    pub fn consumed(&self) -> (r: usize)
        ensures
            r == self@.1,
    {
        self.consumed
    }
}

/// The model of a framer's answer: an error, "need more bytes", or a frame
/// given by its payload and consumed-byte count.
pub open spec fn frame_result_view<'a>(r: Result<Option<Frame<'a>>>) -> Result<Option<(Seq<u8>, nat)>> {
    match r {
        Ok(Some(f)) => Ok(Some(f@)),
        Ok(None) => Ok(None),
        Err(e) => Err(e),
    }
}

/// Strategy that extracts and emits one frame at a time.
///
/// Implementations are stateless: each call to [`Framer::next_frame`] is
/// independent. To process a stream, the caller advances their own read
/// position by [`Frame::consumed`] after each successful call.
pub trait Framer {
    /// Try to extract a single frame from the start of `input`.
    ///
    /// Returns `Ok(Some(frame))` when a complete frame is available,
    /// `Ok(None)` when more bytes are needed, and `Err(_)` when the input
    /// violates the protocol. Each concrete framer states its own contract.
    fn next_frame<'a>(&self, input: &'a [u8]) -> Result<Option<Frame<'a>>>;

    /// Serialize `payload` as a single frame into `out`.
    ///
    /// Each concrete framer states its own contract.
    fn write_frame(&self, payload: &[u8], out: &mut WriteBuf<'_>) -> Result<()>;
}

} // verus!
