//! Core traits implemented by every encodable value.
//!
//! [`Encode`] writes a value into a [`WriteBuf`]; [`Decode`] reads one out of a
//! [`ReadBuf`]. The traits are deliberately minimal so callers can compose them
//! with any framing strategy in the [`framing`][`crate::framing`] module.
//! Implementations state their own contracts; the one for `u8` is below.

use crate::buf::{ReadBuf, WriteBuf};
use crate::error::{Error, Result};
use vstd::prelude::*;

verus! {

/// A value that can be written to a [`WriteBuf`].
///
/// Implementors must guarantee that [`Encode::encoded_size`] returns the exact
/// number of bytes [`Encode::encode`] writes on success.
pub trait Encode {
    /// Number of bytes [`Encode::encode`] will write on success.
    fn encoded_size(&self) -> usize;

    /// Write `self` into `buf`, advancing its write position.
    ///
    /// Returns an error if `buf` lacks capacity for [`Encode::encoded_size`]
    /// bytes or if a sub-encoder reports an invariant violation.
    fn encode(&self, buf: &mut WriteBuf<'_>) -> Result<()>;
}

/// A value that can be read from a [`ReadBuf`].
///
/// The lifetime parameter `'de` ties the decoded value to the borrowed input,
/// enabling zero-copy decoding of borrowed payloads.
pub trait Decode<'de>: Sized {
    /// Read a value of `Self` from `buf`, advancing its read position.
    ///
    /// Returns an error if `buf` is exhausted before the value finishes, or if
    /// the encoded bytes violate the codec's structural rules.
    fn decode(buf: &mut ReadBuf<'de>) -> Result<Self>;
}

impl Encode for u8 {
    fn encoded_size(&self) -> (r: usize)
        ensures
            r == 1,
    {
        1
    }

    fn encode(&self, buf: &mut WriteBuf<'_>) -> (r: Result<()>)
        ensures
            old(buf).room() >= 1 ==> r is Ok && old(buf).wrote(&*final(buf), seq![*self]),
            old(buf).room() < 1 ==> r == Err::<(), Error>(Error::BufferFull) && *final(buf)
                == *old(buf),
    {
        buf.write_u8(*self)
    }
}

impl<'de> Decode<'de> for u8 {
    fn decode(buf: &mut ReadBuf<'de>) -> (r: Result<Self>)
        ensures
            old(buf).pos() < old(buf).data().len() ==> r == Ok::<u8, Error>(
                old(buf).data()[old(buf).pos() as int],
            ) && old(buf).advanced_by(&*final(buf), 1),
            old(buf).pos() >= old(buf).data().len() ==> r == Err::<u8, Error>(
                Error::UnexpectedEof,
            ) && *final(buf) == *old(buf),
    {
        buf.read_u8()
    }
}

} // verus!
