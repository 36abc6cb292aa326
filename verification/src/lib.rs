//! # wire-codec
//!
//! A runtime-agnostic toolkit for binary framing and codec composition:
//! zero-copy buffer cursors, LEB128 varint and zigzag integer codecs,
//! MSB-first bit cursors, and length-prefixed and delimited frame extraction.
//!
//! | Module | Provides |
//! | ------ | -------- |
//! | [`buf`] | [`ReadBuf`] and [`WriteBuf`], the zero-copy byte cursors every other module is built on. |
//! | [`error`] | [`Error`] and [`Result`], the crate-wide error contract. |
//! | [`traits`] | [`Encode`] and [`Decode`], the codec trait pair. |
//! | [`varint`] | Unsigned LEB128 varint for `u32` and `u64`. |
//! | [`zigzag`] | Signed-to-unsigned mapping for compact signed varints. |
//! | [`bitfield`] | [`BitReader`] and [`BitWriter`] for MSB-first packed bits. |
//! | [`framing`] | The [`Framer`][`framing::Framer`] trait plus the length-prefixed and delimited strategies. |
//!
//! Every operation carries a contract over a mathematical model of bytes,
//! bits and numbers, and Verus proves the code against it.

pub mod bitfield;
pub mod buf;
pub mod error;
pub mod framing;
pub mod traits;
pub mod varint;
pub mod zigzag;

pub use bitfield::{BitReader, BitWriter};
pub use buf::{ReadBuf, WriteBuf};
pub use error::{Error, Result};
pub use traits::{Decode, Encode};

use vstd::prelude::*;

verus! {

/// Crate version string.
pub const VERSION: &'static str = "0.9.0";

} // verus!
