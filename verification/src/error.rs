//! Error type returned by codec and framing operations.
//!
//! All fallible APIs in this crate return [`Result<T>`][`crate::Result`], which is
//! [`core::result::Result<T, Error>`]. The [`Error`] enum is `#[non_exhaustive]`
//! so future variants can be added without breaking semver.

use vstd::prelude::*;
use vstd::string::StringExecFns;

verus! {

/// Errors returned by codec and framing operations.
#[non_exhaustive]
#[derive(Debug, Clone, Copy, PartialEq, Eq, Structural)]
pub enum Error {
    /// Reader ran out of bytes before the requested value could be decoded.
    UnexpectedEof,
    /// Writer ran out of capacity before the requested value could be encoded.
    BufferFull,
    /// A varint exceeded the maximum encoded length for its target width.
    VarintOverflow,
    /// A frame's declared length exceeds the configured limit for the framer.
    FrameTooLarge {
        /// Frame length advertised by the protocol.
        len: usize,
        /// Configured upper bound enforced by the framer.
        limit: usize,
    },
    /// A length prefix was structurally invalid (e.g. width zero, or a width
    /// larger than the codec supports).
    InvalidLengthPrefix,
    /// A delimiter byte sequence was not found within the available input.
    DelimiterNotFound,
    /// Decoded data violated a structural invariant required by the codec.
    InvalidEncoding,
    /// A bit-level write requested more bits than the target type can hold,
    /// or a value did not fit in the requested bit width.
    BitOverflow,
    /// A delimited-framer constructor was given an empty delimiter, which
    /// cannot uniquely separate frames.
    EmptyDelimiter,
}

/// The character of decimal digit `d`.
pub open spec fn digit_char(d: nat) -> char {
    (48 + d) as char
}

/// The decimal representation of `n`, without leading zeros.
pub open spec fn decimal(n: nat) -> Seq<char>
    decreases n,
{
    if n < 10 {
        seq![digit_char(n)]
    } else {
        decimal(n / 10).push(digit_char(n % 10))
    }
}

/// The one-character string of decimal digit `d`.
fn digit_str(d: usize) -> (r: &'static str)
    requires
        d < 10,
    ensures
        r@ == seq![digit_char(d as nat)],
{
    match d {
        0 => {
            proof {
                reveal_strlit("0");
            }
            "0"
        },
        1 => {
            proof {
                reveal_strlit("1");
            }
            "1"
        },
        2 => {
            proof {
                reveal_strlit("2");
            }
            "2"
        },
        3 => {
            proof {
                reveal_strlit("3");
            }
            "3"
        },
        4 => {
            proof {
                reveal_strlit("4");
            }
            "4"
        },
        5 => {
            proof {
                reveal_strlit("5");
            }
            "5"
        },
        6 => {
            proof {
                reveal_strlit("6");
            }
            "6"
        },
        7 => {
            proof {
                reveal_strlit("7");
            }
            "7"
        },
        8 => {
            proof {
                reveal_strlit("8");
            }
            "8"
        },
        _ => {
            proof {
                reveal_strlit("9");
            }
            "9"
        },
    }
}

/// Append the decimal representation of `n` to `s`.
fn push_decimal(s: &mut String, n: usize)
    ensures
        final(s)@ == old(s)@ + decimal(n as nat),
    decreases n,
{
    if n >= 10 {
        push_decimal(s, n / 10);
    }
    s.append(digit_str(n % 10));
    proof {
        if n >= 10 {
            assert(old(s)@ + decimal((n / 10) as nat) + seq![digit_char((n % 10) as nat)] =~= old(s)@
                + decimal(n as nat));
        } else {
            assert(decimal(n as nat) == seq![digit_char((n % 10) as nat)]);
        }
    }
}

impl Error {
    /// The human-readable description of this error.
    pub open spec fn spec_message(&self) -> Seq<char> {
        match *self {
            Error::UnexpectedEof => "unexpected end of input"@,
            Error::BufferFull => "output buffer is full"@,
            Error::VarintOverflow => "varint encoded length exceeded the target width"@,
            Error::FrameTooLarge { len, limit } => "frame length "@ + decimal(len as nat)
                + " exceeds configured limit "@ + decimal(limit as nat),
            Error::InvalidLengthPrefix => "length prefix is structurally invalid"@,
            Error::DelimiterNotFound => "delimiter not found in input"@,
            Error::InvalidEncoding => "encoded data violates a structural invariant"@,
            Error::BitOverflow => "bit width or value out of range"@,
            Error::EmptyDelimiter => "delimiter must be non-empty"@,
        }
    }

    /// The human-readable description of this error, as its display text.
    pub fn message(&self) -> (r: String)
        ensures
            r@ == self.spec_message(),
    {
        match *self {
            Error::UnexpectedEof => String::from_str("unexpected end of input"),
            Error::BufferFull => String::from_str("output buffer is full"),
            Error::VarintOverflow => String::from_str(
                "varint encoded length exceeded the target width",
            ),
            Error::FrameTooLarge { len, limit } => {
                let mut s = String::from_str("frame length ");
                push_decimal(&mut s, len);
                s.append(" exceeds configured limit ");
                push_decimal(&mut s, limit);
                s
            },
            Error::InvalidLengthPrefix => String::from_str("length prefix is structurally invalid"),
            Error::DelimiterNotFound => String::from_str("delimiter not found in input"),
            Error::InvalidEncoding => String::from_str(
                "encoded data violates a structural invariant",
            ),
            Error::BitOverflow => String::from_str("bit width or value out of range"),
            Error::EmptyDelimiter => String::from_str("delimiter must be non-empty"),
        }
    }
}

/// Result alias used throughout the crate.
pub type Result<T> = core::result::Result<T, Error>;

} // verus!
