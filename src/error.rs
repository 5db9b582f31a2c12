use vstd::prelude::*;

verus! {

/// Why an encode or a decode failed.
#[derive(Debug, Clone, Copy, PartialEq, Eq, Structural)]
pub enum CodecError {
    /// The input ended before the item did.
    Io,
    /// A text string is not valid UTF-8.
    Utf8,
    /// A length does not fit in `usize`, or a link's byte string is empty.
    LengthOutOfRange,
    /// An integer lies outside `[-2^64, 2^64 - 1]`, or outside the type read into.
    NumberOutOfRange,
    /// The leading byte is not valid for what was asked for.
    UnexpectedCode,
    /// A tag other than the single-byte tag 42.
    UnknownTag,
    /// A link's byte string does not start with the zero byte; holds that byte.
    InvalidCidPrefix(u8),
    /// A link's bytes do not form a content identifier.
    InvalidCid,
    /// A key other than the one expected.
    UnexpectedKey,
}

} // verus!
