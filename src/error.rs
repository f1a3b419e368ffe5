use vstd::prelude::*;

verus! {

/// Why a table could not be read or rewritten.
#[derive(Clone, Copy, Debug, PartialEq, Eq, Structural)]
pub enum NxdError {
    /// A read ran past the end of the table's bytes.
    UnexpectedEof,
    /// Bad magic or format version, a bad row or localization type, or
    /// offsets that are out of range or inconsistent with each other.
    InvalidHeader,
    /// An unknown row type, or a table whose column layout is not known.
    UnsupportedFormat,
    /// The string that starts at `offset` is not valid UTF-8.
    Utf8Error { offset: u64 },
}

} // verus!
