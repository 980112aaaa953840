//! The ways in which an escape sequence can be malformed.

use vstd::prelude::*;

verus! {

/// Why an escape sequence was rejected.
#[derive(Debug, PartialEq, Eq, Clone, Copy, Structural)]
pub enum AnsiError {
    /// A digit sequence stands for a value above 255.
    NumberParse,
    /// The escape marker is not followed by `[`.
    InvalidStartBrace,
    /// A separator, a selector or the number of fields is wrong.
    InvalidFormat,
    /// A numeric field is longer than three characters.
    TooLong,
    /// The numeric code has no meaning here.
    IllegalCommand,
}

} // verus!
