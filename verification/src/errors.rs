//! Error kinds of the library.
//!
//! Parsing a range or position expression fails with a [`ParseError`];
//! running an edit operation fails with a [`RunError`]. I/O failures are the
//! caller's concern: the operations themselves work on in-memory blocks.

use vstd::prelude::*;

verus! {

/// Why a range/position expression or a size token failed to parse.
#[derive(Debug, Clone, Copy, PartialEq, Eq, Structural)]
pub enum ParseError {
    /// The text does not match the grammar, or a size token is neither a
    /// valid byte-size string nor a valid hexadecimal number.
    Malformed,
    /// A `+`/`+=` expression was given a count of zero.
    CountZero,
    /// A `:`/`:=` expression was given an end that is not greater than its
    /// begin.
    EndNotAfterBegin,
    /// The resolved end offset does not fit in 64 bits.
    Overflow,
}

/// Why an edit operation refused to run.
#[derive(Debug, Clone, Copy, PartialEq, Eq, Structural)]
pub enum RunError {
    /// Insert and replace need a payload: neither a literal value nor a
    /// secondary source was supplied.
    MissingPayload,
    /// The range's inclusive end lies before its begin.
    EndBeforeBegin,
    /// Neither an input file nor standard input can serve as the source.
    NoSource,
    /// An in-place edit was requested without an input file.
    InPlaceNeedsFile,
}

} // verus!
