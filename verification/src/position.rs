//! Positions: the same expression grammar as [`crate::range`], packaged as
//! a begin offset with an optional inclusive end.

use vstd::prelude::*;
use vstd::string::StringSliceAdditionalSpecFns;

use crate::errors::ParseError;
use crate::range::{parse_range_bytes, spec_parse_range};

verus! {

/// A begin offset with an optional inclusive end offset.
#[derive(Debug, Clone, Copy, PartialEq, Eq)]
pub struct Position {
    pub begin: u64,
    pub end: Option<u64>,
}

impl Position {
    /// A well-formed position never ends before it begins.
    pub open spec fn wf(self) -> bool {
        match self.end {
            Some(e) => self.begin <= e,
            None => true,
        }
    }

    /// Parses a position expression; the grammar and its semantics are
    /// those of [`crate::range::spec_parse_range`].
    pub fn from_str(s: &str) -> (r: Result<Position, ParseError>)
        ensures
            match spec_parse_range(s.spec_bytes()) {
                Ok(rg) => r == Ok::<Position, ParseError>(
                    Position { begin: rg.begin, end: rg.end },
                ),
                Err(e) => r == Err::<Position, ParseError>(e),
            },
            r is Ok ==> r.unwrap().wf(),
    {
        match parse_range_bytes(s.as_bytes()) {
            Ok(rg) => Ok(Position { begin: rg.begin, end: rg.end }),
            Err(e) => Err(e),
        }
    }
}

} // verus!
