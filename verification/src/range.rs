//! Range expressions: `begin`, `begin:end`, `begin:=end`, `begin+count`,
//! `begin+=count`.
//!
//! A parsed [`Range`] holds a first affected byte offset and, optionally, an
//! inclusive last affected offset; an absent end means "through the end of
//! the stream". Both offsets are resolved from size tokens (see
//! [`crate::size`]).

use vstd::prelude::*;
use vstd::string::StringSliceAdditionalSpecFns;

use crate::errors::ParseError;
use crate::size::{is_digit, parse_pos_bytes, spec_parse_pos};

verus! {

/// A contiguous region of a byte stream: `begin` is the first affected
/// offset, `end` (when present) the inclusive last one; `end == None`
/// reaches to the end of the stream.
#[derive(Debug, Clone, Copy, PartialEq, Eq)]
pub struct Range {
    pub begin: u64,
    pub end: Option<u64>,
}

impl Range {
    /// A well-formed range never ends before it begins.
    pub open spec fn wf(self) -> bool {
        match self.end {
            Some(e) => self.begin <= e,
            None => true,
        }
    }
}

/// The four separators of the grammar.
#[derive(Debug, Clone, Copy, PartialEq, Eq, Structural)]
pub enum Separator {
    /// `+`: exclusive count.
    Plus,
    /// `+=`: inclusive count.
    PlusEq,
    /// `:`: exclusive end.
    Colon,
    /// `:=`: inclusive end.
    ColonEq,
}

/// A byte that starts a separator.
pub open spec fn is_sep(c: u8) -> bool {
    c == '+' as u8 || c == ':' as u8
}

/// Length of the run of non-separator bytes that starts the sequence.
pub open spec fn nonsep_prefix(s: Seq<u8>) -> nat
    decreases s.len(),
{
    if s.len() == 0 || is_sep(s[0]) {
        0
    } else {
        (1 + nonsep_prefix(s.skip(1))) as nat
    }
}

/// The non-separator run is exactly the first `k` elements when none of
/// those is a separator and the next element (if any) is one.
pub proof fn lemma_nonsep_prefix(s: Seq<u8>, k: int)
    requires
        0 <= k <= s.len(),
        forall|j: int| 0 <= j < k ==> !is_sep(#[trigger] s[j]),
        k == s.len() || is_sep(s[k]),
    ensures
        nonsep_prefix(s) == k,
    decreases k,
{
    if k == 0 {
    } else {
        assert(!is_sep(s[0]));
        assert forall|j: int| 0 <= j < k - 1 implies !is_sep(#[trigger] s.skip(1)[j]) by {
            assert(s.skip(1)[j] == s[j + 1]);
        }
        if k < s.len() {
            assert(s.skip(1)[k - 1] == s[k]);
        }
        lemma_nonsep_prefix(s.skip(1), k - 1);
    }
}

/// A size token of a range expression: it must open with a decimal digit;
/// its value is the token's size reading.
pub open spec fn spec_token(t: Seq<u8>) -> Option<u64> {
    if t.len() > 0 && is_digit(t[0]) {
        spec_parse_pos(t)
    } else {
        None
    }
}

/// Resolves a separator's semantics: which inclusive end a begin/second
/// magnitude pair denotes, and when the pair is rejected.
pub open spec fn spec_resolve(begin: u64, sep: Separator, x: u64) -> Result<Range, ParseError> {
    match sep {
        Separator::Plus => {
            if x < 1 {
                Err(ParseError::CountZero)
            } else if begin + x - 1 > u64::MAX {
                Err(ParseError::Overflow)
            } else {
                Ok(Range { begin: begin, end: Some((begin + x - 1) as u64) })
            }
        },
        Separator::PlusEq => {
            if x < 1 {
                Err(ParseError::CountZero)
            } else if begin + x > u64::MAX {
                Err(ParseError::Overflow)
            } else {
                Ok(Range { begin: begin, end: Some((begin + x) as u64) })
            }
        },
        Separator::Colon => {
            if x <= begin {
                Err(ParseError::EndNotAfterBegin)
            } else {
                Ok(Range { begin: begin, end: Some((x - 1) as u64) })
            }
        },
        Separator::ColonEq => {
            if x <= begin {
                Err(ParseError::EndNotAfterBegin)
            } else {
                Ok(Range { begin: begin, end: Some(x) })
            }
        },
    }
}

/// The whole grammar: an expression is one token, or two tokens joined by a
/// separator, resolved by [`spec_resolve`].
pub open spec fn spec_parse_range(s: Seq<u8>) -> Result<Range, ParseError> {
    let i = nonsep_prefix(s) as int;
    if i == s.len() {
        match spec_token(s) {
            None => Err(ParseError::Malformed),
            Some(bg) => Ok(Range { begin: bg, end: None }),
        }
    } else {
        let eq_follows = i + 1 < s.len() && s[i + 1] == '=' as u8;
        let sep = if s[i] == ':' as u8 {
            if eq_follows {
                Separator::ColonEq
            } else {
                Separator::Colon
            }
        } else {
            if eq_follows {
                Separator::PlusEq
            } else {
                Separator::Plus
            }
        };
        let rest = if eq_follows {
            s.skip(i + 2)
        } else {
            s.skip(i + 1)
        };
        match spec_token(s.take(i)) {
            None => Err(ParseError::Malformed),
            Some(bg) => match spec_token(rest) {
                None => Err(ParseError::Malformed),
                Some(x) => spec_resolve(bg, sep, x),
            },
        }
    }
}

/// A parsed range never ends before it begins.
pub proof fn lemma_parse_range_wf(s: Seq<u8>)
    ensures
        spec_parse_range(s) is Ok ==> spec_parse_range(s).unwrap().wf(),
{
}

/// Law: the `:`-form and the `:=`-form are two spellings of one range.
/// `begin:x` resolves to inclusive end `x - 1`, exactly as `begin:=x-1`
/// does. (When `x == begin + 1` the `:`-form is valid but the `:=`-form
/// `begin:=begin` is rejected, so that pair is left out.)
pub proof fn lemma_colon_form_to_colon_eq_form(begin: u64, x: u64)
    requires
        begin + 1 < x,
    ensures
        spec_resolve(begin, Separator::Colon, x) == spec_resolve(
            begin,
            Separator::ColonEq,
            (x - 1) as u64,
        ),
        spec_resolve(begin, Separator::Colon, x) == Ok::<Range, ParseError>(
            Range { begin: begin, end: Some((x - 1) as u64) },
        ),
{
}

/// Law, the other direction: a valid `:=`-form `begin:=e` resolves exactly
/// as the `:`-form `begin:(e+1)` does. (When `e == u64::MAX` no `:`-form
/// can spell the pair, so it is left out.)
pub proof fn lemma_colon_eq_form_to_colon_form(begin: u64, e: u64)
    requires
        begin < e,
        e < u64::MAX,
    ensures
        spec_resolve(begin, Separator::ColonEq, e) == spec_resolve(
            begin,
            Separator::Colon,
            (e + 1) as u64,
        ),
        spec_resolve(begin, Separator::ColonEq, e) == Ok::<Range, ParseError>(
            Range { begin: begin, end: Some(e) },
        ),
{
}

/// A size token of a range expression.
fn token_value(t: &[u8]) -> (r: Option<u64>)
    ensures
        r == spec_token(t@),
{
    if t.len() > 0 && 48 <= t[0] && t[0] <= 57 {
        match parse_pos_bytes(t) {
            Ok(v) => Some(v),
            Err(_) => None,
        }
    } else {
        None
    }
}

/// Resolves a separator's semantics on parsed magnitudes.
fn resolve(begin: u64, sep: Separator, x: u64) -> (r: Result<Range, ParseError>)
    ensures
        r == spec_resolve(begin, sep, x),
{
    match sep {
        Separator::Plus => {
            if x < 1 {
                Err(ParseError::CountZero)
            } else if begin > u64::MAX - (x - 1) {
                Err(ParseError::Overflow)
            } else {
                Ok(Range { begin: begin, end: Some(begin + (x - 1)) })
            }
        },
        Separator::PlusEq => {
            if x < 1 {
                Err(ParseError::CountZero)
            } else if begin > u64::MAX - x {
                Err(ParseError::Overflow)
            } else {
                Ok(Range { begin: begin, end: Some(begin + x) })
            }
        },
        Separator::Colon => {
            if x <= begin {
                Err(ParseError::EndNotAfterBegin)
            } else {
                Ok(Range { begin: begin, end: Some(x - 1) })
            }
        },
        Separator::ColonEq => {
            if x <= begin {
                Err(ParseError::EndNotAfterBegin)
            } else {
                Ok(Range { begin: begin, end: Some(x) })
            }
        },
    }
}

/// Parses a range expression over raw bytes.
pub fn parse_range_bytes(b: &[u8]) -> (r: Result<Range, ParseError>)
    ensures
        r == spec_parse_range(b@),
        r is Ok ==> r.unwrap().wf(),
{
    proof {
        lemma_parse_range_wf(b@);
    }
    let n = b.len();
    let mut i: usize = 0;
    while i < n && b[i] != 43 && b[i] != 58
        invariant
            0 <= i <= n,
            n == b@.len(),
            forall|j: int| 0 <= j < i ==> !is_sep(#[trigger] b@[j]),
        decreases n - i,
    {
        i = i + 1;
    }
    proof {
        lemma_nonsep_prefix(b@, i as int);
    }
    if i == n {
        match token_value(b) {
            None => Err(ParseError::Malformed),
            Some(bg) => Ok(Range { begin: bg, end: None }),
        }
    } else {
        let eq_follows = i + 1 < n && b[i + 1] == 61;
        let sep = if b[i] == 58 {
            if eq_follows {
                Separator::ColonEq
            } else {
                Separator::Colon
            }
        } else {
            if eq_follows {
                Separator::PlusEq
            } else {
                Separator::Plus
            }
        };
        let rest_start = if eq_follows {
            i + 2
        } else {
            i + 1
        };
        let left = &b[0..i];
        let rest = &b[rest_start..n];
        proof {
            assert(left@ =~= b@.take(i as int));
            assert(rest@ =~= b@.skip(rest_start as int));
        }
        match token_value(left) {
            None => Err(ParseError::Malformed),
            Some(bg) => match token_value(rest) {
                None => Err(ParseError::Malformed),
                Some(x) => resolve(bg, sep, x),
            },
        }
    }
}

impl Range {
    /// Parses a range expression such as `0`, `512:1024`, `3M:=5mib` or
    /// `5+8`.
    pub fn from_str(s: &str) -> (r: Result<Range, ParseError>)
        ensures
            r == spec_parse_range(s.spec_bytes()),
            r is Ok ==> r.unwrap().wf(),
    {
        parse_range_bytes(s.as_bytes())
    }
}

} // verus!
