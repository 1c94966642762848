//! Action expressions: a short command word, a begin offset, and an
//! optional behavior with an optional second offset, as in `d0:10`,
//! `add1` or `replace0`. Each parsing step returns the unconsumed rest of
//! the input beside its result.

use vstd::prelude::*;

use crate::errors::ParseError;

verus! {

/// The operation an action expression selects.
#[derive(Debug, Clone, Copy, PartialEq, Eq, Structural)]
pub enum ActionType {
    Add,
    Delete,
    Replace,
}

/// How the second offset of an action is read: `:` runs until it, `+`
/// counts from the begin.
#[derive(Debug, Clone, Copy, PartialEq, Eq, Structural)]
pub enum Behavior {
    Until,
    Length,
}

/// A fully parsed action expression.
#[derive(Debug, Clone, Copy, PartialEq, Eq)]
pub struct Action {
    pub action_type: ActionType,
    pub begin: usize,
    pub bhvr: Option<Behavior>,
    pub end: Option<usize>,
}

/// A parsed deletion expression: an action without the command word.
#[derive(Debug, Clone, Copy, PartialEq, Eq)]
pub struct DeleteAction {
    pub begin: usize,
    pub behavior: Option<Behavior>,
    pub end: Option<usize>,
}

/// ASCII decimal digit.
pub open spec fn is_digit_char(c: char) -> bool {
    48 <= c as u32 <= 57
}

/// ASCII letter.
pub open spec fn is_alpha_char(c: char) -> bool {
    65 <= c as u32 <= 90 || 97 <= c as u32 <= 122
}

/// Length of the run of decimal digits that starts the sequence.
pub open spec fn digit_prefix_chars(s: Seq<char>) -> nat
    decreases s.len(),
{
    if s.len() == 0 || !is_digit_char(s[0]) {
        0
    } else {
        (1 + digit_prefix_chars(s.skip(1))) as nat
    }
}

/// Length of the run of letters that starts the sequence.
pub open spec fn alpha_prefix_chars(s: Seq<char>) -> nat
    decreases s.len(),
{
    if s.len() == 0 || !is_alpha_char(s[0]) {
        0
    } else {
        (1 + alpha_prefix_chars(s.skip(1))) as nat
    }
}

/// The digit run is exactly the first `k` characters when those are digits
/// and the next character (if any) is not.
pub proof fn lemma_digit_prefix_chars(s: Seq<char>, k: int)
    requires
        0 <= k <= s.len(),
        forall|j: int| 0 <= j < k ==> is_digit_char(#[trigger] s[j]),
        k == s.len() || !is_digit_char(s[k]),
    ensures
        digit_prefix_chars(s) == k,
    decreases k,
{
    if k > 0 {
        assert(is_digit_char(s[0]));
        assert forall|j: int| 0 <= j < k - 1 implies is_digit_char(#[trigger] s.skip(1)[j]) by {
            assert(s.skip(1)[j] == s[j + 1]);
        }
        if k < s.len() {
            assert(s.skip(1)[k - 1] == s[k]);
        }
        lemma_digit_prefix_chars(s.skip(1), k - 1);
    }
}

/// The letter-run analogue of `lemma_digit_prefix_chars`.
pub proof fn lemma_alpha_prefix_chars(s: Seq<char>, k: int)
    requires
        0 <= k <= s.len(),
        forall|j: int| 0 <= j < k ==> is_alpha_char(#[trigger] s[j]),
        k == s.len() || !is_alpha_char(s[k]),
    ensures
        alpha_prefix_chars(s) == k,
    decreases k,
{
    if k > 0 {
        assert(is_alpha_char(s[0]));
        assert forall|j: int| 0 <= j < k - 1 implies is_alpha_char(#[trigger] s.skip(1)[j]) by {
            assert(s.skip(1)[j] == s[j + 1]);
        }
        if k < s.len() {
            assert(s.skip(1)[k - 1] == s[k]);
        }
        lemma_alpha_prefix_chars(s.skip(1), k - 1);
    }
}

/// Value of a run of decimal digit characters, most significant first.
pub open spec fn char_digits_val(s: Seq<char>) -> int
    decreases s.len(),
{
    if s.len() == 0 {
        0
    } else {
        char_digits_val(s.drop_last()) * 10 + (s.last() as u32 - 48)
    }
}

/// Appending one digit multiplies by ten and adds the digit.
pub proof fn lemma_char_digits_val_step(s: Seq<char>, j: int)
    requires
        0 <= j < s.len(),
    ensures
        char_digits_val(s.take(j + 1)) == char_digits_val(s.take(j)) * 10 + (s[j] as u32 - 48),
{
    assert(s.take(j + 1).drop_last() =~= s.take(j));
    assert(s.take(j + 1).last() == s[j]);
}

/// The value of a digit run is non-negative.
pub proof fn lemma_char_digits_val_nonneg(s: Seq<char>)
    requires
        forall|i: int| 0 <= i < s.len() ==> is_digit_char(#[trigger] s[i]),
    ensures
        char_digits_val(s) >= 0,
    decreases s.len(),
{
    if s.len() > 0 {
        assert(forall|i: int|
            0 <= i < s.drop_last().len() ==> is_digit_char(#[trigger] s.drop_last()[i]));
        lemma_char_digits_val_nonneg(s.drop_last());
    }
}

/// The value of a digit run never shrinks as the run is extended.
pub proof fn lemma_char_digits_val_mono(s: Seq<char>, j: int, m: int)
    requires
        0 <= j <= m <= s.len(),
        forall|i: int| 0 <= i < s.len() ==> is_digit_char(#[trigger] s[i]),
    ensures
        char_digits_val(s.take(j)) <= char_digits_val(s.take(m)),
    decreases m - j,
{
    if j < m {
        lemma_char_digits_val_mono(s, j, m - 1);
        lemma_char_digits_val_step(s, m - 1);
        assert(forall|i: int|
            0 <= i < s.take(m - 1).len() ==> is_digit_char(#[trigger] s.take(m - 1)[i]));
        lemma_char_digits_val_nonneg(s.take(m - 1));
        assert(char_digits_val(s.take(m - 1)) * 10 >= char_digits_val(s.take(m - 1)))
            by (nonlinear_arith)
            requires
                char_digits_val(s.take(m - 1)) >= 0,
        ;
    }
}

/// What `number` consumes and yields: the leading digit run, as a machine
/// integer, beside the rest of the input.
pub open spec fn spec_number(s: Seq<char>) -> Result<(Seq<char>, usize), ParseError> {
    let d = digit_prefix_chars(s) as int;
    if d == 0 {
        Err(ParseError::Malformed)
    } else {
        let v = char_digits_val(s.take(d));
        if v > usize::MAX {
            Err(ParseError::Malformed)
        } else {
            Ok((s.skip(d), v as usize))
        }
    }
}

/// What `behavior` consumes and yields: one `:` or `+` character.
pub open spec fn spec_behavior(s: Seq<char>) -> Result<(Seq<char>, Behavior), ParseError> {
    if s.len() == 0 {
        Err(ParseError::Malformed)
    } else if s[0] == ':' {
        Ok((s.skip(1), Behavior::Until))
    } else if s[0] == '+' {
        Ok((s.skip(1), Behavior::Length))
    } else {
        Err(ParseError::Malformed)
    }
}

impl ActionType {
    /// Which operation a command word names.
    pub open spec fn from_spec(s: Seq<char>) -> Result<ActionType, ()> {
        if s == "d"@ || s == "del"@ || s == "delete"@ {
            Ok(ActionType::Delete)
        } else if s == "a"@ || s == "add"@ {
            Ok(ActionType::Add)
        } else if s == "r"@ || s == "replace"@ || s == "rpl"@ {
            Ok(ActionType::Replace)
        } else {
            Err(())
        }
    }

    /// Maps a command word to its operation: `d`, `del` and `delete`
    /// delete; `a` and `add` add; `r`, `rpl` and `replace` replace.
    pub fn from(input: &str) -> (r: Result<ActionType, ()>)
        ensures
            r == Self::from_spec(input@),
    {
        if str_eq(input, "d") || str_eq(input, "del") || str_eq(input, "delete") {
            Ok(ActionType::Delete)
        } else if str_eq(input, "a") || str_eq(input, "add") {
            Ok(ActionType::Add)
        } else if str_eq(input, "r") || str_eq(input, "replace") || str_eq(input, "rpl") {
            Ok(ActionType::Replace)
        } else {
            Err(())
        }
    }
}

impl Behavior {
    /// Which reading a separator character selects.
    pub open spec fn from_spec(s: Seq<char>) -> Result<Behavior, ()> {
        if s == ":"@ {
            Ok(Behavior::Until)
        } else if s == "+"@ {
            Ok(Behavior::Length)
        } else {
            Err(())
        }
    }

    /// Maps a separator to its reading: `:` runs until the second offset,
    /// `+` counts from the begin.
    pub fn from(input: &str) -> (r: Result<Behavior, ()>)
        ensures
            r == Self::from_spec(input@),
    {
        if str_eq(input, ":") {
            Ok(Behavior::Until)
        } else if str_eq(input, "+") {
            Ok(Behavior::Length)
        } else {
            Err(())
        }
    }
}

/// What `action_type` consumes and yields: the leading letter run, read as
/// a command word.
pub open spec fn spec_action_type(s: Seq<char>) -> Result<(Seq<char>, ActionType), ParseError> {
    let a = alpha_prefix_chars(s) as int;
    if a == 0 {
        Err(ParseError::Malformed)
    } else {
        match ActionType::from_spec(s.take(a)) {
            Ok(t) => Ok((s.skip(a), t)),
            Err(_) => Err(ParseError::Malformed),
        }
    }
}

/// What `action` yields: a command word, a begin offset, and an optional
/// behavior and second offset.
pub open spec fn spec_action(s: Seq<char>) -> Result<(Seq<char>, Action), ParseError> {
    match spec_action_type(s) {
        Err(e) => Err(e),
        Ok((r1, at)) => match spec_number(r1) {
            Err(e) => Err(e),
            Ok((r2, bg)) => {
                let (r3, bh) = match spec_behavior(r2) {
                    Ok((r, b)) => (r, Some(b)),
                    Err(_) => (r2, None),
                };
                let (r4, en) = match spec_number(r3) {
                    Ok((r, v)) => (r, Some(v)),
                    Err(_) => (r3, None),
                };
                Ok((r4, Action { action_type: at, begin: bg, bhvr: bh, end: en }))
            },
        },
    }
}

/// What `del_action` yields: an action without the command word.
pub open spec fn spec_del_action(s: Seq<char>) -> Result<(Seq<char>, DeleteAction), ParseError> {
    match spec_number(s) {
        Err(e) => Err(e),
        Ok((r1, bg)) => {
            let (r2, bh) = match spec_behavior(r1) {
                Ok((r, b)) => (r, Some(b)),
                Err(_) => (r1, None),
            };
            let (r3, en) = match spec_number(r2) {
                Ok((r, v)) => (r, Some(v)),
                Err(_) => (r2, None),
            };
            Ok((r3, DeleteAction { begin: bg, behavior: bh, end: en }))
        },
    }
}

/// Character-for-character string equality.
fn str_eq(a: &str, b: &str) -> (r: bool)
    ensures
        r == (a@ == b@),
{
    let n = a.unicode_len();
    let m = b.unicode_len();
    if n != m {
        return false;
    }
    let mut i: usize = 0;
    while i < n
        invariant
            0 <= i <= n,
            n == a@.len(),
            n == b@.len(),
            forall|j: int| 0 <= j < i ==> a@[j] == b@[j],
        decreases n - i,
    {
        if a.get_char(i) != b.get_char(i) {
            return false;
        }
        i = i + 1;
    }
    proof {
        assert(a@ =~= b@);
    }
    true
}

/// Whether the character at `i` is a decimal digit.
fn digit_at(s: &str, i: usize) -> (r: bool)
    requires
        i < s@.len(),
    ensures
        r == is_digit_char(s@[i as int]),
{
    let c = s.get_char(i) as u32;
    48 <= c && c <= 57
}

/// Whether the character at `i` is a letter.
fn alpha_at(s: &str, i: usize) -> (r: bool)
    requires
        i < s@.len(),
    ensures
        r == is_alpha_char(s@[i as int]),
{
    let c = s.get_char(i) as u32;
    (65 <= c && c <= 90) || (97 <= c && c <= 122)
}

/// Reads the decimal number that starts the input; the rest of the input
/// is returned beside it.
pub fn number<'a>(input: &'a str) -> (r: Result<(&'a str, usize), ParseError>)
    ensures
        (match (r, spec_number(input@)) {
            (Ok(got), Ok(want)) => got.0@ == want.0 && got.1 == want.1,
            (Err(e1), Err(e2)) => e1 == e2,
            _ => false,
        }),
{
    let n = input.unicode_len();
    let mut i: usize = 0;
    while i < n && digit_at(input, i)
        invariant
            0 <= i <= n,
            n == input@.len(),
            forall|j: int| 0 <= j < i ==> is_digit_char(#[trigger] input@[j]),
        decreases n - i,
    {
        i = i + 1;
    }
    proof {
        lemma_digit_prefix_chars(input@, i as int);
    }
    if i == 0 {
        return Err(ParseError::Malformed);
    }

    let mut v: usize = 0;
    let mut j: usize = 0;
    while j < i
        invariant
            0 <= j <= i <= n,
            n == input@.len(),
            digit_prefix_chars(input@) == i,
            forall|q: int| 0 <= q < i ==> is_digit_char(#[trigger] input@[q]),
            v == char_digits_val(input@.take(j as int)),
        decreases i - j,
    {
        let d = input.get_char(j) as u32 - 48;
        let t: u128 = (v as u128) * 10 + (d as u128);
        proof {
            lemma_char_digits_val_step(input@, j as int);
        }
        if t > usize::MAX as u128 {
            proof {
                assert forall|q: int| 0 <= q < input@.take(i as int).len()
                    implies is_digit_char(#[trigger] input@.take(i as int)[q]) by {
                    assert(is_digit_char(input@[q]));
                }
                lemma_char_digits_val_mono(input@.take(i as int), j as int + 1, i as int);
                assert(input@.take(i as int).take(j as int + 1) =~= input@.take(j as int + 1));
                assert(input@.take(i as int).take(i as int) =~= input@.take(i as int));
            }
            return Err(ParseError::Malformed);
        }
        v = t as usize;
        j = j + 1;
    }
    Ok((input.substring_char(i, n), v))
}

/// Reads the behavior character that starts the input: `:` or `+`.
pub fn behavior<'a>(input: &'a str) -> (r: Result<(&'a str, Behavior), ParseError>)
    ensures
        (match (r, spec_behavior(input@)) {
            (Ok(got), Ok(want)) => got.0@ == want.0 && got.1 == want.1,
            (Err(e1), Err(e2)) => e1 == e2,
            _ => false,
        }),
{
    let n = input.unicode_len();
    if n == 0 {
        return Err(ParseError::Malformed);
    }
    let c = input.get_char(0);
    if c == ':' {
        Ok((input.substring_char(1, n), Behavior::Until))
    } else if c == '+' {
        Ok((input.substring_char(1, n), Behavior::Length))
    } else {
        Err(ParseError::Malformed)
    }
}

/// Reads the command word that starts the input.
pub fn action_type<'a>(input: &'a str) -> (r: Result<(&'a str, ActionType), ParseError>)
    ensures
        (match (r, spec_action_type(input@)) {
            (Ok(got), Ok(want)) => got.0@ == want.0 && got.1 == want.1,
            (Err(e1), Err(e2)) => e1 == e2,
            _ => false,
        }),
{
    let n = input.unicode_len();
    let mut i: usize = 0;
    while i < n && alpha_at(input, i)
        invariant
            0 <= i <= n,
            n == input@.len(),
            forall|j: int| 0 <= j < i ==> is_alpha_char(#[trigger] input@[j]),
        decreases n - i,
    {
        i = i + 1;
    }
    proof {
        lemma_alpha_prefix_chars(input@, i as int);
    }
    if i == 0 {
        return Err(ParseError::Malformed);
    }
    let word = input.substring_char(0, i);
    match ActionType::from(word) {
        Ok(t) => Ok((input.substring_char(i, n), t)),
        Err(_) => Err(ParseError::Malformed),
    }
}

/// Parses a whole action expression, such as `d0:10` or `replace0`.
pub fn action<'a>(input: &'a str) -> (r: Result<(&'a str, Action), ParseError>)
    ensures
        (match (r, spec_action(input@)) {
            (Ok(got), Ok(want)) => got.0@ == want.0 && got.1 == want.1,
            (Err(e1), Err(e2)) => e1 == e2,
            _ => false,
        }),
{
    let (r1, at) = match action_type(input) {
        Ok(p) => p,
        Err(e) => {
            return Err(e);
        },
    };
    let (r2, bg) = match number(r1) {
        Ok(p) => p,
        Err(e) => {
            return Err(e);
        },
    };
    let (r3, bh) = match behavior(r2) {
        Ok((rest, b)) => (rest, Some(b)),
        Err(_) => (r2, None),
    };
    let (r4, en) = match number(r3) {
        Ok((rest, v)) => (rest, Some(v)),
        Err(_) => (r3, None),
    };
    Ok((r4, Action { action_type: at, begin: bg, bhvr: bh, end: en }))
}

/// Parses a deletion expression: an action expression without the command
/// word, such as `0:10`.
pub fn del_action<'a>(input: &'a str) -> (r: Result<(&'a str, DeleteAction), ParseError>)
    ensures
        (match (r, spec_del_action(input@)) {
            (Ok(got), Ok(want)) => got.0@ == want.0 && got.1 == want.1,
            (Err(e1), Err(e2)) => e1 == e2,
            _ => false,
        }),
{
    let (r1, bg) = match number(input) {
        Ok(p) => p,
        Err(e) => {
            return Err(e);
        },
    };
    let (r2, bh) = match behavior(r1) {
        Ok((rest, b)) => (rest, Some(b)),
        Err(_) => (r1, None),
    };
    let (r3, en) = match number(r2) {
        Ok((rest, v)) => (rest, Some(v)),
        Err(_) => (r2, None),
    };
    Ok((r3, DeleteAction { begin: bg, behavior: bh, end: en }))
}

} // verus!
