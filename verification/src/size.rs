//! Size tokens: the numeric atoms of range and position expressions.
//!
//! A token is either a decimal integer with an optional, case-insensitive
//! byte-size unit suffix (`15`, `15 B`, `2kib`, `3M`), or a hexadecimal
//! number with an optional `0x` prefix. The decimal form is tried first;
//! the hexadecimal reading is the fallback.

use vstd::prelude::*;
use vstd::string::StringSliceAdditionalSpecFns;

use crate::errors::ParseError;

verus! {

/// ASCII decimal digit.
pub open spec fn is_digit(c: u8) -> bool {
    48 <= c <= 57
}

/// ASCII space.
pub open spec fn is_space(c: u8) -> bool {
    c == 32
}

/// ASCII hexadecimal digit.
pub open spec fn is_hex_digit(c: u8) -> bool {
    is_digit(c) || 97 <= c <= 102 || 65 <= c <= 70
}

/// Upper-case ASCII letters folded to lower case; all else unchanged.
pub open spec fn lower(c: u8) -> u8 {
    if 65 <= c <= 90 {
        (c + 32) as u8
    } else {
        c
    }
}

/// Numeric value of one hexadecimal digit (0 on other bytes).
pub open spec fn hex_digit_val(c: u8) -> int {
    if is_digit(c) {
        c - 48
    } else if 97 <= c <= 102 {
        c - 87
    } else if 65 <= c <= 70 {
        c - 55
    } else {
        0
    }
}

/// Length of the run of decimal digits that starts the sequence.
pub open spec fn digit_prefix(s: Seq<u8>) -> nat
    decreases s.len(),
{
    if s.len() == 0 || !is_digit(s[0]) {
        0
    } else {
        (1 + digit_prefix(s.skip(1))) as nat
    }
}

/// Length of the run of spaces that starts the sequence.
pub open spec fn space_prefix(s: Seq<u8>) -> nat
    decreases s.len(),
{
    if s.len() == 0 || !is_space(s[0]) {
        0
    } else {
        (1 + space_prefix(s.skip(1))) as nat
    }
}

/// Value of a digit sequence read in the given base, most significant first.
/// `dv` gives each digit's value; non-digits contribute their `dv` as well,
/// so the function is total.
pub open spec fn radix_val(s: Seq<u8>, base: int, dv: spec_fn(u8) -> int) -> int
    decreases s.len(),
{
    if s.len() == 0 {
        0
    } else {
        radix_val(s.drop_last(), base, dv) * base + dv(s.last())
    }
}

/// Value of a decimal digit sequence.
pub open spec fn digits_val(s: Seq<u8>) -> int {
    radix_val(s, 10, |c: u8| c - 48)
}

/// Value of a hexadecimal digit sequence.
pub open spec fn hex_val(s: Seq<u8>) -> int {
    radix_val(s, 16, |c: u8| hex_digit_val(c))
}

/// Multiplier of a one-letter decimal unit (`k`, `m`, ..., `e`), lower case.
pub open spec fn dec_mult(c: u8) -> Option<u64> {
    if c == 'k' as u8 {
        Some(1_000u64)
    } else if c == 'm' as u8 {
        Some(1_000_000u64)
    } else if c == 'g' as u8 {
        Some(1_000_000_000u64)
    } else if c == 't' as u8 {
        Some(1_000_000_000_000u64)
    } else if c == 'p' as u8 {
        Some(1_000_000_000_000_000u64)
    } else if c == 'e' as u8 {
        Some(1_000_000_000_000_000_000u64)
    } else {
        None
    }
}

/// Multiplier of a one-letter binary unit (the first letter of `kib`, ...,
/// `eib`), lower case.
pub open spec fn bin_mult(c: u8) -> Option<u64> {
    if c == 'k' as u8 {
        Some(1024u64)
    } else if c == 'm' as u8 {
        Some(1_048_576u64)
    } else if c == 'g' as u8 {
        Some(1_073_741_824u64)
    } else if c == 't' as u8 {
        Some(1_099_511_627_776u64)
    } else if c == 'p' as u8 {
        Some(1_125_899_906_842_624u64)
    } else if c == 'e' as u8 {
        Some(1_152_921_504_606_846_976u64)
    } else {
        None
    }
}

/// Multiplier of a whole unit suffix, case-insensitive: empty or `b` is
/// bytes, a single letter or letter-`b` pair is a decimal unit, and a
/// letter-`ib` triple is a binary unit.
pub open spec fn unit_mult(u: Seq<u8>) -> Option<u64> {
    if u.len() == 0 {
        Some(1u64)
    } else if u.len() == 1 {
        if lower(u[0]) == 'b' as u8 {
            Some(1u64)
        } else {
            dec_mult(lower(u[0]))
        }
    } else if u.len() == 2 && lower(u[1]) == 'b' as u8 {
        dec_mult(lower(u[0]))
    } else if u.len() == 3 && lower(u[1]) == 'i' as u8 && lower(u[2]) == 'b' as u8 {
        bin_mult(lower(u[0]))
    } else {
        None
    }
}

/// The byte-size reading of a token: a non-empty digit run, optional
/// spaces, and a recognized unit suffix, provided the scaled value fits
/// in 64 bits.
pub open spec fn spec_parse_size(s: Seq<u8>) -> Option<u64> {
    let d = digit_prefix(s);
    if d == 0 {
        None
    } else {
        let rest = s.skip(d as int);
        let sp = space_prefix(rest);
        let u = rest.skip(sp as int);
        match unit_mult(u) {
            None => None,
            Some(m) => {
                let v = digits_val(s.take(d as int));
                if v * m <= u64::MAX {
                    Some((v * m) as u64)
                } else {
                    None
                }
            },
        }
    }
}

/// Every leading `0x` pair removed.
pub open spec fn strip_0x(s: Seq<u8>) -> Seq<u8>
    decreases s.len(),
{
    if s.len() >= 2 && s[0] == '0' as u8 && s[1] == 'x' as u8 {
        strip_0x(s.skip(2))
    } else {
        s
    }
}

/// What remains of a hexadecimal token once every leading `0x` pair and an
/// optional `+` sign are removed: the digits proper.
pub open spec fn hex_digits_part(s: Seq<u8>) -> Seq<u8> {
    let stripped = strip_0x(s);
    if stripped.len() > 0 && stripped[0] == '+' as u8 {
        stripped.skip(1)
    } else {
        stripped
    }
}

/// The hexadecimal reading of a token: after stripping `0x` prefixes and an
/// optional `+` sign, a non-empty run of hexadecimal digits whose value fits
/// in 64 bits.
pub open spec fn spec_parse_hex(s: Seq<u8>) -> Option<u64> {
    let h = hex_digits_part(s);
    if h.len() > 0 && (forall|i: int| 0 <= i < h.len() ==> is_hex_digit(#[trigger] h[i]))
        && hex_val(h) <= u64::MAX {
        Some(hex_val(h) as u64)
    } else {
        None
    }
}

/// A size token's value: the byte-size reading if it succeeds, otherwise
/// the hexadecimal reading.
pub open spec fn spec_parse_pos(s: Seq<u8>) -> Option<u64> {
    match spec_parse_size(s) {
        Some(v) => Some(v),
        None => spec_parse_hex(s),
    }
}

/// `spec_parse_pos` as a `Result`, the shape `parse_pos` returns.
pub open spec fn spec_pos_result(s: Seq<u8>) -> Result<u64, ParseError> {
    match spec_parse_pos(s) {
        Some(v) => Ok(v),
        None => Err(ParseError::Malformed),
    }
}

/// A digit run of a sequence is exactly its first `k` elements when those
/// are digits and the next element (if any) is not.
pub proof fn lemma_digit_prefix(s: Seq<u8>, k: int)
    requires
        0 <= k <= s.len(),
        forall|j: int| 0 <= j < k ==> is_digit(#[trigger] s[j]),
        k == s.len() || !is_digit(s[k]),
    ensures
        digit_prefix(s) == k,
    decreases k,
{
    if k == 0 {
    } else {
        assert(is_digit(s[0]));
        assert forall|j: int| 0 <= j < k - 1 implies is_digit(#[trigger] s.skip(1)[j]) by {
            assert(s.skip(1)[j] == s[j + 1]);
        }
        if k < s.len() {
            assert(s.skip(1)[k - 1] == s[k]);
        }
        lemma_digit_prefix(s.skip(1), k - 1);
    }
}

/// The space-run analogue of `lemma_digit_prefix`.
pub proof fn lemma_space_prefix(s: Seq<u8>, k: int)
    requires
        0 <= k <= s.len(),
        forall|j: int| 0 <= j < k ==> is_space(#[trigger] s[j]),
        k == s.len() || !is_space(s[k]),
    ensures
        space_prefix(s) == k,
    decreases k,
{
    if k == 0 {
    } else {
        assert(is_space(s[0]));
        assert forall|j: int| 0 <= j < k - 1 implies is_space(#[trigger] s.skip(1)[j]) by {
            assert(s.skip(1)[j] == s[j + 1]);
        }
        if k < s.len() {
            assert(s.skip(1)[k - 1] == s[k]);
        }
        lemma_space_prefix(s.skip(1), k - 1);
    }
}

/// A radix value is non-negative when every digit value is.
pub proof fn lemma_radix_val_nonneg(s: Seq<u8>, base: int, dv: spec_fn(u8) -> int)
    requires
        base >= 1,
        forall|i: int| 0 <= i < s.len() ==> dv(#[trigger] s[i]) >= 0,
    ensures
        radix_val(s, base, dv) >= 0,
    decreases s.len(),
{
    if s.len() > 0 {
        assert(forall|i: int|
            0 <= i < s.drop_last().len() ==> dv(#[trigger] s.drop_last()[i]) >= 0);
        lemma_radix_val_nonneg(s.drop_last(), base, dv);
    }
}

/// Appending one digit multiplies by the base and adds the digit.
pub proof fn lemma_radix_val_step(s: Seq<u8>, j: int, base: int, dv: spec_fn(u8) -> int)
    requires
        0 <= j < s.len(),
    ensures
        radix_val(s.take(j + 1), base, dv) == radix_val(s.take(j), base, dv) * base + dv(s[j]),
{
    assert(s.take(j + 1).drop_last() =~= s.take(j));
    assert(s.take(j + 1).last() == s[j]);
}

/// A radix value never shrinks as the digit run is extended.
pub proof fn lemma_radix_val_mono(s: Seq<u8>, j: int, m: int, base: int, dv: spec_fn(u8) -> int)
    requires
        0 <= j <= m <= s.len(),
        base >= 1,
        forall|i: int| 0 <= i < s.len() ==> dv(#[trigger] s[i]) >= 0,
    ensures
        radix_val(s.take(j), base, dv) <= radix_val(s.take(m), base, dv),
    decreases m - j,
{
    if j < m {
        lemma_radix_val_mono(s, j, m - 1, base, dv);
        lemma_radix_val_step(s, m - 1, base, dv);
        assert(forall|i: int|
            0 <= i < s.take(m - 1).len() ==> dv(#[trigger] s.take(m - 1)[i]) >= 0);
        lemma_radix_val_nonneg(s.take(m - 1), base, dv);
        assert(radix_val(s.take(m - 1), base, dv) * base >= radix_val(s.take(m - 1), base, dv))
            by (nonlinear_arith)
            requires radix_val(s.take(m - 1), base, dv) >= 0 && base >= 1;
    }
}

/// Lower-cases one ASCII byte.
fn lower_byte(c: u8) -> (r: u8)
    ensures
        r == lower(c),
{
    if 65 <= c && c <= 90 {
        c + 32
    } else {
        c
    }
}

/// Multiplier of a one-letter decimal unit.
fn dec_mult_of(c: u8) -> (r: Option<u64>)
    ensures
        r == dec_mult(c),
{
    if c == 'k' as u8 {
        Some(1_000u64)
    } else if c == 'm' as u8 {
        Some(1_000_000u64)
    } else if c == 'g' as u8 {
        Some(1_000_000_000u64)
    } else if c == 't' as u8 {
        Some(1_000_000_000_000u64)
    } else if c == 'p' as u8 {
        Some(1_000_000_000_000_000u64)
    } else if c == 'e' as u8 {
        Some(1_000_000_000_000_000_000u64)
    } else {
        None
    }
}

/// Multiplier of a one-letter binary unit.
fn bin_mult_of(c: u8) -> (r: Option<u64>)
    ensures
        r == bin_mult(c),
{
    if c == 'k' as u8 {
        Some(1024u64)
    } else if c == 'm' as u8 {
        Some(1_048_576u64)
    } else if c == 'g' as u8 {
        Some(1_073_741_824u64)
    } else if c == 't' as u8 {
        Some(1_099_511_627_776u64)
    } else if c == 'p' as u8 {
        Some(1_125_899_906_842_624u64)
    } else if c == 'e' as u8 {
        Some(1_152_921_504_606_846_976u64)
    } else {
        None
    }
}

/// The byte-size reading of a token.
fn parse_size_bytes(b: &[u8]) -> (r: Option<u64>)
    ensures
        r == spec_parse_size(b@),
{
    let n = b.len();
    let mut i: usize = 0;
    while i < n && 48 <= b[i] && b[i] <= 57
        invariant
            0 <= i <= n,
            n == b@.len(),
            forall|j: int| 0 <= j < i ==> is_digit(#[trigger] b@[j]),
        decreases n - i,
    {
        i = i + 1;
    }
    proof {
        lemma_digit_prefix(b@, i as int);
    }
    if i == 0 {
        return None;
    }

    let mut v: u64 = 0;
    let mut j: usize = 0;
    while j < i
        invariant
            0 <= j <= i <= n,
            n == b@.len(),
            digit_prefix(b@) == i,
            forall|q: int| 0 <= q < i ==> is_digit(#[trigger] b@[q]),
            v == digits_val(b@.take(j as int)),
        decreases i - j,
    {
        let d = b[j] - 48;
        let t: u128 = (v as u128) * 10 + (d as u128);
        proof {
            lemma_radix_val_step(b@, j as int, 10, |c: u8| c - 48);
        }
        if t > u64::MAX as u128 {
            proof {
                assert forall|q: int| 0 <= q < b@.take(i as int).len()
                    implies (|c: u8| c - 48)(#[trigger] b@.take(i as int)[q]) >= 0 by {
                    assert(is_digit(b@[q]));
                }
                lemma_radix_val_mono(b@.take(i as int), j as int + 1, i as int, 10, |c: u8| c - 48);
                assert(b@.take(i as int).take(j as int + 1) =~= b@.take(j as int + 1));
                assert(b@.take(i as int).take(i as int) =~= b@.take(i as int));
                let w = digits_val(b@.take(i as int));
                assert(w > u64::MAX);
                match unit_mult(b@.skip(digit_prefix(b@) as int).skip(
                    space_prefix(b@.skip(digit_prefix(b@) as int)) as int,
                )) {
                    None => {},
                    Some(m) => {
                        assert(m >= 1);
                        assert(w * m > u64::MAX) by (nonlinear_arith)
                            requires
                                w > u64::MAX,
                                m >= 1,
                        ;
                    },
                }
            }
            return None;
        }
        v = t as u64;
        j = j + 1;
    }

    let mut k: usize = i;
    while k < n && b[k] == 32
        invariant
            i <= k <= n,
            n == b@.len(),
            forall|q: int| i <= q < k ==> is_space(#[trigger] b@[q]),
        decreases n - k,
    {
        k = k + 1;
    }
    proof {
        assert forall|q: int| 0 <= q < k - i implies is_space(#[trigger] b@.skip(i as int)[q]) by {
            assert(b@.skip(i as int)[q] == b@[q + i]);
        }
        if k < n {
            assert(b@.skip(i as int)[k - i] == b@[k as int]);
        }
        lemma_space_prefix(b@.skip(i as int), k - i);
        assert(b@.skip(i as int).skip(k - i) =~= b@.skip(k as int));
    }

    let ulen = n - k;
    let m_opt: Option<u64> = if ulen == 0 {
        Some(1u64)
    } else if ulen == 1 {
        let c = lower_byte(b[k]);
        if c == 'b' as u8 {
            Some(1u64)
        } else {
            dec_mult_of(c)
        }
    } else if ulen == 2 {
        let c1 = lower_byte(b[k + 1]);
        if c1 == 'b' as u8 {
            dec_mult_of(lower_byte(b[k]))
        } else {
            None
        }
    } else if ulen == 3 {
        let c1 = lower_byte(b[k + 1]);
        let c2 = lower_byte(b[k + 2]);
        if c1 == 'i' as u8 && c2 == 'b' as u8 {
            bin_mult_of(lower_byte(b[k]))
        } else {
            None
        }
    } else {
        None
    };
    proof {
        let u = b@.skip(k as int);
        assert(u.len() == ulen);
        if ulen >= 1 {
            assert(u[0] == b@[k as int]);
        }
        if ulen >= 2 {
            assert(u[1] == b@[k as int + 1]);
        }
        if ulen >= 3 {
            assert(u[2] == b@[k as int + 2]);
        }
    }
    match m_opt {
        None => None,
        Some(m) => {
            proof {
                assert((v as int) * (m as int) <= (u64::MAX as int) * (u64::MAX as int))
                    by (nonlinear_arith)
                    requires
                        0 <= v as int <= u64::MAX as int,
                        0 <= m as int <= u64::MAX as int,
                ;
            }
            let t: u128 = (v as u128) * (m as u128);
            if t > u64::MAX as u128 {
                None
            } else {
                Some(t as u64)
            }
        },
    }
}

/// The hexadecimal reading of a token.
fn parse_hex_bytes(b: &[u8]) -> (r: Option<u64>)
    ensures
        r == spec_parse_hex(b@),
{
    let n = b.len();
    proof {
        assert(b@.skip(0) =~= b@);
    }
    let mut p: usize = 0;
    while p < n && p + 1 < n && b[p] == 48 && b[p + 1] == 120
        invariant
            0 <= p <= n,
            n == b@.len(),
            strip_0x(b@) == strip_0x(b@.skip(p as int)),
        decreases n - p,
    {
        proof {
            let s = b@.skip(p as int);
            assert(s[0] == b@[p as int] && s[1] == b@[p as int + 1]);
            assert(strip_0x(s) == strip_0x(s.skip(2)));
            assert(s.skip(2) =~= b@.skip(p as int + 2));
        }
        p = p + 2;
    }
    proof {
        let s = b@.skip(p as int);
        if s.len() >= 2 {
            assert(s[0] == b@[p as int] && s[1] == b@[p as int + 1]);
        }
        assert(strip_0x(s) == s);
        assert(strip_0x(b@) == b@.skip(p as int));
    }

    let mut q: usize = p;
    if q < n && b[q] == 43 {
        proof {
            assert(b@.skip(p as int)[0] == b@[p as int]);
            assert(b@.skip(p as int).skip(1) =~= b@.skip(p as int + 1));
            assert(hex_digits_part(b@) == b@.skip(p as int + 1));
        }
        q = q + 1;
    } else {
        proof {
            let stripped = b@.skip(p as int);
            if stripped.len() > 0 {
                assert(stripped[0] == b@[p as int]);
                assert(stripped[0] != '+' as u8);
            }
            assert(hex_digits_part(b@) == b@.skip(p as int));
        }
    }
    let ghost h = b@.skip(q as int);
    proof {
        assert(hex_digits_part(b@) == h);
    }

    if q == n {
        return None;
    }

    let mut v: u64 = 0;
    let mut j: usize = q;
    while j < n
        invariant
            q <= j <= n,
            q < n,
            n == b@.len(),
            h == b@.skip(q as int),
            hex_digits_part(b@) == h,
            forall|t: int| 0 <= t < j - q ==> is_hex_digit(#[trigger] h[t]),
            v == hex_val(h.take(j - q)),
        decreases n - j,
    {
        let c = b[j];
        let d: u8 = if 48 <= c && c <= 57 {
            c - 48
        } else if 97 <= c && c <= 102 {
            c - 87
        } else if 65 <= c && c <= 70 {
            c - 55
        } else {
            proof {
                assert(h[j - q] == b@[j as int]);
                assert(!is_hex_digit(h[(j - q) as int]));
            }
            return None;
        };
        proof {
            assert(h[j - q] == b@[j as int]);
            lemma_radix_val_step(h, j - q, 16, |c: u8| hex_digit_val(c));
        }
        let t: u128 = (v as u128) * 16 + (d as u128);
        if t > u64::MAX as u128 {
            proof {
                let dvf = |c: u8| hex_digit_val(c);
                assert forall|s: int| 0 <= s < h.len() implies dvf(#[trigger] h[s]) >= 0 by {}
                lemma_radix_val_mono(h, j - q + 1, h.len() as int, 16, dvf);
                assert(h.take(h.len() as int) =~= h);
                assert(hex_val(h) > u64::MAX);
            }
            return None;
        }
        v = t as u64;
        j = j + 1;
    }
    proof {
        assert(h.take(h.len() as int) =~= h);
    }
    Some(v)
}

/// A size token's value over raw bytes.
pub fn parse_pos_bytes(b: &[u8]) -> (r: Result<u64, ParseError>)
    ensures
        r == spec_pos_result(b@),
{
    match parse_size_bytes(b) {
        Some(v) => Ok(v),
        None => match parse_hex_bytes(b) {
            Some(v) => Ok(v),
            None => Err(ParseError::Malformed),
        },
    }
}

/// Parses a size token: a byte count, possibly with a human-readable unit
/// suffix, or a hexadecimal number.
pub fn parse_pos(p: &str) -> (r: Result<u64, ParseError>)
    ensures
        r == spec_pos_result(p.spec_bytes()),
{
    parse_pos_bytes(p.as_bytes())
}

} // verus!
