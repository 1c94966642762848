//! The mathematical meaning of the four edit operations, over byte
//! sequences, together with the laws that relate them.
//!
//! Offsets may lie beyond the end of the sequence: every operation clamps
//! them, so that a begin past the end makes delete a plain copy, cut
//! empty, and insert and replace an append.

use vstd::prelude::*;

verus! {

/// An offset clamped to the length of the stream.
pub open spec fn cap(x: int, len: int) -> int {
    if x < len {
        x
    } else {
        len
    }
}

/// An optional offset as a mathematical integer.
pub open spec fn opt_int(e: Option<u64>) -> Option<int> {
    match e {
        Some(x) => Some(x as int),
        None => None,
    }
}

/// First offset of the region `[begin, end]` of `s`, clamped.
pub open spec fn region_lo(s: Seq<u8>, begin: int) -> int {
    cap(begin, s.len() as int)
}

/// One past the last offset of the region `[begin, end]` of `s`, clamped;
/// an absent end reaches to the end of the stream.
pub open spec fn region_hi(s: Seq<u8>, end: Option<int>) -> int {
    match end {
        Some(e) => cap(e + 1, s.len() as int),
        None => s.len() as int,
    }
}

/// Everything outside the region `[begin, end]`, in order.
pub open spec fn delete_spec(s: Seq<u8>, begin: int, end: Option<int>) -> Seq<u8> {
    match end {
        Some(e) => s.take(region_lo(s, begin)) + s.skip(region_hi(s, end)),
        None => s.take(region_lo(s, begin)),
    }
}

/// Everything inside the region `[begin, end]`, in order.
pub open spec fn cut_spec(s: Seq<u8>, begin: int, end: Option<int>) -> Seq<u8> {
    match end {
        Some(e) => {
            if begin <= e + 1 {
                s.subrange(region_lo(s, begin), region_hi(s, end))
            } else {
                Seq::<u8>::empty()
            }
        },
        None => s.skip(region_lo(s, begin)),
    }
}

/// The stream with `v` inserted at `pos` (appended, when `pos` is at or
/// past the end).
pub open spec fn insert_spec(s: Seq<u8>, pos: int, v: Seq<u8>) -> Seq<u8> {
    s.take(cap(pos, s.len() as int)) + v + s.skip(cap(pos, s.len() as int))
}

/// The stream with the `v.len()` bytes from `begin` replaced by `v`
/// (fewer, when the stream ends first; `v` is never truncated).
pub open spec fn replace_spec(s: Seq<u8>, begin: int, v: Seq<u8>) -> Seq<u8> {
    s.take(cap(begin, s.len() as int)) + v + s.skip(cap(begin + v.len(), s.len() as int))
}

/// What an insert has emitted once `s` has been consumed: the payload
/// appears only after the position has been crossed.
pub open spec fn insert_partial(s: Seq<u8>, pos: int, v: Seq<u8>) -> Seq<u8> {
    if s.len() > pos {
        insert_spec(s, pos, v)
    } else {
        s
    }
}

/// What a replace has emitted once `s` has been consumed: the payload
/// appears only after the begin has been crossed.
pub open spec fn replace_partial(s: Seq<u8>, begin: int, v: Seq<u8>) -> Seq<u8> {
    if s.len() > begin {
        replace_spec(s, begin, v)
    } else {
        s
    }
}

/// Taking no more than the left part of a concatenation ignores the right
/// part.
pub proof fn lemma_take_concat_left(c: Seq<u8>, b: Seq<u8>, k: int)
    requires
        0 <= k <= c.len(),
    ensures
        (c + b).take(k) == c.take(k),
{
    assert((c + b).take(k) =~= c.take(k));
}

/// Taking past the left part of a concatenation keeps all of it.
pub proof fn lemma_take_concat_right(c: Seq<u8>, b: Seq<u8>, k: int)
    requires
        c.len() <= k <= c.len() + b.len(),
    ensures
        (c + b).take(k) == c + b.take(k - c.len()),
{
    assert((c + b).take(k) =~= c + b.take(k - c.len()));
}

/// Skipping within the left part of a concatenation keeps the right part
/// whole.
pub proof fn lemma_skip_concat_left(c: Seq<u8>, b: Seq<u8>, k: int)
    requires
        0 <= k <= c.len(),
    ensures
        (c + b).skip(k) == c.skip(k) + b,
{
    assert((c + b).skip(k) =~= c.skip(k) + b);
}

/// Skipping past the left part of a concatenation drops all of it.
pub proof fn lemma_skip_concat_right(c: Seq<u8>, b: Seq<u8>, k: int)
    requires
        c.len() <= k <= c.len() + b.len(),
    ensures
        (c + b).skip(k) == b.skip(k - c.len()),
{
    assert((c + b).skip(k) =~= b.skip(k - c.len()));
}

/// Law: over one range, delete and cut are complementary. Delete keeps
/// exactly the two flanks of the region and cut exactly the region, so
/// splicing cut's output back between delete's flanks — at the original
/// begin offset — reproduces the input. Both operations promise this shape
/// for every blocksize, so the law is blocksize-independent.
pub proof fn lemma_delete_cut_complementary(s: Seq<u8>, begin: int, end: Option<int>)
    requires
        0 <= begin,
        match end {
            Some(e) => begin <= e,
            None => true,
        },
    ensures
        delete_spec(s, begin, end) == s.take(region_lo(s, begin)) + s.skip(region_hi(s, end)),
        s.take(region_lo(s, begin)) + cut_spec(s, begin, end) + s.skip(region_hi(s, end)) == s,
{
    match end {
        Some(e) => {
            assert(s.take(region_lo(s, begin)) + cut_spec(s, begin, end)
                + s.skip(region_hi(s, end)) =~= s);
        },
        None => {
            assert(s.take(region_lo(s, begin)) + cut_spec(s, begin, end)
                + s.skip(region_hi(s, end)) =~= s);
        },
    }
}

/// Law: inserting at position 0 prepends the payload.
pub proof fn lemma_insert_at_zero(s: Seq<u8>, v: Seq<u8>)
    ensures
        insert_spec(s, 0, v) == v + s,
{
    assert(insert_spec(s, 0, v) =~= v + s);
}

/// Law: inserting at or past the end of the stream appends the payload.
pub proof fn lemma_insert_at_or_past_end(s: Seq<u8>, pos: int, v: Seq<u8>)
    requires
        pos >= s.len(),
    ensures
        insert_spec(s, pos, v) == s + v,
{
    assert(insert_spec(s, pos, v) =~= s + v);
}

/// Law: replace is delete-then-insert when the lengths align. Replacing at
/// `begin` with `v`, then deleting the range of length `v.len()` that
/// starts there, then inserting the bytes the replace had overwritten,
/// reproduces the input.
pub proof fn lemma_replace_delete_insert_round_trip(s: Seq<u8>, begin: int, v: Seq<u8>)
    requires
        0 <= begin,
        v.len() >= 1,
        begin + v.len() <= s.len(),
    ensures
        ({
            let replaced = replace_spec(s, begin, v);
            let dropped = delete_spec(replaced, begin, Some(begin + v.len() - 1));
            insert_spec(dropped, begin, s.subrange(begin, begin + v.len() as int)) == s
        }),
{
    let replaced = replace_spec(s, begin, v);
    assert(replaced.len() == s.len());
    let dropped = delete_spec(replaced, begin, Some(begin + v.len() - 1));
    assert(dropped =~= s.take(begin) + s.skip(begin + v.len()));
    assert(insert_spec(dropped, begin, s.subrange(begin, begin + v.len() as int)) =~= s);
}

} // verus!
