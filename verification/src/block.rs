//! The block copier: the two primitives every operation's copy loop is
//! built from, and the boundary arithmetic they rely on.
//!
//! A source is consumed in chunks of at most one blocksize. When a target
//! offset falls inside the chunk just read, its place within the chunk is
//! `target - total_read_before` — never a modulo, which would only be
//! right inside the first chunk.

use vstd::prelude::*;

verus! {

/// Law: when the bytes read so far have just crossed a target offset, the
/// target's in-chunk offset `target - total_read_before` lies inside the
/// chunk; in particular, when the target is the chunk's last byte — that
/// is, `total_read_after == target + 1` — the offset is `n - 1`, so the
/// slice taken from the chunk is never out of bounds.
pub proof fn lemma_chunk_offset(total_before: int, n: int, target: int)
    requires
        n >= 1,
        total_before <= target < total_before + n,
    ensures
        0 <= target - total_before < n,
        total_before + n == target + 1 ==> target - total_before == n - 1,
{
}

/// Emits `block[from..to]`: appends it to the sink.
pub fn push_range(out: &mut Vec<u8>, block: &[u8], from: usize, to: usize)
    requires
        from <= to <= block@.len(),
    ensures
        final(out)@ == old(out)@ + block@.subrange(from as int, to as int),
{
    let mut i: usize = from;
    while i < to
        invariant
            from <= i <= to <= block@.len(),
            out@ == old(out)@ + block@.subrange(from as int, i as int),
        decreases to - i,
    {
        out.push(block[i]);
        proof {
            assert(block@.subrange(from as int, i + 1) =~= block@.subrange(
                from as int,
                i as int,
            ).push(block@[i as int]));
        }
        i = i + 1;
    }
}

/// Emits a whole owned block: appends it to the sink.
pub fn push_vec(out: &mut Vec<u8>, v: &Vec<u8>)
    ensures
        final(out)@ == old(out)@ + v@,
{
    let n = v.len();
    let mut i: usize = 0;
    while i < n
        invariant
            0 <= i <= n,
            n == v@.len(),
            out@ == old(out)@ + v@.subrange(0, i as int),
        decreases n - i,
    {
        out.push(v[i]);
        proof {
            assert(v@.subrange(0, i + 1) =~= v@.subrange(0, i as int).push(v@[i as int]));
        }
        i = i + 1;
    }
    proof {
        assert(v@.subrange(0, n as int) =~= v@);
    }
}

/// A private copy of a byte block.
pub fn copy_bytes(src: &[u8]) -> (r: Vec<u8>)
    ensures
        r@ == src@,
{
    let n = src.len();
    let r = read_chunk(src, 0, n);
    proof {
        assert(src@.subrange(0, n as int) =~= src@);
    }
    r
}

/// Reads the next chunk: a copy of `src[pos..pos + n]`.
pub fn read_chunk(src: &[u8], pos: usize, n: usize) -> (r: Vec<u8>)
    requires
        pos + n <= src@.len(),
    ensures
        r@ == src@.subrange(pos as int, pos as int + n as int),
{
    let srclen = src.len();
    let mut r: Vec<u8> = Vec::new();
    let mut i: usize = 0;
    while i < n
        invariant
            0 <= i <= n,
            pos + n <= srclen,
            srclen == src@.len(),
            r@ == src@.subrange(pos as int, pos as int + i as int),
        decreases n - i,
    {
        r.push(src[pos + i]);
        proof {
            assert(src@.subrange(pos as int, pos as int + i + 1) =~= src@.subrange(
                pos as int,
                pos as int + i as int,
            ).push(src@[pos as int + i as int]));
        }
        i = i + 1;
    }
    r
}

} // verus!
