//! Add (insert): copy the source verbatim, and at the given position slip
//! in the whole payload; a position at or past the end of the stream
//! appends it. The payload is a literal value or a secondary source,
//! exactly one of which must be present.

use vstd::prelude::*;

use crate::block::{copy_bytes, push_range, push_vec};
use crate::command::Command;
use crate::edit::{
    insert_partial, insert_spec, lemma_skip_concat_left, lemma_skip_concat_right,
    lemma_take_concat_left, lemma_take_concat_right,
};
use crate::errors::RunError;

verus! {

/// The insert state machine. Feed the source's blocks in order; each call
/// says which bytes to emit; call `finish` at end of stream for what the
/// machine still owes. Treat the fields as read-only.
pub struct InsertStream {
    /// The insertion offset; `u64::MAX` in effect means append.
    pub pos: u64,
    /// The bytes to insert.
    pub payload: Vec<u8>,
    /// Bytes consumed from the source so far.
    pub total_read: u64,
    /// Whether the insertion offset has been crossed (and the payload
    /// emitted).
    pub crossed: bool,
    /// Everything consumed so far.
    pub consumed: Ghost<Seq<u8>>,
}

impl InsertStream {
    /// Phase/cursor consistency; established by `new`, kept by `feed`.
    pub open spec fn wf(&self) -> bool {
        &&& self.total_read == self.consumed@.len()
        &&& (self.crossed <==> self.total_read > self.pos)
    }

    /// Everything emitted so far: the source consumed, with the payload in
    /// place once the position has been crossed.
    pub open spec fn emitted(&self) -> Seq<u8> {
        insert_partial(self.consumed@, self.pos as int, self.payload@)
    }

    /// A fresh machine inserting `payload` at `pos`.
    pub fn new(pos: u64, payload: Vec<u8>) -> (r: InsertStream)
        ensures
            r.wf(),
            r.consumed@ == Seq::<u8>::empty(),
            r.pos == pos,
            r.payload@ == payload@,
            r.total_read == 0,
    {
        InsertStream {
            pos: pos,
            payload: payload,
            total_read: 0,
            crossed: false,
            consumed: Ghost(Seq::empty()),
        }
    }

    /// Feeds the next source block; returns the bytes to emit for it.
    pub fn feed(&mut self, block: &[u8]) -> (r: Vec<u8>)
        requires
            old(self).wf(),
            block@.len() >= 1,
            old(self).total_read + block@.len() <= u64::MAX,
        ensures
            final(self).wf(),
            final(self).pos == old(self).pos,
            final(self).payload@ == old(self).payload@,
            final(self).consumed@ == old(self).consumed@ + block@,
            final(self).total_read == old(self).total_read + block@.len(),
            final(self).emitted() == old(self).emitted() + r@,
    {
        let n = block.len();
        let ghost c = self.consumed@;
        let ghost t = self.total_read as int;
        let ghost p_i = self.pos as int;
        let ghost v = self.payload@;
        let before = self.total_read;
        self.total_read = self.total_read + n as u64;
        self.consumed = Ghost(c + block@);
        let ghost cb = c + block@;
        let mut r: Vec<u8> = Vec::new();
        if self.crossed {
            push_range(&mut r, block, 0, n);
            proof {
                lemma_take_concat_left(c, block@, p_i);
                lemma_skip_concat_left(c, block@, p_i);
                assert(r@ =~= block@);
                assert(self.emitted() =~= (c.take(p_i) + v + c.skip(p_i)) + block@);
                assert(self.emitted() =~= old(self).emitted() + r@);
            }
        } else if self.total_read > self.pos {
            proof {
                assert(self.pos - before < n as u64);
            }
            let off = (self.pos - before) as usize;
            push_range(&mut r, block, 0, off);
            push_vec(&mut r, &self.payload);
            push_range(&mut r, block, off, n);
            self.crossed = true;
            proof {
                lemma_take_concat_right(c, block@, p_i);
                lemma_skip_concat_right(c, block@, p_i);
                assert(r@ =~= block@.take(off as int) + v + block@.skip(off as int));
                assert(self.emitted() =~= (c + block@.take(off as int)) + v + block@.skip(
                    off as int,
                ));
                assert(old(self).emitted() =~= c);
                assert(self.emitted() =~= old(self).emitted() + r@);
            }
        } else {
            push_range(&mut r, block, 0, n);
            proof {
                assert(r@ =~= block@);
                assert(self.emitted() =~= old(self).emitted() + r@);
            }
        }
        r
    }

    /// What the machine still owes at end of stream: the payload, when the
    /// position was never crossed (append semantics); nothing otherwise.
    pub fn finish(&self) -> (r: Vec<u8>)
        requires
            self.wf(),
        ensures
            self.emitted() + r@ == insert_spec(self.consumed@, self.pos as int, self.payload@),
    {
        if !self.crossed {
            let r = copy_bytes(self.payload.as_slice());
            proof {
                let c = self.consumed@;
                assert(c.take(c.len() as int) =~= c);
                assert(c.skip(c.len() as int) =~= Seq::<u8>::empty());
                assert(insert_spec(c, self.pos as int, self.payload@) =~= c + self.payload@);
            }
            r
        } else {
            let r = Vec::<u8>::new();
            proof {
                assert(self.emitted() + r@ =~= self.emitted());
            }
            r
        }
    }
}

/// Adds bytes to the stream at a position.
#[derive(Debug, Clone, PartialEq, Eq)]
pub struct AddCommand {
    /// The literal payload; when absent, the secondary source supplies it.
    pub value: Option<Vec<u8>>,
    /// Where to insert; absent means append to the end of the stream.
    pub begin: Option<u64>,
}

impl AddCommand {
    /// The insertion offset the command runs with: an absent begin stands
    /// for the largest offset, which no stream reaches, so the payload is
    /// appended.
    pub open spec fn pos_spec(&self) -> int {
        match self.begin {
            Some(b) => b as int,
            None => u64::MAX as int,
        }
    }
}

impl Command for AddCommand {
    /// The stream with the payload inserted at the position (appended,
    /// when the position is at or past the end). The payload is the
    /// secondary source when one is supplied, else the literal value;
    /// neither present is refused before any byte is read.
    open spec fn run_spec(&self, source: Seq<u8>, payload: Option<Seq<u8>>) -> Result<
        Seq<u8>,
        RunError,
    > {
        match payload {
            Some(p) => Ok(insert_spec(source, self.pos_spec(), p)),
            None => match self.value {
                Some(val) => Ok(insert_spec(source, self.pos_spec(), val@)),
                None => Err(RunError::MissingPayload),
            },
        }
    }

    fn run(&self, blocksize: usize, source: &[u8], payload: Option<&[u8]>) -> (r: Result<
        Vec<u8>,
        RunError,
    >) {
        let v: Vec<u8> = match payload {
            Some(p) => copy_bytes(p),
            None => match &self.value {
                Some(val) => copy_bytes(val.as_slice()),
                None => {
                    return Err(RunError::MissingPayload);
                },
            },
        };
        let ghost v_view = v@;
        let pos = match self.begin {
            Some(b) => b,
            None => u64::MAX,
        };
        let mut stream = InsertStream::new(pos, v);
        let mut out: Vec<u8> = Vec::new();
        let total = source.len();
        let mut pos_src: usize = 0;
        proof {
            assert(source@.take(0) =~= Seq::<u8>::empty());
        }
        while pos_src < total
            invariant
                blocksize >= 1,
                total == source@.len(),
                0 <= pos_src <= total,
                stream.wf(),
                stream.pos == pos,
                stream.payload@ == v_view,
                stream.consumed@ == source@.take(pos_src as int),
                stream.total_read == pos_src,
                out@ == stream.emitted(),
            decreases total - pos_src,
        {
            let m = if blocksize < total - pos_src {
                blocksize
            } else {
                total - pos_src
            };
            let chunk = &source[pos_src..pos_src + m];
            let mut emitted = stream.feed(chunk);
            proof {
                assert(source@.take(pos_src as int) + chunk@ =~= source@.take(
                    pos_src as int + m as int,
                ));
            }
            out.append(&mut emitted);
            pos_src = pos_src + m;
        }
        let mut tail = stream.finish();
        out.append(&mut tail);
        proof {
            assert(source@.take(total as int) =~= source@);
        }
        Ok(out)
    }
}

} // verus!
