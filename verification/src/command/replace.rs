//! Replace: copy the source up to the begin offset, emit the whole
//! payload, then discard exactly as many source bytes as the payload is
//! long — the region is replaced in position — and copy the rest
//! verbatim. A begin at or past the end of the stream appends the payload.

use vstd::prelude::*;

use crate::block::{copy_bytes, push_range, push_vec};
use crate::command::Command;
use crate::edit::{
    lemma_skip_concat_left, lemma_skip_concat_right, lemma_take_concat_left,
    lemma_take_concat_right, replace_partial, replace_spec,
};
use crate::errors::RunError;

verus! {

/// Phase of the replace machine.
#[derive(Debug, Clone, Copy, PartialEq, Eq, Structural)]
pub enum ReplacePhase {
    /// Before the begin: pass bytes through.
    Write,
    /// The payload is emitted; source bytes are being discarded in its
    /// stead.
    Skip,
    /// The replaced region is behind: pass the rest through.
    Done,
}

/// The replace state machine. Feed the source's blocks in order; each
/// call says which bytes to emit; call `finish` at end of stream for what
/// the machine still owes. Treat the fields as read-only.
pub struct ReplaceStream {
    /// First replaced offset; `u64::MAX` in effect means append.
    pub begin: u64,
    /// The bytes that replace the region.
    pub payload: Vec<u8>,
    /// First offset past the replaced region, saturated at `u64::MAX`.
    pub skip_until: u64,
    /// Whether `begin + payload.len()` exceeded `u64::MAX`.
    pub su_sat: bool,
    /// Bytes consumed from the source so far.
    pub total_read: u64,
    /// Where the cursor stands relative to the replaced region.
    pub phase: ReplacePhase,
    /// Everything consumed so far.
    pub consumed: Ghost<Seq<u8>>,
}

impl ReplaceStream {
    /// One past the replaced region, as the operation specs see it.
    pub open spec fn su_int(&self) -> int {
        self.begin as int + self.payload@.len()
    }

    /// Phase/cursor consistency; established by `new`, kept by `feed`.
    pub open spec fn wf(&self) -> bool {
        &&& self.total_read == self.consumed@.len()
        &&& (!self.su_sat ==> self.skip_until == self.su_int())
        &&& (self.su_sat ==> self.su_int() > u64::MAX && self.skip_until == u64::MAX)
        &&& match self.phase {
            ReplacePhase::Write => self.total_read <= self.begin,
            ReplacePhase::Skip => self.begin < self.total_read && self.total_read < self.su_int(),
            ReplacePhase::Done => self.begin < self.total_read && self.su_int()
                <= self.total_read,
        }
    }

    /// Everything emitted so far: the replace of everything consumed, the
    /// payload in place once the begin has been crossed.
    pub open spec fn emitted(&self) -> Seq<u8> {
        replace_partial(self.consumed@, self.begin as int, self.payload@)
    }

    /// A fresh machine replacing `payload.len()` bytes from `begin` with
    /// `payload`.
    pub fn new(begin: u64, payload: Vec<u8>) -> (r: ReplaceStream)
        ensures
            r.wf(),
            r.consumed@ == Seq::<u8>::empty(),
            r.begin == begin,
            r.payload@ == payload@,
            r.total_read == 0,
    {
        let vlen = payload.len() as u64;
        let (skip_until, su_sat) = if begin <= u64::MAX - vlen {
            (begin + vlen, false)
        } else {
            (u64::MAX, true)
        };
        ReplaceStream {
            begin: begin,
            payload: payload,
            skip_until: skip_until,
            su_sat: su_sat,
            total_read: 0,
            phase: ReplacePhase::Write,
            consumed: Ghost(Seq::empty()),
        }
    }

    /// Feeds the next source block; returns the bytes to emit for it.
    pub fn feed(&mut self, block: &[u8]) -> (r: Vec<u8>)
        requires
            old(self).wf(),
            block@.len() >= 1,
            old(self).total_read + block@.len() <= u64::MAX,
        ensures
            final(self).wf(),
            final(self).begin == old(self).begin,
            final(self).payload@ == old(self).payload@,
            final(self).consumed@ == old(self).consumed@ + block@,
            final(self).total_read == old(self).total_read + block@.len(),
            final(self).emitted() == old(self).emitted() + r@,
    {
        let n = block.len();
        let ghost c = self.consumed@;
        let ghost t = self.total_read as int;
        let ghost b_i = self.begin as int;
        let ghost v = self.payload@;
        let ghost su = self.su_int();
        let before = self.total_read;
        self.total_read = self.total_read + n as u64;
        self.consumed = Ghost(c + block@);
        let ghost cb = c + block@;
        let mut r: Vec<u8> = Vec::new();
        match self.phase {
            ReplacePhase::Write => {
                if self.total_read > self.begin {
                    proof {
                        assert(self.begin - before < n as u64);
                    }
                    let off = (self.begin - before) as usize;
                    push_range(&mut r, block, 0, off);
                    push_vec(&mut r, &self.payload);
                    proof {
                        lemma_take_concat_right(c, block@, b_i);
                        assert(old(self).emitted() =~= c);
                    }
                    if !self.su_sat && self.skip_until < self.total_read {
                        proof {
                            assert(self.skip_until - before < n as u64);
                        }
                        let off_s = (self.skip_until - before) as usize;
                        push_range(&mut r, block, off_s, n);
                        self.phase = ReplacePhase::Done;
                        proof {
                            lemma_skip_concat_right(c, block@, su);
                            assert(r@ =~= block@.take(off as int) + v + block@.skip(
                                off_s as int,
                            ));
                            assert(self.emitted() =~= (c + block@.take(off as int)) + v
                                + block@.skip(off_s as int));
                            assert(self.emitted() =~= old(self).emitted() + r@);
                        }
                    } else if !self.su_sat && self.skip_until == self.total_read {
                        self.phase = ReplacePhase::Done;
                        proof {
                            assert(cb.skip(cb.len() as int) =~= Seq::<u8>::empty());
                            assert(r@ =~= block@.take(off as int) + v);
                            assert(self.emitted() =~= (c + block@.take(off as int)) + v);
                            assert(self.emitted() =~= old(self).emitted() + r@);
                        }
                    } else {
                        self.phase = ReplacePhase::Skip;
                        proof {
                            assert(cb.skip(cb.len() as int) =~= Seq::<u8>::empty());
                            assert(r@ =~= block@.take(off as int) + v);
                            assert(self.emitted() =~= (c + block@.take(off as int)) + v);
                            assert(self.emitted() =~= old(self).emitted() + r@);
                        }
                    }
                } else {
                    push_range(&mut r, block, 0, n);
                    proof {
                        assert(r@ =~= block@);
                        assert(self.emitted() =~= old(self).emitted() + r@);
                    }
                }
            },
            ReplacePhase::Skip => {
                proof {
                    assert(old(self).emitted() =~= c.take(b_i) + v);
                }
                if !self.su_sat && self.total_read > self.skip_until {
                    proof {
                        assert(self.skip_until - before < n as u64);
                    }
                    let off_s = (self.skip_until - before) as usize;
                    push_range(&mut r, block, off_s, n);
                    self.phase = ReplacePhase::Done;
                    proof {
                        lemma_take_concat_left(c, block@, b_i);
                        lemma_skip_concat_right(c, block@, su);
                        assert(r@ =~= block@.skip(off_s as int));
                        assert(self.emitted() =~= (c.take(b_i) + v) + block@.skip(off_s as int));
                        assert(self.emitted() =~= old(self).emitted() + r@);
                    }
                } else if !self.su_sat && self.total_read == self.skip_until {
                    self.phase = ReplacePhase::Done;
                    proof {
                        lemma_take_concat_left(c, block@, b_i);
                        assert(cb.skip(cb.len() as int) =~= Seq::<u8>::empty());
                        assert(r@ =~= Seq::<u8>::empty());
                        assert(self.emitted() =~= c.take(b_i) + v);
                        assert(self.emitted() =~= old(self).emitted() + r@);
                    }
                } else {
                    proof {
                        lemma_take_concat_left(c, block@, b_i);
                        assert(cb.skip(cb.len() as int) =~= Seq::<u8>::empty());
                        assert(r@ =~= Seq::<u8>::empty());
                        assert(self.emitted() =~= c.take(b_i) + v);
                        assert(self.emitted() =~= old(self).emitted() + r@);
                    }
                }
            },
            ReplacePhase::Done => {
                push_range(&mut r, block, 0, n);
                proof {
                    lemma_take_concat_left(c, block@, b_i);
                    lemma_skip_concat_left(c, block@, su);
                    assert(r@ =~= block@);
                    assert(self.emitted() =~= (c.take(b_i) + v + c.skip(su)) + block@);
                    assert(self.emitted() =~= old(self).emitted() + r@);
                }
            },
        }
        r
    }

    /// What the machine still owes at end of stream: the payload, when the
    /// begin was never crossed (append semantics); nothing otherwise.
    pub fn finish(&self) -> (r: Vec<u8>)
        requires
            self.wf(),
        ensures
            self.emitted() + r@ == replace_spec(self.consumed@, self.begin as int, self.payload@),
    {
        match self.phase {
            ReplacePhase::Write => {
                let r = copy_bytes(self.payload.as_slice());
                proof {
                    let c = self.consumed@;
                    assert(c.take(c.len() as int) =~= c);
                    assert(c.skip(c.len() as int) =~= Seq::<u8>::empty());
                    assert(replace_spec(c, self.begin as int, self.payload@) =~= c
                        + self.payload@);
                }
                r
            },
            _ => {
                let r = Vec::<u8>::new();
                proof {
                    let c = self.consumed@;
                    if c.len() < self.su_int() {
                        assert(c.skip(c.len() as int) =~= Seq::<u8>::empty());
                    }
                    assert(self.emitted() + r@ =~= self.emitted());
                }
                r
            },
        }
    }
}

/// Replaces bytes of the stream from a position on, one for each payload
/// byte.
#[derive(Debug, Clone, PartialEq, Eq)]
pub struct ReplaceCommand {
    /// Where the replacement starts; absent means append to the end of
    /// the stream.
    pub begin: Option<u64>,
    /// The literal payload; when absent, the secondary source supplies
    /// it.
    pub value: Option<Vec<u8>>,
}

impl ReplaceCommand {
    /// The begin offset the command runs with: an absent begin stands for
    /// the largest offset, which no stream reaches, so the payload is
    /// appended.
    pub open spec fn pos_spec(&self) -> int {
        match self.begin {
            Some(b) => b as int,
            None => u64::MAX as int,
        }
    }
}

impl Command for ReplaceCommand {
    /// The stream with `payload.len()` bytes replaced from the begin on
    /// (append, when the begin is at or past the end). The payload is the
    /// secondary source when one is supplied, else the literal value;
    /// neither present is refused before any byte is read.
    open spec fn run_spec(&self, source: Seq<u8>, payload: Option<Seq<u8>>) -> Result<
        Seq<u8>,
        RunError,
    > {
        match payload {
            Some(p) => Ok(replace_spec(source, self.pos_spec(), p)),
            None => match self.value {
                Some(val) => Ok(replace_spec(source, self.pos_spec(), val@)),
                None => Err(RunError::MissingPayload),
            },
        }
    }

    fn run(&self, blocksize: usize, source: &[u8], payload: Option<&[u8]>) -> (r: Result<
        Vec<u8>,
        RunError,
    >) {
        let v: Vec<u8> = match payload {
            Some(p) => copy_bytes(p),
            None => match &self.value {
                Some(val) => copy_bytes(val.as_slice()),
                None => {
                    return Err(RunError::MissingPayload);
                },
            },
        };
        let ghost v_view = v@;
        let begin = match self.begin {
            Some(b) => b,
            None => u64::MAX,
        };
        let mut stream = ReplaceStream::new(begin, v);
        let mut out: Vec<u8> = Vec::new();
        let total = source.len();
        let mut pos_src: usize = 0;
        proof {
            assert(source@.take(0) =~= Seq::<u8>::empty());
        }
        while pos_src < total
            invariant
                blocksize >= 1,
                total == source@.len(),
                0 <= pos_src <= total,
                stream.wf(),
                stream.begin == begin,
                stream.payload@ == v_view,
                stream.consumed@ == source@.take(pos_src as int),
                stream.total_read == pos_src,
                out@ == stream.emitted(),
            decreases total - pos_src,
        {
            let m = if blocksize < total - pos_src {
                blocksize
            } else {
                total - pos_src
            };
            let chunk = &source[pos_src..pos_src + m];
            let mut emitted = stream.feed(chunk);
            proof {
                assert(source@.take(pos_src as int) + chunk@ =~= source@.take(
                    pos_src as int + m as int,
                ));
            }
            out.append(&mut emitted);
            pos_src = pos_src + m;
        }
        let mut tail = stream.finish();
        out.append(&mut tail);
        proof {
            assert(source@.take(total as int) =~= source@);
        }
        Ok(out)
    }
}

} // verus!
