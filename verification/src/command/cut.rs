//! Cut: emit exactly the bytes inside `[begin, end]`, suppress both
//! flanks. Reading stops as soon as the end has been crossed; an absent
//! end extracts through the end of the stream.

use vstd::prelude::*;

use crate::block::push_range;
use crate::command::Command;
use crate::edit::{cut_spec, lemma_skip_concat_left, lemma_skip_concat_right, opt_int};
use crate::errors::RunError;
use crate::range::Range;

verus! {

/// Phase of the cut machine.
#[derive(Debug, Clone, Copy, PartialEq, Eq, Structural)]
pub enum CutPhase {
    /// Before the begin: suppress bytes.
    Skip,
    /// Inside the range: pass bytes through.
    Write,
    /// Past the end: nothing further will be emitted.
    Stopped,
}

/// The cut state machine. Feed the source's blocks in order; each call
/// says which bytes to emit. Treat the fields as read-only.
pub struct CutStream {
    /// First extracted offset.
    pub begin: u64,
    /// Last extracted offset; meaningful only when `cut_to_end` is false.
    pub end: u64,
    /// Whether the extraction reaches the end of the stream.
    pub cut_to_end: bool,
    /// Bytes consumed from the source so far.
    pub total_read: u64,
    /// Where the cursor stands relative to the range.
    pub phase: CutPhase,
    /// Everything consumed so far.
    pub consumed: Ghost<Seq<u8>>,
}

impl CutStream {
    /// The inclusive end as the operation specs see it.
    pub open spec fn end_opt(&self) -> Option<int> {
        if self.cut_to_end {
            None
        } else {
            Some(self.end as int)
        }
    }

    /// Phase/cursor consistency; established by `new`, kept by `feed`.
    pub open spec fn wf(&self) -> bool {
        &&& self.total_read == self.consumed@.len()
        &&& (!self.cut_to_end ==> self.begin <= self.end)
        &&& match self.phase {
            CutPhase::Skip => self.total_read <= self.begin,
            CutPhase::Write => self.begin < self.total_read && (self.cut_to_end
                || self.total_read <= self.end),
            CutPhase::Stopped => !self.cut_to_end && self.end < self.total_read,
        }
    }

    /// Everything emitted so far: the cut of everything consumed.
    pub open spec fn emitted(&self) -> Seq<u8> {
        cut_spec(self.consumed@, self.begin as int, self.end_opt())
    }

    /// Whether nothing further will ever be emitted, so the caller may
    /// stop reading.
    pub open spec fn done(&self) -> bool {
        self.phase is Stopped
    }

    /// A fresh machine for the range `[begin, end]` (`end == None`: to the
    /// end of the stream).
    pub fn new(begin: u64, end: Option<u64>) -> (r: CutStream)
        requires
            match end {
                Some(e) => begin <= e,
                None => true,
            },
        ensures
            r.wf(),
            r.consumed@ == Seq::<u8>::empty(),
            r.begin == begin,
            r.end_opt() == opt_int(end),
            r.total_read == 0,
            !r.done(),
    {
        match end {
            Some(e) => CutStream {
                begin: begin,
                end: e,
                cut_to_end: false,
                total_read: 0,
                phase: CutPhase::Skip,
                consumed: Ghost(Seq::empty()),
            },
            None => CutStream {
                begin: begin,
                end: 0,
                cut_to_end: true,
                total_read: 0,
                phase: CutPhase::Skip,
                consumed: Ghost(Seq::empty()),
            },
        }
    }

    /// Whether the caller may stop reading.
    pub fn is_done(&self) -> (r: bool)
        ensures
            r == self.done(),
    {
        match self.phase {
            CutPhase::Stopped => true,
            _ => false,
        }
    }

    /// Feeds the next source block; returns the bytes to emit for it.
    pub fn feed(&mut self, block: &[u8]) -> (r: Vec<u8>)
        requires
            old(self).wf(),
            block@.len() >= 1,
            old(self).total_read + block@.len() <= u64::MAX,
        ensures
            final(self).wf(),
            final(self).begin == old(self).begin,
            final(self).end_opt() == old(self).end_opt(),
            final(self).consumed@ == old(self).consumed@ + block@,
            final(self).total_read == old(self).total_read + block@.len(),
            final(self).emitted() == old(self).emitted() + r@,
            old(self).done() ==> final(self).done(),
    {
        let n = block.len();
        let ghost c = self.consumed@;
        let ghost t = self.total_read as int;
        let ghost b_i = self.begin as int;
        let before = self.total_read;
        self.total_read = self.total_read + n as u64;
        self.consumed = Ghost(c + block@);
        let ghost cb = c + block@;
        let mut r: Vec<u8> = Vec::new();
        match self.phase {
            CutPhase::Skip => {
                if self.total_read > self.begin {
                    proof {
                        assert(self.begin - before < n as u64);
                    }
                    let off = (self.begin - before) as usize;
                    if !self.cut_to_end && self.total_read > self.end {
                        let ghost e_i = self.end as int;
                        proof {
                            assert((self.end - before) + 1 <= n as u64);
                        }
                        let off_e = ((self.end - before) + 1) as usize;
                        push_range(&mut r, block, off, off_e);
                        self.phase = CutPhase::Stopped;
                        proof {
                            assert(old(self).emitted() =~= Seq::<u8>::empty());
                            assert(cb.subrange(b_i, e_i + 1) =~= block@.subrange(
                                off as int,
                                off_e as int,
                            ));
                            assert(self.emitted() =~= old(self).emitted() + r@);
                        }
                    } else {
                        push_range(&mut r, block, off, n);
                        self.phase = CutPhase::Write;
                        proof {
                            lemma_skip_concat_right(c, block@, b_i);
                            assert(old(self).emitted() =~= Seq::<u8>::empty());
                            if self.cut_to_end {
                                assert(self.emitted() =~= block@.skip(off as int));
                            } else {
                                assert(self.emitted() =~= cb.subrange(b_i, cb.len() as int));
                                assert(cb.subrange(b_i, cb.len() as int) =~= cb.skip(b_i));
                            }
                            assert(r@ =~= block@.skip(off as int));
                            assert(self.emitted() =~= old(self).emitted() + r@);
                        }
                    }
                } else {
                    proof {
                        assert(old(self).emitted() =~= Seq::<u8>::empty());
                        assert(self.emitted() =~= Seq::<u8>::empty());
                        assert(r@ =~= Seq::<u8>::empty());
                        assert(self.emitted() =~= old(self).emitted() + r@);
                    }
                }
            },
            CutPhase::Write => {
                if self.cut_to_end {
                    push_range(&mut r, block, 0, n);
                    proof {
                        lemma_skip_concat_left(c, block@, b_i);
                        assert(r@ =~= block@);
                        assert(self.emitted() =~= old(self).emitted() + r@);
                    }
                } else {
                    let ghost e_i = self.end as int;
                    if self.total_read > self.end {
                        proof {
                            assert((self.end - before) + 1 <= n as u64);
                        }
                        let off_e = ((self.end - before) + 1) as usize;
                        push_range(&mut r, block, 0, off_e);
                        self.phase = CutPhase::Stopped;
                        proof {
                            assert(old(self).emitted() =~= c.skip(b_i));
                            assert(cb.subrange(b_i, e_i + 1) =~= c.skip(b_i) + block@.take(
                                off_e as int,
                            ));
                            assert(r@ =~= block@.take(off_e as int));
                            assert(self.emitted() =~= old(self).emitted() + r@);
                        }
                    } else {
                        push_range(&mut r, block, 0, n);
                        proof {
                            assert(old(self).emitted() =~= c.skip(b_i));
                            assert(cb.subrange(b_i, cb.len() as int) =~= c.skip(b_i) + block@);
                            assert(r@ =~= block@);
                            assert(self.emitted() =~= old(self).emitted() + r@);
                        }
                    }
                }
            },
            CutPhase::Stopped => {
                let ghost e_i = self.end as int;
                proof {
                    assert(cb.subrange(b_i, e_i + 1) =~= c.subrange(b_i, e_i + 1));
                    assert(r@ =~= Seq::<u8>::empty());
                    assert(self.emitted() =~= old(self).emitted() + r@);
                }
            },
        }
        r
    }

    /// Once the machine has stopped, later input cannot change the cut of
    /// the whole stream: it already equals what was emitted.
    pub proof fn lemma_done_stable(&self, rest: Seq<u8>)
        requires
            self.wf(),
            self.done(),
        ensures
            cut_spec(self.consumed@ + rest, self.begin as int, self.end_opt()) == self.emitted(),
    {
        let c = self.consumed@;
        let b_i = self.begin as int;
        let e_i = self.end as int;
        assert((c + rest).subrange(b_i, e_i + 1) =~= c.subrange(b_i, e_i + 1));
    }
}

/// Extracts the bytes of a range from the stream.
#[derive(Debug, Clone, Copy, PartialEq, Eq)]
pub struct CutCommand {
    /// The range to extract.
    pub range: Range,
}

impl Command for CutCommand {
    /// Exactly the range's bytes; a range whose end lies before its begin
    /// is refused before any byte is read.
    open spec fn run_spec(&self, source: Seq<u8>, payload: Option<Seq<u8>>) -> Result<
        Seq<u8>,
        RunError,
    > {
        match self.range.end {
            Some(e) => {
                if e < self.range.begin {
                    Err(RunError::EndBeforeBegin)
                } else {
                    Ok(cut_spec(source, self.range.begin as int, opt_int(self.range.end)))
                }
            },
            None => Ok(cut_spec(source, self.range.begin as int, None)),
        }
    }

    fn run(&self, blocksize: usize, source: &[u8], payload: Option<&[u8]>) -> (r: Result<
        Vec<u8>,
        RunError,
    >) {
        if let Some(e) = self.range.end {
            if e < self.range.begin {
                return Err(RunError::EndBeforeBegin);
            }
        }
        let mut stream = CutStream::new(self.range.begin, self.range.end);
        let mut out: Vec<u8> = Vec::new();
        let total = source.len();
        let mut pos: usize = 0;
        proof {
            assert(source@.take(0) =~= Seq::<u8>::empty());
        }
        while pos < total && !stream.is_done()
            invariant
                blocksize >= 1,
                total == source@.len(),
                0 <= pos <= total,
                stream.wf(),
                stream.begin == self.range.begin,
                stream.end_opt() == opt_int(self.range.end),
                stream.consumed@ == source@.take(pos as int),
                stream.total_read == pos,
                out@ == stream.emitted(),
            decreases total - pos,
        {
            let m = if blocksize < total - pos {
                blocksize
            } else {
                total - pos
            };
            let chunk = &source[pos..pos + m];
            let mut emitted = stream.feed(chunk);
            proof {
                assert(source@.take(pos as int) + chunk@ =~= source@.take(pos as int + m as int));
            }
            out.append(&mut emitted);
            pos = pos + m;
        }
        proof {
            if pos == total {
                assert(source@.take(total as int) =~= source@);
            } else {
                stream.lemma_done_stable(source@.skip(pos as int));
                assert(source@.take(pos as int) + source@.skip(pos as int) =~= source@);
            }
        }
        Ok(out)
    }
}

} // verus!
