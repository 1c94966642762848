//! The edit operations and what drives them.
//!
//! Each command is a small state machine over blocks (a `*Stream` type) and
//! a [`Command::run`] that copies an in-memory source through it block by
//! block. A caller that owns a real source can instead feed the stream
//! type one read at a time and write out what each call returns.

pub mod add;
pub mod cut;
pub mod delete;
pub mod replace;

use vstd::prelude::*;

use crate::command::add::AddCommand;
use crate::command::cut::CutCommand;
use crate::command::delete::DeleteCommand;
use crate::command::replace::ReplaceCommand;
use crate::errors::RunError;

verus! {

/// The view of an optional borrowed byte block.
pub open spec fn opt_view(p: Option<&[u8]>) -> Option<Seq<u8>> {
    match p {
        Some(b) => Some(b@),
        None => None,
    }
}

/// One edit operation over one range of one stream.
pub trait Command {
    /// The mathematical result of the command: the edited stream, or the
    /// error it refuses with.
    spec fn run_spec(&self, source: Seq<u8>, payload: Option<Seq<u8>>) -> Result<
        Seq<u8>,
        RunError,
    >;

    /// Runs the command over an in-memory source, consuming it in blocks
    /// of `blocksize` bytes, with an optional secondary payload source.
    fn run(&self, blocksize: usize, source: &[u8], payload: Option<&[u8]>) -> (r: Result<
        Vec<u8>,
        RunError,
    >)
        requires
            blocksize >= 1,
        ensures
            (match (r, self.run_spec(source@, opt_view(payload))) {
                (Ok(out), Ok(want)) => out@ == want,
                (Err(got), Err(want)) => got == want,
                _ => false,
            }),
    ;
}

/// One of the four commands.
#[derive(Debug)]
pub enum Commands {
    /// Add bytes at a position.
    Add(AddCommand),
    /// Replace bytes from a position on.
    Replace(ReplaceCommand),
    /// Delete the bytes of a range.
    Delete(DeleteCommand),
    /// Extract the bytes of a range.
    Cut(CutCommand),
}

impl Command for Commands {
    /// The selected command's result.
    open spec fn run_spec(&self, source: Seq<u8>, payload: Option<Seq<u8>>) -> Result<
        Seq<u8>,
        RunError,
    > {
        match self {
            Commands::Add(c) => c.run_spec(source, payload),
            Commands::Replace(c) => c.run_spec(source, payload),
            Commands::Delete(c) => c.run_spec(source, payload),
            Commands::Cut(c) => c.run_spec(source, payload),
        }
    }

    fn run(&self, blocksize: usize, source: &[u8], payload: Option<&[u8]>) -> (r: Result<
        Vec<u8>,
        RunError,
    >) {
        match self {
            Commands::Add(c) => c.run(blocksize, source, payload),
            Commands::Replace(c) => c.run(blocksize, source, payload),
            Commands::Delete(c) => c.run(blocksize, source, payload),
            Commands::Cut(c) => c.run(blocksize, source, payload),
        }
    }
}

/// Where one invocation reads its primary source.
#[derive(Debug, Clone, PartialEq, Eq)]
pub enum SourceSel {
    /// The named input file.
    File(String),
    /// Standard input.
    StandardIn,
}

/// Where one invocation writes its output.
#[derive(Debug, Clone, PartialEq, Eq)]
pub enum SinkSel {
    /// The named output file.
    File(String),
    /// A temporary file, copied over the named input file afterwards.
    InPlace(String),
    /// Standard output.
    StandardOut,
}

/// The I/O choices of one invocation, decided before any I/O is done.
#[derive(Debug, Clone, PartialEq, Eq)]
pub struct ExecPlan {
    /// The primary source.
    pub source: SourceSel,
    /// Whether the secondary payload source is standard input.
    pub payload_from_stdin: bool,
    /// The sink.
    pub sink: SinkSel,
}

/// Owns the blocksize and the I/O selection of one invocation; the
/// decisions live here, the I/O itself stays with the caller.
#[derive(Debug, Clone, PartialEq, Eq)]
pub struct CommandRunner {
    /// How many bytes each read asks for.
    pub blocksize: usize,
    /// Whether the input file is edited in place.
    pub in_place: bool,
    /// An explicit output path.
    pub out_file: Option<String>,
    /// An explicit input path.
    pub in_file: Option<String>,
}

impl CommandRunner {
    /// Which plan the runner settles on: an input file is the preferred
    /// source (standard input then feeds the payload, when attached);
    /// otherwise attached standard input is the source, and without either
    /// the invocation is refused. An explicit output path wins over
    /// in-place, which needs an input file; the fallback is standard
    /// output.
    pub open spec fn plan_spec(&self, stdin_is_attached: bool) -> Result<ExecPlan, RunError> {
        match self.in_file {
            Some(f) => {
                let sink = match self.out_file {
                    Some(o) => SinkSel::File(o),
                    None => {
                        if self.in_place {
                            SinkSel::InPlace(f)
                        } else {
                            SinkSel::StandardOut
                        }
                    },
                };
                Ok(ExecPlan {
                    source: SourceSel::File(f),
                    payload_from_stdin: stdin_is_attached,
                    sink: sink,
                })
            },
            None => {
                if stdin_is_attached {
                    match self.out_file {
                        Some(o) => Ok(ExecPlan {
                            source: SourceSel::StandardIn,
                            payload_from_stdin: false,
                            sink: SinkSel::File(o),
                        }),
                        None => {
                            if self.in_place {
                                Err(RunError::InPlaceNeedsFile)
                            } else {
                                Ok(ExecPlan {
                                    source: SourceSel::StandardIn,
                                    payload_from_stdin: false,
                                    sink: SinkSel::StandardOut,
                                })
                            }
                        },
                    }
                } else {
                    Err(RunError::NoSource)
                }
            },
        }
    }

    /// Decides, without doing any I/O, where this invocation reads and
    /// writes. `stdin_is_attached` says whether standard input is not a
    /// terminal.
    pub fn plan(&self, stdin_is_attached: bool) -> (r: Result<ExecPlan, RunError>)
        ensures
            r == self.plan_spec(stdin_is_attached),
    {
        match &self.in_file {
            Some(f) => {
                let sink = match &self.out_file {
                    Some(o) => SinkSel::File(o.clone()),
                    None => {
                        if self.in_place {
                            SinkSel::InPlace(f.clone())
                        } else {
                            SinkSel::StandardOut
                        }
                    },
                };
                Ok(ExecPlan {
                    source: SourceSel::File(f.clone()),
                    payload_from_stdin: stdin_is_attached,
                    sink: sink,
                })
            },
            None => {
                if stdin_is_attached {
                    match &self.out_file {
                        Some(o) => Ok(ExecPlan {
                            source: SourceSel::StandardIn,
                            payload_from_stdin: false,
                            sink: SinkSel::File(o.clone()),
                        }),
                        None => {
                            if self.in_place {
                                Err(RunError::InPlaceNeedsFile)
                            } else {
                                Ok(ExecPlan {
                                    source: SourceSel::StandardIn,
                                    payload_from_stdin: false,
                                    sink: SinkSel::StandardOut,
                                })
                            }
                        },
                    }
                } else {
                    Err(RunError::NoSource)
                }
            },
        }
    }
}

} // verus!
