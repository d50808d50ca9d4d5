//! The pipe registry: which end of which pipe is still to be had.
//!
//! A pipe has a reading end and a writing end. Each end is claimed at most
//! once: by a process that takes it as its stdio, by a reader that streams
//! it in band, or by a file that stands in for it. The registry keeps the
//! state of the ends; the operating system's handles stay with the caller,
//! who parks the handle of an end that is not claimed yet under the pipe's
//! id and takes it out again when the registry says so.

use std::collections::HashMap;
use vstd::prelude::*;
use crate::protocol::{ReadPipe, WritePipe};

verus! {

broadcast use vstd::std_specs::hash::group_hash_axioms;

#[derive(Clone, Copy, Debug, PartialEq, Eq, Structural)]
pub enum Side {
    Read,
    Write,
}

/// The two ends of a known pipe: `true` while the end is parked, waiting
/// for its claimer, `false` once it has been claimed.
#[derive(Clone, Copy, Debug, PartialEq, Eq, Structural)]
pub struct Ends {
    pub read_parked: bool,
    pub write_parked: bool,
}

/// Where the handle of a claimed end comes from.
#[derive(Clone, Copy, Debug, PartialEq, Eq, Structural)]
pub enum Source {
    /// The pipe was known: the end's handle is the parked one.
    Parked,
    /// The pipe was not known: a new pipe is to be made, whose other end is
    /// parked.
    NewPipe,
}

/// Misuse of a pipe.
#[derive(Clone, Copy, Debug, PartialEq, Eq, Structural)]
pub enum PipeError {
    /// The end has been claimed before.
    SideTaken,
    /// A file is to stand in for a pipe that is already known.
    AlreadyOpen,
}

/// One request to the registry.
#[derive(Clone, Copy, Debug, PartialEq, Eq, Structural)]
pub enum PipeOp {
    /// Claim the reading end.
    ReadEnd(usize),
    /// Claim the writing end.
    WriteEnd(usize),
    /// Let a file take what is written to the pipe: the file claims the
    /// reading end, the writing end is parked.
    OpenOutputFile(usize),
    /// Let a file feed the pipe: the file claims the writing end, the
    /// reading end is parked.
    OpenInputFile(usize),
}

/// What a request that was granted gives.
#[derive(Clone, Copy, Debug, PartialEq, Eq, Structural)]
pub enum Grant {
    End(Source),
    Opened,
}

/// One end of one pipe.
pub ghost struct Claim {
    pub pipe: usize,
    pub side: Side,
}

impl PipeOp {
    /// The end that the request claims where it is granted.
    pub open spec fn claim(self) -> Claim {
        match self {
            PipeOp::ReadEnd(pipe) => Claim { pipe, side: Side::Read },
            PipeOp::WriteEnd(pipe) => Claim { pipe, side: Side::Write },
            PipeOp::OpenOutputFile(pipe) => Claim { pipe, side: Side::Read },
            PipeOp::OpenInputFile(pipe) => Claim { pipe, side: Side::Write },
        }
    }
}

/// The end has been claimed.
pub open spec fn claimed(ends: Map<usize, Ends>, c: Claim) -> bool {
    ends.contains_key(c.pipe) && match c.side {
        Side::Read => !ends[c.pipe].read_parked,
        Side::Write => !ends[c.pipe].write_parked,
    }
}

/// Whether a claim on an end is granted in a state, and where the end's
/// handle then comes from.
pub open spec fn claim(ends: Map<usize, Ends>, c: Claim) -> Result<Source, PipeError> {
    if !ends.contains_key(c.pipe) {
        Ok(Source::NewPipe)
    } else if claimed(ends, c) {
        Err(PipeError::SideTaken)
    } else {
        Ok(Source::Parked)
    }
}

/// Whether a request is granted in a state, and what it gives.
pub open spec fn outcome(ends: Map<usize, Ends>, op: PipeOp) -> Result<Grant, PipeError> {
    match op {
        PipeOp::ReadEnd(pipe) => match claim(ends, op.claim()) {
            Ok(source) => Ok(Grant::End(source)),
            Err(e) => Err(e),
        },
        PipeOp::WriteEnd(pipe) => match claim(ends, op.claim()) {
            Ok(source) => Ok(Grant::End(source)),
            Err(e) => Err(e),
        },
        PipeOp::OpenOutputFile(pipe) => if ends.contains_key(pipe) {
            Err(PipeError::AlreadyOpen)
        } else {
            Ok(Grant::Opened)
        },
        PipeOp::OpenInputFile(pipe) => if ends.contains_key(pipe) {
            Err(PipeError::AlreadyOpen)
        } else {
            Ok(Grant::Opened)
        },
    }
}

/// The state after a request. A request that is refused changes nothing.
pub open spec fn step(ends: Map<usize, Ends>, op: PipeOp) -> Map<usize, Ends> {
    if outcome(ends, op) is Err {
        ends
    } else {
        match op {
            PipeOp::ReadEnd(pipe) => ends.insert(
                pipe,
                Ends {
                    read_parked: false,
                    write_parked: if ends.contains_key(pipe) {
                        ends[pipe].write_parked
                    } else {
                        true
                    },
                },
            ),
            PipeOp::WriteEnd(pipe) => ends.insert(
                pipe,
                Ends {
                    read_parked: if ends.contains_key(pipe) {
                        ends[pipe].read_parked
                    } else {
                        true
                    },
                    write_parked: false,
                },
            ),
            PipeOp::OpenOutputFile(pipe) => ends.insert(
                pipe,
                Ends { read_parked: false, write_parked: true },
            ),
            PipeOp::OpenInputFile(pipe) => ends.insert(
                pipe,
                Ends { read_parked: true, write_parked: false },
            ),
        }
    }
}

/// The state after a series of requests to an empty registry.
pub open spec fn after(ops: Seq<PipeOp>) -> Map<usize, Ends>
    decreases ops.len(),
{
    if ops.len() == 0 {
        Map::empty()
    } else {
        step(after(ops.drop_last()), ops.last())
    }
}

/// The ends that a series of requests to an empty registry has handed out,
/// in order: one for each request that was granted.
pub open spec fn granted(ops: Seq<PipeOp>) -> Seq<Claim>
    decreases ops.len(),
{
    if ops.len() == 0 {
        Seq::empty()
    } else if outcome(after(ops.drop_last()), ops.last()) is Ok {
        granted(ops.drop_last()).push(ops.last().claim())
    } else {
        granted(ops.drop_last())
    }
}

/// An end that has been handed out is recorded as claimed, and stays so.
pub proof fn lemma_granted_is_claimed(ops: Seq<PipeOp>, i: int)
    requires
        0 <= i < granted(ops).len(),
    ensures
        claimed(after(ops), granted(ops)[i]),
    decreases ops.len(),
{
    if ops.len() > 0 {
        let before = ops.drop_last();
        if outcome(after(before), ops.last()) is Ok {
            if i < granted(before).len() {
                lemma_granted_is_claimed(before, i);
            }
        } else {
            lemma_granted_is_claimed(before, i);
        }
    }
}

/// Whatever is asked of a registry, and in whatever order, no end of no pipe
/// is handed out twice: a pipe never has two readers or two writers.
pub proof fn lemma_exclusive(ops: Seq<PipeOp>)
    ensures
        granted(ops).no_duplicates(),
    decreases ops.len(),
{
    if ops.len() > 0 {
        let before = ops.drop_last();
        lemma_exclusive(before);
        if outcome(after(before), ops.last()) is Ok {
            let c = ops.last().claim();
            assert forall|i: int| 0 <= i < granted(before).len() implies granted(before)[i]
                != c by {
                lemma_granted_is_claimed(before, i);
            }
        }
    }
}

/// The registry.
pub struct Registry {
    ends: HashMap<usize, Ends>,
}

impl View for Registry {
    type V = Map<usize, Ends>;

    closed spec fn view(&self) -> Map<usize, Ends> {
        self.ends@
    }
}

impl Registry {
    /// A registry that knows no pipe.
    pub fn new() -> (r: Registry)
        ensures
            r@ == Map::<usize, Ends>::empty(),
    {
        Registry { ends: HashMap::new() }
    }

    /// True when the pipe has been referred to before.
    pub fn knows(&self, pipe: usize) -> (known: bool)
        ensures
            known == self@.contains_key(pipe),
    {
        self.ends.contains_key(&pipe)
    }

    /// Claims the reading end of a pipe. On the first reference to the pipe
    /// a new pipe is to be made and its writing end parked; later the parked
    /// reading end is handed out. A second claim is refused.
    pub fn read_end(&mut self, pipe: ReadPipe) -> (res: Result<Source, PipeError>)
        ensures
            res == claim(old(self)@, PipeOp::ReadEnd(pipe.0).claim()),
            final(self)@ == step(old(self)@, PipeOp::ReadEnd(pipe.0)),
    {
        match self.ends.get(&pipe.0) {
            None => {
                self.ends.insert(pipe.0, Ends { read_parked: false, write_parked: true });
                Ok(Source::NewPipe)
            },
            Some(ends) => {
                if ends.read_parked {
                    let write_parked = ends.write_parked;
                    self.ends.insert(pipe.0, Ends { read_parked: false, write_parked });
                    Ok(Source::Parked)
                } else {
                    Err(PipeError::SideTaken)
                }
            },
        }
    }

    /// Claims the writing end of a pipe, as `read_end` claims the reading end.
    pub fn write_end(&mut self, pipe: WritePipe) -> (res: Result<Source, PipeError>)
        ensures
            res == claim(old(self)@, PipeOp::WriteEnd(pipe.0).claim()),
            final(self)@ == step(old(self)@, PipeOp::WriteEnd(pipe.0)),
    {
        match self.ends.get(&pipe.0) {
            None => {
                self.ends.insert(pipe.0, Ends { read_parked: true, write_parked: false });
                Ok(Source::NewPipe)
            },
            Some(ends) => {
                if ends.write_parked {
                    let read_parked = ends.read_parked;
                    self.ends.insert(pipe.0, Ends { read_parked, write_parked: false });
                    Ok(Source::Parked)
                } else {
                    Err(PipeError::SideTaken)
                }
            },
        }
    }

    /// Makes a file the far end of a pipe that processes write to. The pipe
    /// must not be known yet.
    pub fn open_output_file(&mut self, pipe: WritePipe) -> (res: Result<(), PipeError>)
        ensures
            final(self)@ == step(old(self)@, PipeOp::OpenOutputFile(pipe.0)),
            res is Ok <==> !old(self)@.contains_key(pipe.0),
            res matches Err(e) ==> e == PipeError::AlreadyOpen,
    {
        if self.ends.contains_key(&pipe.0) {
            Err(PipeError::AlreadyOpen)
        } else {
            self.ends.insert(pipe.0, Ends { read_parked: false, write_parked: true });
            Ok(())
        }
    }

    /// Makes a file the far end of a pipe that processes read from. The pipe
    /// must not be known yet.
    pub fn open_input_file(&mut self, pipe: ReadPipe) -> (res: Result<(), PipeError>)
        ensures
            final(self)@ == step(old(self)@, PipeOp::OpenInputFile(pipe.0)),
            res is Ok <==> !old(self)@.contains_key(pipe.0),
            res matches Err(e) ==> e == PipeError::AlreadyOpen,
    {
        if self.ends.contains_key(&pipe.0) {
            Err(PipeError::AlreadyOpen)
        } else {
            self.ends.insert(pipe.0, Ends { read_parked: true, write_parked: false });
            Ok(())
        }
    }
}

} // verus!
