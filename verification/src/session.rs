//! The frontend's side of a session: what it waits for, what it does with a
//! response, and what it sends to carry out a plan.

use std::collections::{HashMap, HashSet};
use vstd::prelude::*;
use vstd::string::*;
use vstd::utf8::{encode_utf8, valid_utf8};
use crate::endpoint::{follows, Endpoint, EndpointError, EndpointView, Incoming};
use crate::plan::{Plan, PlanProcess, PlanView, RemoteStep, RemoteStepView, Sink, Step, StepView};
use crate::tables::{members, pairs_of};
use crate::protocol::{
    AbstractProcess, Command, CommandView, Condition, GenericPipe, PipeMessage, PipeMessageView,
    ProcessId, ReadPipe, ReadPipes, ReadProcess, RemoteId, RemoteInfo, RemoteInfoView,
    RemoteRequestView, RemoteResponseView, Request, RequestView, Response, WritePipe, WritePipes,
};

verus! {

broadcast use vstd::std_specs::hash::group_hash_axioms;

/// Why the session cannot go on.
#[derive(Clone, Copy, Debug, PartialEq, Eq, Structural)]
pub enum SessionError {
    /// The endpoint has refused an operation.
    Endpoint(EndpointError),
    /// A remote has become ready that was not waited for.
    UnexpectedRemote,
    /// A process is done that was not waited for.
    UnexpectedProcess,
    /// Data has come for a pipe that goes nowhere.
    StrayData,
    /// A message has come that only a backend takes.
    UnexpectedMessage,
    /// A directory listing has come, which nothing asks for.
    Unsupported,
    /// A remote is still being waited for.
    AlreadyWaiting,
    /// No remote is stacked.
    NoRemote,
    /// No handle is left.
    Exhausted,
    /// The plan uses a pipe that it has not made, uses an end of a pipe
    /// twice, or holds a step that the session cannot carry out.
    BadPlan,
    /// The working directory of a remote has not come.
    MissingOutput,
    /// The working directory of a remote has come and is not UTF-8.
    NotText,
}

/// What the frontend keeps between responses.
pub struct StackedRemotes {
    /// The remotes that are ready, the innermost last.
    pub remotes: Vec<(RemoteId, RemoteInfo)>,
    /// The processes whose end is waited for.
    pub waiting_for: HashSet<usize>,
    /// The pipes whose end is waited for.
    pub waiting_for_eof: HashSet<usize>,
    /// The remote whose readiness is waited for.
    pub waiting_for_remote: Option<RemoteId>,
    /// What has come so far from the pipes that are gathered.
    pub gathering_output: HashMap<usize, Vec<u8>>,
    /// What has come from the gathered pipes that have ended.
    pub finished_output: HashMap<usize, Vec<u8>>,
    /// For each remote, the pipe that brings its working directory.
    pub cwd_for_remote: HashMap<usize, usize>,
    /// The pipes that go to the terminal's output.
    pub stdout_pipes: HashSet<usize>,
    /// The pipes that go to the terminal's errors.
    pub stderr_pipes: HashSet<usize>,
}

/// What a response calls for outside of the session's books.
#[derive(Clone, Debug, PartialEq)]
pub enum Effect {
    Nothing,
    /// Write these bytes to the terminal's output.
    Stdout(Vec<u8>),
    /// Write these bytes to the terminal's errors.
    Stderr(Vec<u8>),
    /// Let the user edit these contents, and answer with `finish_edit`.
    Edit { edit_id: usize, command_id: ProcessId, name: String, data: Vec<u8> },
}

/// What the frontend does next.
#[derive(Clone, Copy, Debug, PartialEq, Eq, Structural)]
pub enum Next {
    /// Wait for the remote that has been begun to become ready.
    AwaitRemote,
    /// Nothing is waited for: ask the user for a command.
    Prompt,
    /// Wait for the processes and pipes of the last command.
    AwaitMessage,
}

/// The part of a path after its last `/`, the whole path where it has none.
pub open spec fn after_last_slash(name: Seq<char>) -> Seq<char>
    decreases name.len(),
{
    if name.len() == 0 {
        name
    } else if name.last() == '/' {
        Seq::empty()
    } else {
        after_last_slash(name.drop_last()).push(name.last())
    }
}

/// The name of a file without the directories that lead to it.
pub fn base_name(name: &str) -> (base: String)
    ensures
        base@ == after_last_slash(name@),
{
    let len = name.unicode_len();
    let mut start: usize = 0;
    let mut i: usize = 0;
    while i < len
        invariant
            0 <= start <= i <= len,
            len == name@.len(),
            name@.subrange(start as int, i as int) == after_last_slash(name@.take(i as int)),
        decreases len - i,
    {
        let c = name.get_char(i);
        proof {
            assert(name@.take(i + 1).drop_last() =~= name@.take(i as int));
            assert(name@.take(i + 1).last() == c);
        }
        if c == '/' {
            start = i + 1;
            assert(name@.subrange(start as int, i + 1) =~= Seq::<char>::empty());
        } else {
            assert(name@.subrange(start as int, i + 1) =~= name@.subrange(
                start as int,
                i as int,
            ).push(c));
        }
        i += 1;
    }
    proof {
        assert(name@.take(len as int) =~= name@);
    }
    name.substring_char(start, len).to_owned()
}

/// What `remote_ready` does: where the remote is the one waited for, it goes
/// on top of the stack and nothing more is waited for; else nothing changes.
pub open spec fn readied(
    before: StackedRemotes,
    after: StackedRemotes,
    id: RemoteId,
    info: RemoteInfo,
    res: Result<(), SessionError>,
) -> bool {
    match res {
        Ok(()) => before.waiting_for_remote == Some(id) && after == (StackedRemotes {
            remotes: after.remotes,
            waiting_for_remote: None,
            ..before
        }) && after.remotes@ == before.remotes@.push((id, info)),
        Err(e) => e == SessionError::UnexpectedRemote && before.waiting_for_remote != Some(id)
            && after == before,
    }
}

/// The two states differ at most in the processes that are waited for.
pub open spec fn same_but_waiting(before: StackedRemotes, after: StackedRemotes) -> bool {
    &&& after.remotes == before.remotes
    &&& after.waiting_for_eof == before.waiting_for_eof
    &&& after.waiting_for_remote == before.waiting_for_remote
    &&& after.gathering_output == before.gathering_output
    &&& after.finished_output == before.finished_output
    &&& after.cwd_for_remote == before.cwd_for_remote
    &&& after.stdout_pipes == before.stdout_pipes
    &&& after.stderr_pipes == before.stderr_pipes
}

/// What `command_done` does: a process that was waited for no longer is.
pub open spec fn done_with(
    before: StackedRemotes,
    after: StackedRemotes,
    id: ProcessId,
    res: Result<(), SessionError>,
) -> bool {
    &&& same_but_waiting(before, after)
    &&& match res {
        Ok(()) => before.waiting_for@.contains(id.0) && after.waiting_for@
            == before.waiting_for@.remove(id.0),
        Err(e) => e == SessionError::UnexpectedProcess && !before.waiting_for@.contains(id.0)
            && after.waiting_for@ == before.waiting_for@,
    }
}

/// The two states differ at most in what has been gathered.
pub open spec fn same_but_gathered(before: StackedRemotes, after: StackedRemotes) -> bool {
    &&& after.remotes == before.remotes
    &&& after.waiting_for == before.waiting_for
    &&& after.waiting_for_eof == before.waiting_for_eof
    &&& after.waiting_for_remote == before.waiting_for_remote
    &&& after.finished_output == before.finished_output
    &&& after.cwd_for_remote == before.cwd_for_remote
    &&& after.stdout_pipes == before.stdout_pipes
    &&& after.stderr_pipes == before.stderr_pipes
}

/// What `pipe_data` does: data of a gathered pipe is appended to what has
/// been gathered from it; other data goes to the terminal's output where
/// the pipe is one of its pipes, else to its errors.
pub open spec fn data_came(
    before: StackedRemotes,
    after: StackedRemotes,
    id: GenericPipe,
    data: Vec<u8>,
    res: Result<Effect, SessionError>,
) -> bool {
    &&& same_but_gathered(before, after)
    &&& if before.gathering_output@.contains_key(id.0) {
        res == Ok::<Effect, SessionError>(Effect::Nothing) && after.gathering_output@.dom()
            == before.gathering_output@.dom() && after.gathering_output@[id.0]@
            == before.gathering_output@[id.0]@ + data@ && forall|p: usize|
            p != id.0 && before.gathering_output@.contains_key(p) ==> after.gathering_output@[p]
                == before.gathering_output@[p]
    } else {
        after.gathering_output@ == before.gathering_output@ && match res {
            Ok(Effect::Stdout(bytes)) => before.stdout_pipes@.contains(id.0) && bytes == data,
            Ok(Effect::Stderr(bytes)) => !before.stdout_pipes@.contains(id.0)
                && before.stderr_pipes@.contains(id.0) && bytes == data,
            Ok(_) => false,
            Err(e) => e == SessionError::StrayData && !before.stdout_pipes@.contains(id.0)
                && !before.stderr_pipes@.contains(id.0),
        }
    }
}

/// What `pipe_closed` does: the pipe is no longer waited for, and what was
/// gathered from it is finished.
pub open spec fn pipe_ended(before: StackedRemotes, after: StackedRemotes, id: GenericPipe) -> bool {
    &&& after.remotes == before.remotes
    &&& after.waiting_for == before.waiting_for
    &&& after.waiting_for_remote == before.waiting_for_remote
    &&& after.cwd_for_remote == before.cwd_for_remote
    &&& after.stdout_pipes == before.stdout_pipes
    &&& after.stderr_pipes == before.stderr_pipes
    &&& after.waiting_for_eof@ == before.waiting_for_eof@.remove(id.0)
    &&& after.gathering_output@ == before.gathering_output@.remove(id.0)
    &&& after.finished_output@ == if before.gathering_output@.contains_key(id.0) {
        before.finished_output@.insert(id.0, before.gathering_output@[id.0])
    } else {
        before.finished_output@
    }
}

/// What a response does to the session's books, and the effect it calls for.
pub open spec fn handled(
    before: StackedRemotes,
    after: StackedRemotes,
    incoming: Incoming,
    res: Result<Effect, SessionError>,
) -> bool {
    match incoming {
        Incoming::RemoteReady { id, info } => readied(
            before,
            after,
            id,
            info,
            match res {
                Ok(_) => Ok(()),
                Err(e) => Err(e),
            },
        ) && (res is Ok ==> res == Ok::<Effect, SessionError>(Effect::Nothing)),
        Incoming::CommandDone { id, exit_code } => done_with(
            before,
            after,
            id,
            match res {
                Ok(_) => Ok(()),
                Err(e) => Err(e),
            },
        ) && (res is Ok ==> res == Ok::<Effect, SessionError>(Effect::Nothing)),
        Incoming::DirectoryListing { id, items } => res == Err::<Effect, SessionError>(
            SessionError::Unsupported,
        ) && after == before,
        Incoming::EditRequest { edit_id, command_id, name, data } => res == Ok::<
            Effect,
            SessionError,
        >(Effect::Edit { edit_id, command_id, name, data }) && after == before,
        Incoming::Pipe { id, msg } => match msg {
            PipeMessage::Data { data, end_offset } => data_came(before, after, id, data, res),
            PipeMessage::Closed { end_offset } => pipe_ended(before, after, id) && res == Ok::<
                Effect,
                SessionError,
            >(Effect::Nothing),
            _ => res == Err::<Effect, SessionError>(SessionError::UnexpectedMessage) && after
                == before,
        },
    }
}

impl StackedRemotes {
    /// A session in which nothing is ready and nothing is waited for.
    pub fn new() -> (s: StackedRemotes)
        ensures
            s.remotes@.len() == 0,
            s.waiting_for@ == Set::<usize>::empty(),
            s.waiting_for_eof@ == Set::<usize>::empty(),
            s.waiting_for_remote is None,
            s.gathering_output@ == Map::<usize, Vec<u8>>::empty(),
            s.finished_output@ == Map::<usize, Vec<u8>>::empty(),
            s.cwd_for_remote@ == Map::<usize, usize>::empty(),
            s.stdout_pipes@ == Set::<usize>::empty(),
            s.stderr_pipes@ == Set::<usize>::empty(),
    {
        StackedRemotes {
            remotes: Vec::new(),
            waiting_for: HashSet::new(),
            waiting_for_eof: HashSet::new(),
            waiting_for_remote: None,
            gathering_output: HashMap::new(),
            finished_output: HashMap::new(),
            cwd_for_remote: HashMap::new(),
            stdout_pipes: HashSet::new(),
            stderr_pipes: HashSet::new(),
        }
    }

    /// What the frontend does next: it waits for a remote that has been
    /// begun; else it prompts once no process and no pipe is waited for.
    pub fn next(&self) -> (next: Next)
        ensures
            next == if self.waiting_for_remote is Some {
                Next::AwaitRemote
            } else if self.waiting_for@.len() == 0 && self.waiting_for_eof@.len() == 0 {
                Next::Prompt
            } else {
                Next::AwaitMessage
            },
    {
        if self.waiting_for_remote.is_some() {
            Next::AwaitRemote
        } else if self.waiting_for.len() == 0 && self.waiting_for_eof.len() == 0 {
            Next::Prompt
        } else {
            Next::AwaitMessage
        }
    }

    /// The remote that was waited for is ready: it goes on top of the stack.
    pub fn remote_ready(&mut self, id: RemoteId, info: RemoteInfo) -> (res: Result<(), SessionError>)
        ensures
            readied(*old(self), *final(self), id, info, res),
    {
        match self.waiting_for_remote {
            Some(waited) => {
                if waited == id {
                    self.waiting_for_remote = None;
                    self.remotes.push((id, info));
                    Ok(())
                } else {
                    Err(SessionError::UnexpectedRemote)
                }
            },
            None => Err(SessionError::UnexpectedRemote),
        }
    }

    /// A process that was waited for is done.
    pub fn command_done(&mut self, id: ProcessId) -> (res: Result<(), SessionError>)
        ensures
            done_with(*old(self), *final(self), id, res),
    {
        if self.waiting_for.remove(&id.0) {
            Ok(())
        } else {
            assert(self.waiting_for@ =~= old(self).waiting_for@);
            Err(SessionError::UnexpectedProcess)
        }
    }

    /// Data has come from a pipe: it is gathered where the pipe is gathered,
    /// and else goes to the terminal's output or errors.
    pub fn pipe_data(&mut self, id: GenericPipe, data: Vec<u8>) -> (res: Result<Effect, SessionError>)
        ensures
            data_came(*old(self), *final(self), id, data, res),
    {
        match self.gathering_output.remove(&id.0) {
            Some(mut gathered) => {
                let mut data = data;
                gathered.append(&mut data);
                self.gathering_output.insert(id.0, gathered);
                assert(self.gathering_output@.dom() =~= old(self).gathering_output@.dom());
                Ok(Effect::Nothing)
            },
            None => {
                assert(self.gathering_output@ =~= old(self).gathering_output@);
                if self.stdout_pipes.contains(&id.0) {
                    Ok(Effect::Stdout(data))
                } else if self.stderr_pipes.contains(&id.0) {
                    Ok(Effect::Stderr(data))
                } else {
                    Err(SessionError::StrayData)
                }
            },
        }
    }

    /// A pipe has ended: it is no longer waited for, and what was gathered
    /// from it is finished.
    pub fn pipe_closed(&mut self, id: GenericPipe)
        ensures
            pipe_ended(*old(self), *final(self), id),
    {
        self.waiting_for_eof.remove(&id.0);
        match self.gathering_output.remove(&id.0) {
            Some(output) => {
                self.finished_output.insert(id.0, output);
            },
            None => {},
        }
    }

    /// Takes a response that the endpoint has sorted.
    pub fn handle(&mut self, incoming: Incoming) -> (res: Result<Effect, SessionError>)
        ensures
            handled(*old(self), *final(self), incoming, res),
    {
        match incoming {
            Incoming::RemoteReady { id, info } => {
                match self.remote_ready(id, info) {
                    Ok(()) => Ok(Effect::Nothing),
                    Err(e) => Err(e),
                }
            },
            Incoming::CommandDone { id, exit_code: _ } => {
                match self.command_done(id) {
                    Ok(()) => Ok(Effect::Nothing),
                    Err(e) => Err(e),
                }
            },
            Incoming::DirectoryListing { id: _, items: _ } => Err(SessionError::Unsupported),
            Incoming::EditRequest { edit_id, command_id, name, data } => Ok(
                Effect::Edit { edit_id, command_id, name, data },
            ),
            Incoming::Pipe { id, msg } => {
                match msg {
                    PipeMessage::Data { data, end_offset: _ } => self.pipe_data(id, data),
                    PipeMessage::Closed { end_offset: _ } => {
                        self.pipe_closed(id);
                        Ok(Effect::Nothing)
                    },
                    _ => Err(SessionError::UnexpectedMessage),
                }
            },
        }
    }
}

/// The budget of bytes that the frontend grants the reader of a pipe.
pub const READ_BUDGET: u64 = 1048576;

/// The mathematical state of a [`Session`].
pub ghost struct SessionView {
    pub endpoint: EndpointView,
    /// The handles of the remotes that are ready, the innermost last.
    pub stack: Seq<usize>,
    /// What is known of each remote of the stack.
    pub infos: Seq<RemoteInfoView>,
    pub waiting_for: Set<usize>,
    pub waiting_for_eof: Set<usize>,
    pub waiting_for_remote: Option<RemoteId>,
    pub gathering: Map<usize, Seq<u8>>,
    pub finished: Map<usize, Seq<u8>>,
    pub cwd_for_remote: Map<usize, usize>,
    pub stdout_pipes: Set<usize>,
    pub stderr_pipes: Set<usize>,
}

/// A plan that is being carried out.
pub ghost struct Run {
    pub s: SessionView,
    /// For each pipe of the plan, its two ends as far as they have not
    /// been handed to a process or a sink.
    pub pairs: Seq<(Option<usize>, Option<usize>)>,
    /// The processes begun so far.
    pub wait: Seq<usize>,
    /// The requests to send, in order.
    pub sent: Seq<RequestView>,
    /// The plan has asked to leave the shell.
    pub exit: bool,
}

/// The request that tells `remote` this message.
pub open spec fn to(remote: usize, message: RemoteRequestView) -> RequestView {
    RequestView { remote_id: remote, message }
}

/// The two requests that start the reading of a pipe on `remote`.
pub open spec fn reading(remote: usize, pipe: usize) -> Seq<RequestView> {
    seq![
        to(remote, RemoteRequestView::Pipe { id: pipe, msg: PipeMessageView::BeginRead }),
        to(
            remote,
            RemoteRequestView::Pipe {
                id: pipe,
                msg: PipeMessageView::Read { read_up_to: READ_BUDGET },
            },
        ),
    ]
}

/// The conditions of a process that waits for each of `wait` to end,
/// whatever its outcome.
pub open spec fn after_all(wait: Seq<usize>) -> Map<usize, Condition> {
    Map::new(|p: usize| wait.contains(p), |p: usize| None::<crate::protocol::ExitStatus>)
}

impl Run {
    /// The start of a plan.
    pub open spec fn start(s: SessionView) -> Run {
        Run { s, pairs: Seq::empty(), wait: Seq::empty(), sent: Seq::empty(), exit: false }
    }

    /// The innermost remote.
    pub open spec fn remote(self) -> usize {
        self.s.stack.last()
    }

    /// The state with the next handle taken.
    pub open spec fn bump(self) -> Run {
        Run { s: SessionView { endpoint: self.s.endpoint.bump(), ..self.s }, ..self }
    }

    /// A `Pipe` step: a new pipe with both ends at hand.
    pub open spec fn pipe(self) -> Result<Run, SessionError> {
        let id = self.s.endpoint.next_id as usize;
        if self.s.endpoint.next_id >= usize::MAX {
            Err(SessionError::Exhausted)
        } else {
            Ok(
                Run {
                    s: SessionView {
                        endpoint: EndpointView {
                            pipes: self.s.endpoint.pipes.insert(id),
                            ..self.s.endpoint.bump()
                        },
                        ..self.s
                    },
                    pairs: self.pairs.push((Some(id), Some(id))),
                    ..self
                },
            )
        }
    }

    /// The writing end of the plan's pipe `i` is at hand.
    pub open spec fn has_write(self, i: usize) -> bool {
        i < self.pairs.len() && self.pairs[i as int].1 is Some
    }

    /// The reading end of the plan's pipe `i` is at hand.
    pub open spec fn has_read(self, i: usize) -> bool {
        i < self.pairs.len() && self.pairs[i as int].0 is Some
    }

    /// The state with the writing end of the plan's pipe `i` handed out.
    pub open spec fn take_write(self, i: usize) -> Run {
        Run { pairs: self.pairs.update(i as int, (self.pairs[i as int].0, None)), ..self }
    }

    /// The state with the reading end of the plan's pipe `i` handed out.
    pub open spec fn take_read(self, i: usize) -> Run {
        Run { pairs: self.pairs.update(i as int, (None, self.pairs[i as int].1)), ..self }
    }

    /// A `Run` step: the process's outputs and input are taken from the
    /// plan's pipes, and the process is begun on the innermost remote.
    pub open spec fn run(self, cmd: CommandView, pr: PlanProcess) -> Result<Run, SessionError> {
        if self.s.stack.len() == 0 {
            Err(SessionError::NoRemote)
        } else if !self.has_write(pr.stdout) {
            Err(SessionError::BadPlan)
        } else if !self.take_write(pr.stdout).has_write(pr.stderr) {
            Err(SessionError::BadPlan)
        } else if !self.take_write(pr.stdout).take_write(pr.stderr).has_read(pr.stdin) {
            Err(SessionError::BadPlan)
        } else {
            let taken = self.take_write(pr.stdout).take_write(pr.stderr).take_read(pr.stdin);
            taken.command(
                cmd,
                Map::empty(),
                self.pairs[pr.stdin as int].0.unwrap(),
                self.pairs[pr.stdout as int].1.unwrap(),
                self.take_write(pr.stdout).pairs[pr.stderr as int].1.unwrap(),
            )
        }
    }

    /// A process is begun on the innermost remote and waited for.
    pub open spec fn command(
        self,
        cmd: CommandView,
        block_for: Map<usize, Condition>,
        stdin: usize,
        stdout: usize,
        stderr: usize,
    ) -> Result<Run, SessionError> {
        let id = self.s.endpoint.next_id as usize;
        if self.s.endpoint.next_id >= usize::MAX {
            Err(SessionError::Exhausted)
        } else if !self.s.endpoint.remotes.contains_key(self.remote()) {
            Err(SessionError::Endpoint(EndpointError::UnknownRemote))
        } else {
            Ok(
                Run {
                    s: SessionView {
                        endpoint: EndpointView {
                            jobs: self.s.endpoint.jobs.insert(id, self.remote()),
                            ..self.s.endpoint.bump()
                        },
                        ..self.s
                    },
                    wait: self.wait.push(id),
                    sent: self.sent.push(
                        to(
                            self.remote(),
                            RemoteRequestView::BeginCommand {
                                block_for,
                                process: AbstractProcess { id: ProcessId(id), stdin, stdout, stderr },
                                command: cmd,
                            },
                        ),
                    ),
                    ..self
                },
            )
        }
    }

    /// An `OpenOutputFile` step: a new pipe into a file on the innermost
    /// remote, with its writing end at hand.
    pub open spec fn open_output_file(self, path: Seq<char>) -> Result<Run, SessionError> {
        let id = self.s.endpoint.next_id as usize;
        if self.s.stack.len() == 0 {
            Err(SessionError::NoRemote)
        } else if self.s.endpoint.next_id >= usize::MAX {
            Err(SessionError::Exhausted)
        } else if !self.s.endpoint.remotes.contains_key(self.remote()) {
            Err(SessionError::Endpoint(EndpointError::UnknownRemote))
        } else {
            Ok(
                Run {
                    s: SessionView {
                        endpoint: EndpointView {
                            pipes: self.s.endpoint.pipes.insert(id),
                            ..self.s.endpoint.bump()
                        },
                        ..self.s
                    },
                    pairs: self.pairs.push((None, Some(id))),
                    sent: self.sent.push(
                        to(self.remote(), RemoteRequestView::OpenOutputFile { id, path }),
                    ),
                    ..self
                },
            )
        }
    }

    /// A `Close` step: the innermost remote is ended where another is under
    /// it; else the plan asks to leave the shell.
    pub open spec fn close(self) -> Result<Run, SessionError> {
        if self.s.stack.len() <= 1 {
            Ok(Run { exit: true, ..self })
        } else {
            let cur = self.remote();
            let e = self.s.endpoint;
            if !e.remotes.contains_key(cur) {
                Err(SessionError::Endpoint(EndpointError::UnknownRemote))
            } else if e.remotes[cur] is None {
                Err(SessionError::Endpoint(EndpointError::RootRemote))
            } else if e.busy(cur) {
                Err(SessionError::Endpoint(EndpointError::Busy))
            } else {
                Ok(
                    Run {
                        s: SessionView {
                            endpoint: EndpointView { remotes: e.remotes.remove(cur), ..e },
                            stack: self.s.stack.drop_last(),
                            infos: self.s.infos.drop_last(),
                            ..self.s
                        },
                        sent: self.sent.push(
                            to(e.remotes[cur].unwrap(), RemoteRequestView::EndRemote { id: cur }),
                        ),
                        ..self
                    },
                )
            }
        }
    }

    /// One step of a plan.
    pub open spec fn step(self, step: StepView) -> Result<Run, SessionError> {
        match step {
            StepView::Pipe => self.pipe(),
            StepView::Remote(_, RemoteStepView::Run(cmd, pr)) => self.run(cmd, pr),
            StepView::Remote(_, RemoteStepView::Close) => self.close(),
            StepView::Remote(_, RemoteStepView::OpenOutputFile(path)) => self.open_output_file(path),
            _ => Err(SessionError::BadPlan),
        }
    }

    /// The steps of a plan, in order, up to the step that asks to leave.
    pub open spec fn steps(self, steps: Seq<StepView>) -> Result<Run, SessionError>
        decreases steps.len(),
    {
        if steps.len() == 0 {
            Ok(self)
        } else {
            match self.steps(steps.drop_last()) {
                Ok(r) => if r.exit {
                    Ok(r)
                } else {
                    r.step(steps.last())
                },
                Err(e) => Err(e),
            }
        }
    }

    /// The probe that follows the steps of every plan: a process on the
    /// innermost remote that writes its working directory once every
    /// process of the plan has ended. Its output is gathered, its errors go
    /// to the terminal.
    pub open spec fn probe(self) -> Result<Run, SessionError> {
        if self.s.stack.len() == 0 {
            Err(SessionError::NoRemote)
        } else {
            match self.pipe() {
                Err(e) => Err(e),
                Ok(a) => match a.pipe() {
                    Err(e) => Err(e),
                    Ok(b) => match b.pipe() {
                        Err(e) => Err(e),
                        Ok(c) => {
                            let stdout = self.s.endpoint.next_id as usize;
                            let stderr = a.s.endpoint.next_id as usize;
                            let stdin = b.s.endpoint.next_id as usize;
                            let bare = Run { pairs: self.pairs, ..c };
                            match bare.command(
                                CommandView::GetDirectory,
                                after_all(self.wait),
                                stdin,
                                stdout,
                                stderr,
                            ) {
                                Err(e) => Err(e),
                                Ok(d) => Ok(
                                    Run {
                                        s: SessionView {
                                            waiting_for_eof: d.s.waiting_for_eof.insert(stdout),
                                            gathering: d.s.gathering.insert(stdout, Seq::empty()),
                                            cwd_for_remote: d.s.cwd_for_remote.insert(
                                                d.remote(),
                                                stdout,
                                            ),
                                            stderr_pipes: d.s.stderr_pipes.insert(stderr),
                                            ..d.s
                                        },
                                        sent: d.sent + seq![
                                            to(
                                                d.remote(),
                                                RemoteRequestView::Pipe {
                                                    id: stdout,
                                                    msg: PipeMessageView::BeginRead,
                                                },
                                            ),
                                            to(
                                                d.remote(),
                                                RemoteRequestView::Pipe {
                                                    id: stderr,
                                                    msg: PipeMessageView::BeginRead,
                                                },
                                            ),
                                            to(
                                                d.remote(),
                                                RemoteRequestView::Pipe {
                                                    id: stdout,
                                                    msg: PipeMessageView::Read {
                                                        read_up_to: READ_BUDGET,
                                                    },
                                                },
                                            ),
                                            to(
                                                d.remote(),
                                                RemoteRequestView::Pipe {
                                                    id: stderr,
                                                    msg: PipeMessageView::Read {
                                                        read_up_to: READ_BUDGET,
                                                    },
                                                },
                                            ),
                                        ],
                                        ..d
                                    },
                                ),
                            }
                        },
                    },
                },
            }
        }
    }

    /// The pipes among the first `n` of the plan whose sink is `sink` are
    /// read and sent to the terminal: to its output where `sink` is
    /// `Stdout`, to its errors where it is `Stderr`.
    pub open spec fn sinks(self, map: Seq<Option<Sink>>, n: int, sink: Sink) -> Result<
        Run,
        SessionError,
    >
        decreases n,
    {
        if n <= 0 || n > map.len() {
            Ok(self)
        } else {
            match self.sinks(map, n - 1, sink) {
                Err(e) => Err(e),
                Ok(r) => if map[n - 1] == Some(sink) {
                    let i = (n - 1) as usize;
                    if !r.has_read(i) {
                        Err(SessionError::BadPlan)
                    } else {
                        let pipe = r.pairs[n - 1].0.unwrap();
                        Ok(
                            Run {
                                s: SessionView {
                                    stdout_pipes: if sink is Stdout {
                                        r.s.stdout_pipes.insert(pipe)
                                    } else {
                                        r.s.stdout_pipes
                                    },
                                    stderr_pipes: if sink is Stdout {
                                        r.s.stderr_pipes
                                    } else {
                                        r.s.stderr_pipes.insert(pipe)
                                    },
                                    ..r.s
                                },
                                sent: r.sent + reading(r.remote(), pipe),
                                ..r.take_read(i)
                            },
                        )
                    }
                } else {
                    Ok(r)
                },
            }
        }
    }

    /// A whole plan: its steps, and unless it asks to leave, the probe, the
    /// pipes for the terminal's output, those for its errors, and then the
    /// processes begun are waited for.
    pub open spec fn plan(self, plan: PlanView) -> Result<Run, SessionError> {
        match self.steps(plan.steps) {
            Err(e) => Err(e),
            Ok(r) => if r.exit {
                Ok(r)
            } else {
                match r.probe() {
                    Err(e) => Err(e),
                    Ok(p) => match p.sinks(plan.sink_map, plan.sink_map.len() as int, Sink::Stdout) {
                        Err(e) => Err(e),
                        Ok(o) => match o.sinks(
                            plan.sink_map,
                            plan.sink_map.len() as int,
                            Sink::Stderr,
                        ) {
                            Err(e) => Err(e),
                            Ok(f) => Ok(
                                Run {
                                    s: SessionView { waiting_for: f.wait.to_set(), ..f.s },
                                    ..f
                                },
                            ),
                        },
                    },
                }
            },
        }
    }
}

/// The mathematical value of a file's path that may be there.
pub open spec fn path_view(path: Option<String>) -> Option<Seq<char>> {
    match path {
        Some(p) => Some(p@),
        None => None,
    }
}

/// The number of handles that it takes to run one command: a pipe for its
/// stderr, one for its stdin, one for its stdout, the process's own, and
/// one more pipe where its stdout goes to a file.
pub open spec fn handles_to_run(redirected: bool) -> nat {
    if redirected {
        5
    } else {
        4
    }
}

/// The process that comes of running one command when `n` is the next
/// handle, as its user sees it: the writing end of its stdin and the
/// reading ends of its outputs.
pub open spec fn ran(n: nat, redirected: bool) -> ReadProcess {
    ReadProcess {
        id: ProcessId((n + handles_to_run(redirected) - 1) as usize),
        pipes: ReadPipes {
            stdin: WritePipe((n + 1) as usize),
            stdout: ReadPipe((if redirected {
                n + 3
            } else {
                n + 2
            }) as usize),
            stderr: ReadPipe(n as usize),
        },
    }
}

/// The requests that run one command on `remote` when `n` is the next
/// handle: where its stdout goes to a file, the file is opened first.
pub open spec fn run_requests(
    remote: usize,
    n: nat,
    command: CommandView,
    redirect: Option<Seq<char>>,
) -> Seq<RequestView> {
    let begin = to(
        remote,
        RemoteRequestView::BeginCommand {
            block_for: Map::empty(),
            process: AbstractProcess {
                id: ProcessId((n + handles_to_run(redirect is Some) - 1) as usize),
                stdin: (n + 1) as usize,
                stdout: (n + 2) as usize,
                stderr: n as usize,
            },
            command,
        },
    );
    match redirect {
        Some(path) => seq![
            to(remote, RemoteRequestView::OpenOutputFile { id: (n + 2) as usize, path }),
            begin,
        ],
        None => seq![begin],
    }
}

/// The endpoint after one command has been run on `remote`.
pub open spec fn after_run(e: EndpointView, remote: usize, redirected: bool) -> EndpointView {
    let n = e.next_id;
    let three = e.pipes.insert(n as usize).insert((n + 1) as usize).insert((n + 2) as usize);
    EndpointView {
        next_id: n + handles_to_run(redirected),
        pipes: if redirected {
            three.insert((n + 3) as usize)
        } else {
            three
        },
        jobs: e.jobs.insert((n + handles_to_run(redirected) - 1) as usize, remote),
        ..e
    }
}

/// The response is about a pipe that the endpoint has not made.
pub open spec fn about_stray_pipe(e: EndpointView, message: RemoteResponseView) -> bool {
    message matches RemoteResponseView::Pipe { id, .. } && !e.pipes.contains(id)
}

/// A frontend's session: its endpoint and what it waits for.
pub struct Session {
    pub endpoint: Endpoint,
    pub handler: StackedRemotes,
}

impl View for Session {
    type V = SessionView;

    open spec fn view(&self) -> SessionView {
        SessionView {
            endpoint: self.endpoint@,
            stack: self.handler.remotes@.map_values(|r: (RemoteId, RemoteInfo)| r.0.0),
            infos: self.handler.remotes@.map_values(|r: (RemoteId, RemoteInfo)| r.1@),
            waiting_for: self.handler.waiting_for@,
            waiting_for_eof: self.handler.waiting_for_eof@,
            waiting_for_remote: self.handler.waiting_for_remote,
            gathering: Map::new(
                |p: usize| self.handler.gathering_output@.contains_key(p),
                |p: usize| self.handler.gathering_output@[p]@,
            ),
            finished: Map::new(
                |p: usize| self.handler.finished_output@.contains_key(p),
                |p: usize| self.handler.finished_output@[p]@,
            ),
            cwd_for_remote: self.handler.cwd_for_remote@,
            stdout_pipes: self.handler.stdout_pipes@,
            stderr_pipes: self.handler.stderr_pipes@,
        }
    }
}

/// What carrying out a plan has come to.
pub struct Outcome {
    /// The requests to send, in order.
    pub requests: Vec<Request>,
    /// The plan asks to leave the shell.
    pub exit: bool,
}

struct PlanRun {
    pairs: Vec<(Option<usize>, Option<usize>)>,
    wait: Vec<usize>,
    requests: Vec<Request>,
}

/// The mathematical values of a list of requests.
pub open spec fn request_views(requests: Seq<Request>) -> Seq<RequestView> {
    requests.map_values(|r: Request| r@)
}

impl Session {
    /// A session with a new endpoint, in which nothing is ready yet.
    pub fn new() -> (s: Session)
        ensures
            s.endpoint@.wf(),
            s.endpoint@.next_id == 0,
            s.endpoint@.remotes == Map::<usize, Option<usize>>::empty().insert(0, None),
            s.endpoint@.jobs == Map::<usize, usize>::empty(),
            s.endpoint@.pipes == Set::<usize>::empty(),
            s@.stack.len() == 0,
            s.handler.remotes@.len() == 0,
            s.handler.waiting_for@ == Set::<usize>::empty(),
            s.handler.waiting_for_eof@ == Set::<usize>::empty(),
            s.handler.waiting_for_remote is None,
            s.handler.gathering_output@ == Map::<usize, Vec<u8>>::empty(),
            s.handler.finished_output@ == Map::<usize, Vec<u8>>::empty(),
            s.handler.cwd_for_remote@ == Map::<usize, usize>::empty(),
            s.handler.stdout_pipes@ == Set::<usize>::empty(),
            s.handler.stderr_pipes@ == Set::<usize>::empty(),
    {
        Session { endpoint: Endpoint::new(), handler: StackedRemotes::new() }
    }

    spec fn running(&self, run: &PlanRun, exit: bool) -> Run {
        Run {
            s: self@,
            pairs: run.pairs@,
            wait: run.wait@,
            sent: request_views(run.requests@),
            exit,
        }
    }

    /// The innermost remote.
    pub fn cur_remote(&self) -> (remote: RemoteId)
        requires
            self@.stack.len() > 0,
        ensures
            remote.0 == self@.stack.last(),
    {
        self.handler.remotes[self.handler.remotes.len() - 1].0
    }

    /// Begins a remote under the innermost one and waits for it to become
    /// ready. Where this is refused, nothing changes.
    pub fn begin_remote(&mut self, command: Command) -> (res: Result<Request, SessionError>)
        requires
            old(self).endpoint@.wf(),
        ensures
            final(self).endpoint@.wf(),
            follows(old(self).endpoint@, final(self).endpoint@),
            match res {
                Ok(req) => {
                    &&& old(self)@.stack.len() > 0
                    &&& old(self).handler.waiting_for_remote is None
                    &&& old(self).endpoint@.next_id < usize::MAX
                    &&& old(self).endpoint@.remotes.contains_key(old(self)@.stack.last())
                    &&& req@ == to(
                        old(self)@.stack.last(),
                        RemoteRequestView::BeginRemote {
                            id: old(self).endpoint@.next_remote() as usize,
                            command: command@,
                        },
                    )
                    &&& final(self).handler == (StackedRemotes {
                        waiting_for_remote: Some(
                            RemoteId(old(self).endpoint@.next_remote() as usize),
                        ),
                        ..old(self).handler
                    })
                    &&& final(self).endpoint@ == (EndpointView {
                        remotes: old(self).endpoint@.remotes.insert(
                            old(self).endpoint@.next_remote() as usize,
                            Some(old(self)@.stack.last()),
                        ),
                        next_id: old(self).endpoint@.next_remote() + 1,
                        ..old(self).endpoint@
                    })
                },
                Err(e) => {
                    &&& e == (if old(self)@.stack.len() == 0 {
                        SessionError::NoRemote
                    } else if old(self).handler.waiting_for_remote is Some {
                        SessionError::AlreadyWaiting
                    } else if old(self).endpoint@.next_id >= usize::MAX {
                        SessionError::Exhausted
                    } else {
                        SessionError::Endpoint(EndpointError::UnknownRemote)
                    })
                    &&& (e == SessionError::Endpoint(EndpointError::UnknownRemote)
                        ==> !old(self).endpoint@.remotes.contains_key(old(self)@.stack.last()))
                    &&& final(self).endpoint@ == old(self).endpoint@
                    &&& final(self).handler == old(self).handler
                },
            },
    {
        if self.handler.remotes.len() == 0 {
            return Err(SessionError::NoRemote);
        }
        if self.handler.waiting_for_remote.is_some() {
            return Err(SessionError::AlreadyWaiting);
        }
        if self.endpoint.is_exhausted() {
            return Err(SessionError::Exhausted);
        }
        let cur = self.cur_remote();
        match self.endpoint.remote(cur, command) {
            Ok((remote, req)) => {
                self.handler.waiting_for_remote = Some(remote);
                Ok(req)
            },
            Err(e) => Err(SessionError::Endpoint(e)),
        }
    }

    /// Runs one command on the innermost remote, with pipes of its own and
    /// behind no other process. Where `redirect` names a file, the command's
    /// stdout goes to that file. Gives the process with the ends of its
    /// pipes that are its user's, and the requests to send, in order.
    /// Where this is refused, nothing changes.
    pub fn run(&mut self, command: Command, redirect: Option<String>) -> (res: Result<
        (ReadProcess, Vec<Request>),
        SessionError,
    >)
        requires
            old(self).endpoint@.wf(),
        ensures
            final(self).endpoint@.wf(),
            follows(old(self).endpoint@, final(self).endpoint@),
            final(self).handler == old(self).handler,
            match res {
                Ok((process, requests)) => {
                    &&& old(self)@.stack.len() > 0
                    &&& old(self).endpoint@.next_id + handles_to_run(redirect is Some)
                        <= usize::MAX
                    &&& old(self).endpoint@.remotes.contains_key(old(self)@.stack.last())
                    &&& process == ran(old(self).endpoint@.next_id, redirect is Some)
                    &&& request_views(requests@) == run_requests(
                        old(self)@.stack.last(),
                        old(self).endpoint@.next_id,
                        command@,
                        path_view(redirect),
                    )
                    &&& final(self).endpoint@ == after_run(
                        old(self).endpoint@,
                        old(self)@.stack.last(),
                        redirect is Some,
                    )
                },
                Err(e) => {
                    &&& e == (if old(self)@.stack.len() == 0 {
                        SessionError::NoRemote
                    } else if old(self).endpoint@.next_id + handles_to_run(redirect is Some)
                        > usize::MAX {
                        SessionError::Exhausted
                    } else {
                        SessionError::Endpoint(EndpointError::UnknownRemote)
                    })
                    &&& (e == SessionError::Endpoint(EndpointError::UnknownRemote)
                        ==> !old(self).endpoint@.remotes.contains_key(old(self)@.stack.last()))
                    &&& final(self).endpoint@ == old(self).endpoint@
                },
            },
    {
        if self.handler.remotes.len() == 0 {
            return Err(SessionError::NoRemote);
        }
        let needed: usize = if redirect.is_some() {
            5
        } else {
            4
        };
        if self.endpoint.handles_left() < needed {
            return Err(SessionError::Exhausted);
        }
        let cur = self.cur_remote();
        if !self.endpoint.is_alive(cur) {
            return Err(SessionError::Endpoint(EndpointError::UnknownRemote));
        }
        let ghost before = self.endpoint@;
        let ghost asked = path_view(redirect);
        let mut requests: Vec<Request> = Vec::new();
        let (stderr_read, stderr_write) = self.endpoint.pipe();
        let (stdin_read, stdin_write) = self.endpoint.pipe();
        let (stdout_read, stdout_write) = match redirect {
            Some(path) => {
                match self.endpoint.open_output_file(cur, path) {
                    Ok((file, req)) => {
                        requests.push(req);
                        let (read, _) = self.endpoint.pipe();
                        (read, file)
                    },
                    Err(e) => {
                        return Err(SessionError::Endpoint(e));
                    },
                }
            },
            None => self.endpoint.pipe(),
        };
        let pipes = WritePipes { stdin: stdin_read, stdout: stdout_write, stderr: stderr_write };
        let ghost sent = request_views(requests@);
        match self.endpoint.command(cur, command, HashMap::new(), pipes) {
            Ok((id, req)) => {
                requests.push(req);
                proof {
                    assert(request_views(requests@) =~= sent.push(req@));
                    assert(request_views(requests@) =~= run_requests(
                        cur.0,
                        before.next_id,
                        command@,
                        asked,
                    ));
                    assert(self.endpoint@.pipes =~= after_run(before, cur.0, asked is Some).pipes);
                    assert(self.endpoint@ == after_run(before, cur.0, asked is Some));
                    assert(follows(before, self.endpoint@));
                }
                let process = ReadProcess {
                    id,
                    pipes: ReadPipes { stdin: stdin_write, stdout: stdout_read, stderr: stderr_read },
                };
                Ok((process, requests))
            },
            Err(e) => Err(SessionError::Endpoint(e)),
        }
    }

    /// Takes a response from the transport. The endpoint sorts it; a
    /// process whose end it tells is no longer tracked; and the session's
    /// books take it in. Gives what is to be done outside of the books.
    pub fn receive(&mut self, message: Response) -> (res: Result<Effect, SessionError>)
        requires
            old(self).endpoint@.wf(),
        ensures
            final(self).endpoint@.wf(),
            follows(old(self).endpoint@, final(self).endpoint@),
            final(self).endpoint@ == (match message@.message {
                RemoteResponseView::CommandDone { id, .. } => EndpointView {
                    jobs: old(self).endpoint@.jobs.remove(id.0),
                    ..old(self).endpoint@
                },
                _ => old(self).endpoint@,
            }),
            if about_stray_pipe(old(self).endpoint@, message@.message) {
                &&& res == Err::<Effect, SessionError>(
                    SessionError::Endpoint(EndpointError::UnknownPipe),
                )
                &&& final(self).handler == old(self).handler
            } else {
                exists|incoming: Incoming|
                    {
                        &&& #[trigger] incoming.as_response(message.remote_id) == (
                            message.remote_id,
                            message@.message,
                        )
                        &&& handled(old(self).handler, final(self).handler, incoming, res)
                    }
            },
    {
        let incoming = match self.endpoint.receive(message) {
            Ok(incoming) => incoming,
            Err(e) => {
                return Err(SessionError::Endpoint(e));
            },
        };
        match &incoming {
            Incoming::CommandDone { id, exit_code: _ } => {
                self.endpoint.command_done(*id);
            },
            _ => {},
        }
        let ghost taken = incoming;
        let res = self.handler.handle(incoming);
        assert(taken.as_response(message.remote_id) == (message.remote_id, message@.message));
        res
    }

    /// Ends the innermost remote and takes it off the stack. Where the
    /// endpoint refuses, because a process or a remote still hangs under
    /// it, nothing changes.
    pub fn end_remote(&mut self) -> (res: Result<Request, SessionError>)
        requires
            old(self).endpoint@.wf(),
        ensures
            final(self).endpoint@.wf(),
            follows(old(self).endpoint@, final(self).endpoint@),
            match res {
                Ok(req) => {
                    &&& old(self)@.stack.len() > 0
                    &&& old(self).endpoint@.remotes.contains_key(old(self)@.stack.last())
                    &&& old(self).endpoint@.remotes[old(self)@.stack.last()] is Some
                    &&& !old(self).endpoint@.busy(old(self)@.stack.last())
                    &&& req@ == to(
                        old(self).endpoint@.remotes[old(self)@.stack.last()].unwrap(),
                        RemoteRequestView::EndRemote { id: old(self)@.stack.last() },
                    )
                    &&& final(self).endpoint@ == (EndpointView {
                        remotes: old(self).endpoint@.remotes.remove(old(self)@.stack.last()),
                        ..old(self).endpoint@
                    })
                    &&& final(self).handler.remotes@ == old(self).handler.remotes@.drop_last()
                },
                Err(e) => {
                    &&& e == (if old(self)@.stack.len() == 0 {
                        SessionError::NoRemote
                    } else if !old(self).endpoint@.remotes.contains_key(old(self)@.stack.last()) {
                        SessionError::Endpoint(EndpointError::UnknownRemote)
                    } else if old(self).endpoint@.remotes[old(self)@.stack.last()] is None {
                        SessionError::Endpoint(EndpointError::RootRemote)
                    } else {
                        SessionError::Endpoint(EndpointError::Busy)
                    })
                    &&& (e == SessionError::Endpoint(EndpointError::Busy)
                        ==> old(self).endpoint@.busy(old(self)@.stack.last()))
                    &&& final(self).endpoint@ == old(self).endpoint@
                    &&& final(self).handler.remotes@ == old(self).handler.remotes@
                },
            },
            final(self).handler.waiting_for == old(self).handler.waiting_for,
            final(self).handler.waiting_for_eof == old(self).handler.waiting_for_eof,
            final(self).handler.waiting_for_remote == old(self).handler.waiting_for_remote,
            final(self).handler.gathering_output == old(self).handler.gathering_output,
            final(self).handler.finished_output == old(self).handler.finished_output,
            final(self).handler.cwd_for_remote == old(self).handler.cwd_for_remote,
            final(self).handler.stdout_pipes == old(self).handler.stdout_pipes,
            final(self).handler.stderr_pipes == old(self).handler.stderr_pipes,
    {
        let n = self.handler.remotes.len();
        if n == 0 {
            return Err(SessionError::NoRemote);
        }
        let cur = self.handler.remotes[n - 1].0;
        assert(cur.0 == self@.stack.last());
        match self.endpoint.close_remote(cur) {
            Ok(req) => {
                self.handler.remotes.pop();
                assert(self.handler.remotes@ =~= old(self).handler.remotes@.drop_last());
                Ok(req)
            },
            Err(e) => Err(SessionError::Endpoint(e)),
        }
    }

    /// Cancels every process that is waited for, as the user's interrupt
    /// asks. The processes stay waited for: their end is still to come.
    pub fn cancel_all(&mut self) -> (res: Result<Vec<Request>, SessionError>)
        requires
            old(self).endpoint@.wf(),
        ensures
            final(self).endpoint@.wf(),
            follows(old(self).endpoint@, final(self).endpoint@),
            final(self).handler == old(self).handler,
            match res {
                Ok(requests) => {
                    &&& forall|p: usize|
                        old(self)@.waiting_for.contains(p) ==> old(self).endpoint@.jobs.contains_key(
                            p,
                        )
                    &&& requests@.len() == old(self)@.waiting_for.len()
                    &&& forall|i: int|
                        0 <= i < requests@.len() ==> (
                        #[trigger] requests@[i]@.message matches RemoteRequestView::CancelCommand {
                            id,
                        } && old(self)@.waiting_for.contains(id.0) && requests@[i]@.remote_id
                            == old(self).endpoint@.jobs[id.0])
                    &&& forall|p: usize|
                        old(self)@.waiting_for.contains(p) ==> exists|i: int|
                            0 <= i < requests@.len() && (#[trigger] requests@[i]@).message
                                == (RemoteRequestView::CancelCommand { id: ProcessId(p) })
                    &&& forall|p: usize|
                        final(self).endpoint@.jobs.contains_key(p) <==> old(self).endpoint@.jobs.contains_key(p) && !old(self)@.waiting_for.contains(p)
                },
                Err(e) => e == SessionError::Endpoint(EndpointError::UnknownProcess) && exists|
                    p: usize,
                |
                    old(self)@.waiting_for.contains(p) && !old(self).endpoint@.jobs.contains_key(p),
            },
    {
        let ids = members(&self.handler.waiting_for);
        let mut requests: Vec<Request> = Vec::new();
        let mut i: usize = 0;
        proof {
            ids@.unique_seq_to_set();
            assert(ids@.to_set() =~= self@.waiting_for);
        }
        while i < ids.len()
            invariant
                0 <= i <= ids@.len(),
                ids@.no_duplicates(),
                ids@.len() == old(self)@.waiting_for.len(),
                forall|x: usize| ids@.contains(x) <==> old(self)@.waiting_for.contains(x),
                self.handler == old(self).handler,
                self.endpoint@.wf(),
                follows(old(self).endpoint@, self.endpoint@),
                requests@.len() == i,
                forall|k: int| 0 <= k < i ==> old(self).endpoint@.jobs.contains_key(#[trigger] ids@[k]),
                forall|k: int|
                    0 <= k < i ==> (#[trigger] requests@[k]@) == to(
                        old(self).endpoint@.jobs[ids@[k]],
                        RemoteRequestView::CancelCommand { id: ProcessId(ids@[k]) },
                    ),
                forall|p: usize|
                    self.endpoint@.jobs.contains_key(p) <==> old(self).endpoint@.jobs.contains_key(p)
                        && !ids@.take(i as int).contains(p),
                forall|p: usize|
                    self.endpoint@.jobs.contains_key(p) ==> self.endpoint@.jobs[p] == old(self).endpoint@.jobs[p],
                self.endpoint@.next_id == old(self).endpoint@.next_id,
            decreases ids@.len() - i,
        {
            let id = ids[i];
            let ghost before = self.endpoint@;
            proof {
                assert(ids@.contains(id));
                let shorter = ids@.take(i as int);
                let longer = ids@.take(i + 1);
                assert forall|p: usize| longer.contains(p) == (shorter.contains(p) || p == id) by {
                    if shorter.contains(p) {
                        let k = choose|k: int| 0 <= k < shorter.len() && shorter[k] == p;
                        assert(longer[k] == p);
                    }
                    if p == id {
                        assert(longer[i as int] == p);
                    }
                    if longer.contains(p) {
                        let k = choose|k: int| 0 <= k < longer.len() && longer[k] == p;
                        if k < i {
                            assert(shorter[k] == p);
                        }
                    }
                }
                if shorter.contains(id) {
                    let k = choose|k: int| 0 <= k < shorter.len() && shorter[k] == id;
                    assert(ids@[k] == ids@[i as int]);
                }
            }
            match self.endpoint.close_process(ProcessId(id)) {
                Ok(req) => {
                    requests.push(req);
                    proof {
                        crate::endpoint::lemma_follows_twice(
                            old(self).endpoint@,
                            before,
                            self.endpoint@,
                        );
                    }
                },
                Err(e) => {
                    return Err(SessionError::Endpoint(e));
                },
            }
            i += 1;
        }
        proof {
            assert(ids@.take(i as int) =~= ids@);
            assert forall|p: usize| old(self)@.waiting_for.contains(p) implies exists|k: int|
                0 <= k < requests@.len() && (#[trigger] requests@[k]@).message
                    == (RemoteRequestView::CancelCommand { id: ProcessId(p) }) by {
                assert(ids@.contains(p));
                let k = choose|k: int| 0 <= k < ids@.len() && ids@[k] == p;
                assert(requests@[k]@.message == (RemoteRequestView::CancelCommand {
                    id: ProcessId(p),
                }));
            }
            assert forall|p: usize| old(self)@.waiting_for.contains(p) implies old(self).endpoint@.jobs.contains_key(p) by {
                assert(ids@.contains(p));
                let k = choose|k: int| 0 <= k < ids@.len() && ids@[k] == p;
                assert(old(self).endpoint@.jobs.contains_key(ids@[k]));
            }
        }
        Ok(requests)
    }
}

impl Session {
    fn step_pipe(&mut self, run: &mut PlanRun) -> (res: Result<(), SessionError>)
        requires
            old(self).endpoint@.wf(),
        ensures
            final(self).endpoint@.wf(),
            follows(old(self).endpoint@, final(self).endpoint@),
            final(self).handler == old(self).handler,
            match res {
                Ok(()) => old(self).running(old(run), false).pipe() == Ok::<Run, SessionError>(
                    final(self).running(final(run), false),
                ),
                Err(e) => old(self).running(old(run), false).pipe() == Err::<Run, SessionError>(e),
            },
    {
        if self.endpoint.is_exhausted() {
            return Err(SessionError::Exhausted);
        }
        let (r, w) = self.endpoint.pipe();
        run.pairs.push((Some(r.0), Some(w.0)));
        Ok(())
    }

    fn begin(
        &mut self,
        run: &mut PlanRun,
        command: Command,
        block_for: HashMap<usize, Condition>,
        stdin: usize,
        stdout: usize,
        stderr: usize,
    ) -> (res: Result<(), SessionError>)
        requires
            old(self).endpoint@.wf(),
            old(self)@.stack.len() > 0,
        ensures
            final(self).endpoint@.wf(),
            follows(old(self).endpoint@, final(self).endpoint@),
            final(self).handler == old(self).handler,
            match res {
                Ok(()) => old(self).running(old(run), false).command(
                    command@,
                    block_for@,
                    stdin,
                    stdout,
                    stderr,
                ) == Ok::<Run, SessionError>(final(self).running(final(run), false)),
                Err(e) => old(self).running(old(run), false).command(
                    command@,
                    block_for@,
                    stdin,
                    stdout,
                    stderr,
                ) == Err::<Run, SessionError>(e),
            },
    {
        if self.endpoint.is_exhausted() {
            return Err(SessionError::Exhausted);
        }
        let remote = self.cur_remote();
        let pipes = WritePipes {
            stdin: ReadPipe(stdin),
            stdout: WritePipe(stdout),
            stderr: WritePipe(stderr),
        };
        match self.endpoint.command(remote, command, block_for, pipes) {
            Ok((pid, req)) => {
                let ghost sent = request_views(run.requests@);
                run.wait.push(pid.0);
                run.requests.push(req);
                assert(request_views(run.requests@) =~= sent.push(req@));
                Ok(())
            },
            Err(e) => Err(SessionError::Endpoint(e)),
        }
    }

    fn step_run(&mut self, run: &mut PlanRun, command: Command, pr: &PlanProcess) -> (res: Result<
        (),
        SessionError,
    >)
        requires
            old(self).endpoint@.wf(),
        ensures
            final(self).endpoint@.wf(),
            follows(old(self).endpoint@, final(self).endpoint@),
            final(self).handler == old(self).handler,
            match res {
                Ok(()) => old(self).running(old(run), false).run(command@, *pr) == Ok::<
                    Run,
                    SessionError,
                >(final(self).running(final(run), false)),
                Err(e) => old(self).running(old(run), false).run(command@, *pr) == Err::<
                    Run,
                    SessionError,
                >(e),
            },
    {
        if self.handler.remotes.len() == 0 {
            return Err(SessionError::NoRemote);
        }
        if pr.stdout >= run.pairs.len() {
            return Err(SessionError::BadPlan);
        }
        let stdout = match run.pairs[pr.stdout].1 {
            Some(w) => w,
            None => {
                return Err(SessionError::BadPlan);
            },
        };
        let kept = run.pairs[pr.stdout].0;
        run.pairs.set(pr.stdout, (kept, None));
        if pr.stderr >= run.pairs.len() {
            return Err(SessionError::BadPlan);
        }
        let stderr = match run.pairs[pr.stderr].1 {
            Some(w) => w,
            None => {
                return Err(SessionError::BadPlan);
            },
        };
        let kept = run.pairs[pr.stderr].0;
        run.pairs.set(pr.stderr, (kept, None));
        if pr.stdin >= run.pairs.len() {
            return Err(SessionError::BadPlan);
        }
        let stdin = match run.pairs[pr.stdin].0 {
            Some(r) => r,
            None => {
                return Err(SessionError::BadPlan);
            },
        };
        let kept = run.pairs[pr.stdin].1;
        run.pairs.set(pr.stdin, (None, kept));
        let block_for: HashMap<usize, Condition> = HashMap::new();
        self.begin(run, command, block_for, stdin, stdout, stderr)
    }

    fn step_open_output_file(&mut self, run: &mut PlanRun, path: String) -> (res: Result<
        (),
        SessionError,
    >)
        requires
            old(self).endpoint@.wf(),
        ensures
            final(self).endpoint@.wf(),
            follows(old(self).endpoint@, final(self).endpoint@),
            final(self).handler == old(self).handler,
            match res {
                Ok(()) => old(self).running(old(run), false).open_output_file(path@) == Ok::<
                    Run,
                    SessionError,
                >(final(self).running(final(run), false)),
                Err(e) => old(self).running(old(run), false).open_output_file(path@) == Err::<
                    Run,
                    SessionError,
                >(e),
            },
    {
        if self.handler.remotes.len() == 0 {
            return Err(SessionError::NoRemote);
        }
        if self.endpoint.is_exhausted() {
            return Err(SessionError::Exhausted);
        }
        let remote = self.cur_remote();
        match self.endpoint.open_output_file(remote, path) {
            Ok((handle, req)) => {
                let ghost sent = request_views(run.requests@);
                run.pairs.push((None, Some(handle.0)));
                run.requests.push(req);
                assert(request_views(run.requests@) =~= sent.push(req@));
                Ok(())
            },
            Err(e) => Err(SessionError::Endpoint(e)),
        }
    }

    /// Gives `true` where the plan asks to leave the shell.
    fn step_close(&mut self, run: &mut PlanRun) -> (res: Result<bool, SessionError>)
        requires
            old(self).endpoint@.wf(),
        ensures
            final(self).endpoint@.wf(),
            follows(old(self).endpoint@, final(self).endpoint@),
            match res {
                Ok(exit) => old(self).running(old(run), false).close() == Ok::<Run, SessionError>(
                    final(self).running(final(run), exit),
                ),
                Err(e) => old(self).running(old(run), false).close() == Err::<Run, SessionError>(e),
            },
    {
        if self.handler.remotes.len() <= 1 {
            return Ok(true);
        }
        match self.end_remote() {
            Ok(req) => {
                let ghost sent = request_views(run.requests@);
                run.requests.push(req);
                proof {
                    assert(request_views(run.requests@) =~= sent.push(req@));
                    assert(self@.gathering =~= old(self)@.gathering);
                    assert(self@.finished =~= old(self)@.finished);
                    assert(self@.stack =~= old(self)@.stack.drop_last());
                    assert(self@.infos =~= old(self)@.infos.drop_last());
                }
                Ok(false)
            },
            Err(e) => Err(e),
        }
    }

    /// Carries out one step of a plan. Gives `true` where the plan asks to
    /// leave the shell.
    fn step(&mut self, run: &mut PlanRun, step: Step) -> (res: Result<bool, SessionError>)
        requires
            old(self).endpoint@.wf(),
        ensures
            final(self).endpoint@.wf(),
            follows(old(self).endpoint@, final(self).endpoint@),
            match res {
                Ok(exit) => old(self).running(old(run), false).step(step@) == Ok::<
                    Run,
                    SessionError,
                >(final(self).running(final(run), exit)),
                Err(e) => old(self).running(old(run), false).step(step@) == Err::<Run, SessionError>(
                    e,
                ),
            },
    {
        match step {
            Step::Pipe => {
                match self.step_pipe(run) {
                    Ok(()) => Ok(false),
                    Err(e) => Err(e),
                }
            },
            Step::Remote(_, RemoteStep::Run(command, pr)) => {
                match self.step_run(run, command, &pr) {
                    Ok(()) => Ok(false),
                    Err(e) => Err(e),
                }
            },
            Step::Remote(_, RemoteStep::Close) => self.step_close(run),
            Step::Remote(_, RemoteStep::OpenOutputFile(path)) => {
                match self.step_open_output_file(run, path) {
                    Ok(()) => Ok(false),
                    Err(e) => Err(e),
                }
            },
            _ => Err(SessionError::BadPlan),
        }
    }
}

/// The conditions that make a process wait for every process of a list.
fn wait_for_all(wait: &Vec<usize>) -> (block_for: HashMap<usize, Condition>)
    ensures
        block_for@ == after_all(wait@),
{
    let mut block_for: HashMap<usize, Condition> = HashMap::new();
    let mut i: usize = 0;
    while i < wait.len()
        invariant
            0 <= i <= wait@.len(),
            block_for@ == after_all(wait@.take(i as int)),
        decreases wait@.len() - i,
    {
        let ghost shorter = wait@.take(i as int);
        let ghost longer = wait@.take(i + 1);
        block_for.insert(wait[i], None);
        proof {
            assert forall|p: usize| longer.contains(p) == (shorter.contains(p) || p
                == wait@[i as int]) by {
                if shorter.contains(p) {
                    let k = choose|k: int| 0 <= k < shorter.len() && shorter[k] == p;
                    assert(longer[k] == p);
                }
                if p == wait@[i as int] {
                    assert(longer[i as int] == p);
                }
                if longer.contains(p) {
                    let k = choose|k: int| 0 <= k < longer.len() && longer[k] == p;
                    if k < i {
                        assert(shorter[k] == p);
                    }
                }
            }
            assert(block_for@ =~= after_all(longer));
        }
        i += 1;
    }
    proof {
        assert(wait@.take(i as int) =~= wait@);
    }
    block_for
}

impl Session {
    #[verifier::rlimit(60)]
    fn probe(&mut self, run: &mut PlanRun) -> (res: Result<(), SessionError>)
        requires
            old(self).endpoint@.wf(),
        ensures
            final(self).endpoint@.wf(),
            follows(old(self).endpoint@, final(self).endpoint@),
            match res {
                Ok(()) => old(self).running(old(run), false).probe() == Ok::<Run, SessionError>(
                    final(self).running(final(run), false),
                ),
                Err(e) => old(self).running(old(run), false).probe() == Err::<Run, SessionError>(e),
            },
    {
        if self.handler.remotes.len() == 0 {
            return Err(SessionError::NoRemote);
        }
        let ghost start = self.running(run, false);
        let ghost e0 = self.endpoint@;
        if self.endpoint.is_exhausted() {
            return Err(SessionError::Exhausted);
        }
        let (stdout_read, stdout_write) = self.endpoint.pipe();
        let ghost e1 = self.endpoint@;
        if self.endpoint.is_exhausted() {
            return Err(SessionError::Exhausted);
        }
        let (stderr_read, stderr_write) = self.endpoint.pipe();
        let ghost e2 = self.endpoint@;
        if self.endpoint.is_exhausted() {
            return Err(SessionError::Exhausted);
        }
        let (stdin_read, _stdin_write) = self.endpoint.pipe();
        let ghost e3 = self.endpoint@;
        proof {
            crate::endpoint::lemma_follows_twice(e0, e1, e2);
            crate::endpoint::lemma_follows_twice(e0, e2, e3);
            let a = start.pipe().unwrap();
            let b = a.pipe().unwrap();
            let c = b.pipe().unwrap();
            assert((Run { pairs: start.pairs, ..c }) == self.running(run, false));
        }
        let block_for = wait_for_all(&run.wait);
        let remote = self.cur_remote();
        match self.begin(
            run,
            Command::GetDirectory,
            block_for,
            stdin_read.0,
            stdout_write.0,
            stderr_write.0,
        ) {
            Ok(()) => {},
            Err(e) => {
                return Err(e);
            },
        }
        proof {
            crate::endpoint::lemma_follows_twice(e0, e3, self.endpoint@);
        }
        let ghost d = self.running(run, false);
        let ghost sent = request_views(run.requests@);
        let first = self.endpoint.pipe_begin_read(remote, stdout_read);
        let second = self.endpoint.pipe_begin_read(remote, stderr_read);
        let third = self.endpoint.pipe_read(remote, stdout_read, READ_BUDGET);
        let fourth = self.endpoint.pipe_read(remote, stderr_read, READ_BUDGET);
        run.requests.push(first);
        run.requests.push(second);
        run.requests.push(third);
        run.requests.push(fourth);
        self.handler.gathering_output.insert(stdout_read.0, Vec::new());
        self.handler.waiting_for_eof.insert(stdout_read.0);
        self.handler.stderr_pipes.insert(stderr_read.0);
        self.handler.cwd_for_remote.insert(remote.0, stdout_read.0);
        proof {
            assert(request_views(run.requests@) =~= sent + seq![first@, second@, third@, fourth@]);
            assert(self@.gathering =~= d.s.gathering.insert(stdout_read.0, Seq::empty()));
            assert(self@.stack =~= d.s.stack);
        }
        Ok(())
    }

    fn read_sinks(
        &mut self,
        run: &mut PlanRun,
        map: &Vec<Option<Sink>>,
        to_stdout: bool,
    ) -> (res: Result<(), SessionError>)
        requires
            old(self).endpoint@.wf(),
            old(self)@.stack.len() > 0,
        ensures
            final(self).endpoint == old(self).endpoint,
            final(self)@.stack == old(self)@.stack,
            match res {
                Ok(()) => old(self).running(old(run), false).sinks(
                    map@,
                    map@.len() as int,
                    if to_stdout {
                        Sink::Stdout
                    } else {
                        Sink::Stderr
                    },
                ) == Ok::<Run, SessionError>(final(self).running(final(run), false)),
                Err(e) => old(self).running(old(run), false).sinks(
                    map@,
                    map@.len() as int,
                    if to_stdout {
                        Sink::Stdout
                    } else {
                        Sink::Stderr
                    },
                ) == Err::<Run, SessionError>(e),
            },
    {
        let ghost start = self.running(run, false);
        let ghost sink = if to_stdout {
            Sink::Stdout
        } else {
            Sink::Stderr
        };
        let remote = self.cur_remote();
        let mut n: usize = 0;
        while n < map.len()
            invariant
                0 <= n <= map@.len(),
                self.endpoint == old(self).endpoint,
                self@.stack == old(self)@.stack,
                self@.stack.len() > 0,
                remote.0 == self@.stack.last(),
                start == old(self).running(old(run), false),
                sink == if to_stdout {
                    Sink::Stdout
                } else {
                    Sink::Stderr
                },
                start.sinks(map@, n as int, sink) == Ok::<Run, SessionError>(
                    self.running(run, false),
                ),
            decreases map@.len() - n,
        {
            let ghost before = self.running(run, false);
            let wanted = match &map[n] {
                Some(Sink::Stdout) => to_stdout,
                Some(Sink::Stderr) => !to_stdout,
                _ => false,
            };
            assert(wanted == (map@[n as int] == Some(sink)));
            if wanted {
                if n >= run.pairs.len() {
                    proof {
                        assert(start.sinks(map@, n + 1, sink) is Err);
                        lemma_sinks_stay_failed(start, map@, n + 1, map@.len() as int, sink);
                    }
                    return Err(SessionError::BadPlan);
                }
                let pipe = match run.pairs[n].0 {
                    Some(pipe) => pipe,
                    None => {
                        proof {
                            assert(start.sinks(map@, n + 1, sink) is Err);
                            lemma_sinks_stay_failed(start, map@, n + 1, map@.len() as int, sink);
                        }
                        return Err(SessionError::BadPlan);
                    },
                };
                let kept = run.pairs[n].1;
                run.pairs.set(n, (None, kept));
                let ghost sent = request_views(run.requests@);
                let first = self.endpoint.pipe_begin_read(remote, ReadPipe(pipe));
                let second = self.endpoint.pipe_read(remote, ReadPipe(pipe), READ_BUDGET);
                run.requests.push(first);
                run.requests.push(second);
                if to_stdout {
                    self.handler.stdout_pipes.insert(pipe);
                } else {
                    self.handler.stderr_pipes.insert(pipe);
                }
                proof {
                    assert(request_views(run.requests@) =~= sent + reading(remote.0, pipe));
                    assert(self@.gathering =~= before.s.gathering);
                    assert(self@.stack =~= before.s.stack);
                }
            }
            n += 1;
        }
        Ok(())
    }

    /// Carries out a plan: makes its pipes, begins its processes and files
    /// on the innermost remote, ends the innermost remote where the plan
    /// closes it, and then, unless the plan asks to leave the shell, begins
    /// the probe for the working directory, starts the reading of the pipes
    /// that go to the terminal, and waits for the processes it has begun.
    /// Gives the requests to send, in order.
    pub fn run_plan(&mut self, plan: Plan) -> (res: Result<Outcome, SessionError>)
        requires
            old(self).endpoint@.wf(),
        ensures
            final(self).endpoint@.wf(),
            follows(old(self).endpoint@, final(self).endpoint@),
            match res {
                Ok(outcome) => Run::start(old(self)@).plan(plan@) == Ok::<Run, SessionError>(
                    Run {
                        s: final(self)@,
                        sent: request_views(outcome.requests@),
                        exit: outcome.exit,
                        ..Run::start(old(self)@).plan(plan@).unwrap()
                    },
                ),
                Err(e) => Run::start(old(self)@).plan(plan@) == Err::<Run, SessionError>(e),
            },
    {
        let Plan { steps, stdin: _, gather_count: _, pager_count: _, sink_map } = plan;
        let ghost list = steps@.map_values(|s: Step| s@);
        let ghost start = Run::start(self@);
        let mut run = PlanRun { pairs: Vec::new(), wait: Vec::new(), requests: Vec::new() };
        proof {
            assert(request_views(run.requests@) =~= Seq::<RequestView>::empty());
            assert(self.running(&run, false) == start);
        }
        let ghost all = steps@;
        for step in it: steps
            invariant
                it.seq() == all,
                list == all.map_values(|s: Step| s@),
                list == plan@.steps,
                start == Run::start(old(self)@),
                self.endpoint@.wf(),
                follows(old(self).endpoint@, self.endpoint@),
                start.steps(list.take(it.index())) == Ok::<Run, SessionError>(
                    self.running(&run, false),
                ),
        {
            let ghost n = it.index();
            let ghost before = self.endpoint@;
            proof {
                assert(list.take(n + 1).drop_last() =~= list.take(n));
                assert(list.take(n + 1).last() == step@);
            }
            match self.step(&mut run, step) {
                Ok(exit) => {
                    proof {
                        crate::endpoint::lemma_follows_twice(
                            old(self).endpoint@,
                            before,
                            self.endpoint@,
                        );
                    }
                    if exit {
                        proof {
                            lemma_steps_stop_at_exit(start, list, n + 1, list.len() as int);
                            assert(list.take(list.len() as int) =~= list);
                        }
                        return Ok(Outcome { requests: run.requests, exit: true });
                    }
                },
                Err(e) => {
                    proof {
                        crate::endpoint::lemma_follows_twice(
                            old(self).endpoint@,
                            before,
                            self.endpoint@,
                        );
                        lemma_steps_stay_failed(start, list, n + 1, list.len() as int);
                        assert(list.take(list.len() as int) =~= list);
                    }
                    return Err(e);
                },
            }
        }
        proof {
            assert(list.take(list.len() as int) =~= list);
        }
        let ghost middle = self.endpoint@;
        match self.probe(&mut run) {
            Ok(()) => {},
            Err(e) => {
                proof {
                    crate::endpoint::lemma_follows_twice(old(self).endpoint@, middle, self.endpoint@);
                }
                return Err(e);
            },
        }
        proof {
            crate::endpoint::lemma_follows_twice(old(self).endpoint@, middle, self.endpoint@);
        }
        match self.read_sinks(&mut run, &sink_map, true) {
            Ok(()) => {},
            Err(e) => {
                return Err(e);
            },
        }
        match self.read_sinks(&mut run, &sink_map, false) {
            Ok(()) => {},
            Err(e) => {
                return Err(e);
            },
        }
        let ghost last = self.running(&run, false);
        self.handler.waiting_for.clear();
        let mut i: usize = 0;
        while i < run.wait.len()
            invariant
                0 <= i <= run.wait@.len(),
                self.handler.waiting_for@ == run.wait@.take(i as int).to_set(),
                self.endpoint@ == last.s.endpoint,
                self@ == (SessionView { waiting_for: self.handler.waiting_for@, ..last.s }),
                last.wait == run.wait@,
                last.pairs == run.pairs@,
                last.sent == request_views(run.requests@),
            decreases run.wait@.len() - i,
        {
            let ghost shorter = run.wait@.take(i as int);
            let ghost gathered = self@.gathering;
            self.handler.waiting_for.insert(run.wait[i]);
            proof {
                assert(run.wait@.take(i + 1) =~= shorter.push(run.wait@[i as int]));
                assert(shorter.push(run.wait@[i as int]).to_set() =~= shorter.to_set().insert(
                    run.wait@[i as int],
                )) by {
                    let longer = shorter.push(run.wait@[i as int]);
                    assert forall|p: usize| longer.contains(p) == (shorter.contains(p) || p
                        == run.wait@[i as int]) by {
                        if shorter.contains(p) {
                            let k = choose|k: int| 0 <= k < shorter.len() && shorter[k] == p;
                            assert(longer[k] == p);
                        }
                        if p == run.wait@[i as int] {
                            assert(longer[shorter.len() as int] == p);
                        }
                        if longer.contains(p) {
                            let k = choose|k: int| 0 <= k < longer.len() && longer[k] == p;
                            if k < shorter.len() {
                                assert(shorter[k] == p);
                            }
                        }
                    }
                }
                assert(self@.gathering =~= gathered);
            }
            i += 1;
        }
        proof {
            assert(run.wait@.take(i as int) =~= run.wait@);
        }
        Ok(Outcome { requests: run.requests, exit: false })
    }
}

/// Once a step has failed, the plan has failed.
pub proof fn lemma_steps_stay_failed(start: Run, steps: Seq<StepView>, n: int, m: int)
    requires
        0 <= n <= m <= steps.len(),
        start.steps(steps.take(n)) is Err,
    ensures
        start.steps(steps.take(m)) == start.steps(steps.take(n)),
    decreases m - n,
{
    if n < m {
        lemma_steps_stay_failed(start, steps, n, m - 1);
        assert(steps.take(m).drop_last() =~= steps.take(m - 1));
    }
}

/// Once a step has asked to leave the shell, the steps after it are not
/// carried out.
pub proof fn lemma_steps_stop_at_exit(start: Run, steps: Seq<StepView>, n: int, m: int)
    requires
        0 <= n <= m <= steps.len(),
        start.steps(steps.take(n)) matches Ok(r) && r.exit,
    ensures
        start.steps(steps.take(m)) == start.steps(steps.take(n)),
    decreases m - n,
{
    if n < m {
        lemma_steps_stop_at_exit(start, steps, n, m - 1);
        assert(steps.take(m).drop_last() =~= steps.take(m - 1));
    }
}

/// Once a sink has failed, the sinks have failed.
pub proof fn lemma_sinks_stay_failed(start: Run, map: Seq<Option<Sink>>, n: int, m: int, sink: Sink)
    requires
        0 <= n <= m <= map.len(),
        start.sinks(map, n, sink) is Err,
    ensures
        start.sinks(map, m, sink) == start.sinks(map, n, sink),
    decreases m - n,
{
    if n < m {
        lemma_sinks_stay_failed(start, map, n, m - 1, sink);
    }
}

/// Calls `String::from_utf8`, which gives the text that the bytes are the
/// UTF-8 encoding of, and an error where they are not UTF-8.
#[verifier::external_body]
fn text_of(bytes: Vec<u8>) -> (text: Option<String>)
    ensures
        text is Some <==> valid_utf8(bytes@),
        text matches Some(t) ==> encode_utf8(t@) == bytes@,
{
    String::from_utf8(bytes).ok()
}

/// `r` is the key of one of the first `n` entries.
pub open spec fn keyed(list: Seq<(usize, usize)>, n: int, r: usize) -> bool {
    exists|j: int| 0 <= j < n && (#[trigger] list[j]).0 == r
}

proof fn lemma_keyed_step(list: Seq<(usize, usize)>, n: int, r: usize)
    requires
        0 <= n < list.len(),
    ensures
        keyed(list, n + 1, r) == (keyed(list, n, r) || list[n].0 == r),
{
    if keyed(list, n, r) {
        let j = choose|j: int| 0 <= j < n && (#[trigger] list[j]).0 == r;
        assert(0 <= j < n + 1 && list[j].0 == r);
    }
    if list[n].0 == r {
        assert(0 <= n < n + 1 && list[n].0 == r);
    }
}

/// `list` holds, for each remote that a probe ran on, the remote once and
/// the output that was gathered from its probe, and these outputs are no
/// longer among the finished ones.
pub open spec fn taken(
    cwd: Map<usize, usize>,
    before: Map<usize, Vec<u8>>,
    after: Map<usize, Vec<u8>>,
    list: Seq<(usize, Vec<u8>)>,
) -> bool {
    &&& forall|k: int|
        0 <= k < list.len() ==> {
            let r = (#[trigger] list[k]).0;
            &&& cwd.contains_key(r)
            &&& before.contains_key(cwd[r])
            &&& !after.contains_key(cwd[r])
            &&& list[k].1@ == before[cwd[r]]@
        }
    &&& forall|r: usize|
        cwd.contains_key(r) ==> exists|k: int| 0 <= k < list.len() && (#[trigger] list[k]).0 == r
    &&& forall|a: int, b: int|
        0 <= a < b < list.len() ==> (#[trigger] list[a]).0 != (#[trigger] list[b]).0
}

/// Every probe has brought its output: the pipe of each probed remote has
/// ended with its output gathered, and no two remotes share a pipe.
pub open spec fn brought(cwd: Map<usize, usize>, finished: Map<usize, Vec<u8>>) -> bool {
    &&& forall|r: usize| #![trigger cwd[r]] cwd.contains_key(r) ==> finished.contains_key(cwd[r])
    &&& forall|r: usize, q: usize|
        cwd.contains_key(r) && cwd.contains_key(q) && r != q ==> #[trigger] cwd[r] != #[trigger] cwd[q]
}

/// Where the output of a probe on `remote` lands, looking at the stack
/// from entry `k` on: the entry whose working directory it becomes, and the
/// bytes of that directory. At each entry of the remote the last byte of
/// the output is taken off; the output lands at the first such entry at
/// which that byte is a newline. `None` where it lands nowhere.
pub open spec fn lands(stack: Seq<usize>, remote: usize, out: Seq<u8>, k: int) -> Option<
    (int, Seq<u8>),
>
    decreases stack.len() - k,
{
    if k < 0 || k >= stack.len() {
        None
    } else if stack[k] != remote || out.len() == 0 {
        lands(stack, remote, out, k + 1)
    } else if out.last() == 10 {
        Some((k, out.drop_last()))
    } else {
        lands(stack, remote, out.drop_last(), k + 1)
    }
}

/// An output lands at an entry of its remote.
pub proof fn lemma_lands_at_its_remote(stack: Seq<usize>, remote: usize, out: Seq<u8>, k: int)
    requires
        0 <= k,
    ensures
        lands(stack, remote, out, k) matches Some(l) ==> k <= l.0 < stack.len() && stack[l.0]
            == remote,
    decreases stack.len() - k,
{
    if k < stack.len() {
        if stack[k] != remote || out.len() == 0 {
            lemma_lands_at_its_remote(stack, remote, out, k + 1);
        } else if out.last() != 10 {
            lemma_lands_at_its_remote(stack, remote, out.drop_last(), k + 1);
        }
    }
}

/// The output of the probe on `remote` lands and is not UTF-8.
pub open spec fn garbled(stack: Seq<usize>, remote: usize, out: Seq<u8>) -> bool {
    lands(stack, remote, out, 0) is Some && !valid_utf8(lands(stack, remote, out, 0).unwrap().1)
}

/// The working directory `now` of the stack's entry `k`, which was `was`,
/// once the probes' outputs have been taken in: the text of the output that
/// lands at the entry, and unchanged where none does.
pub open spec fn dir_after(
    stack: Seq<usize>,
    cwd: Map<usize, usize>,
    finished: Map<usize, Vec<u8>>,
    k: int,
    was: Seq<char>,
    now: Seq<char>,
) -> bool {
    let l = lands(stack, stack[k], finished[cwd[stack[k]]]@, 0);
    if cwd.contains_key(stack[k]) && l is Some && l.unwrap().0 == k {
        encode_utf8(now) == l.unwrap().1
    } else {
        now == was
    }
}

impl Session {
    /// Sets the working directory of the stack's entry `k` to `dir`.
    fn set_working_dir(&mut self, k: usize, dir: String)
        requires
            k < old(self).handler.remotes@.len(),
        ensures
            final(self).endpoint == old(self).endpoint,
            final(self).handler.waiting_for == old(self).handler.waiting_for,
            final(self).handler.waiting_for_eof == old(self).handler.waiting_for_eof,
            final(self).handler.waiting_for_remote == old(self).handler.waiting_for_remote,
            final(self).handler.gathering_output == old(self).handler.gathering_output,
            final(self).handler.finished_output == old(self).handler.finished_output,
            final(self).handler.cwd_for_remote == old(self).handler.cwd_for_remote,
            final(self).handler.stdout_pipes == old(self).handler.stdout_pipes,
            final(self).handler.stderr_pipes == old(self).handler.stderr_pipes,
            final(self).handler.remotes@.len() == old(self).handler.remotes@.len(),
            forall|j: int|
                0 <= j < old(self).handler.remotes@.len() && j != k ==> #[trigger] final(self).handler.remotes@[j] == old(self).handler.remotes@[j],
            final(self).handler.remotes@[k as int].0 == old(self).handler.remotes@[k as int].0,
            final(self).handler.remotes@[k as int].1.hostname@ == old(self).handler.remotes@[k as int].1.hostname@,
            final(self).handler.remotes@[k as int].1.username@ == old(self).handler.remotes@[k as int].1.username@,
            final(self).handler.remotes@[k as int].1.working_dir@ == dir@,
    {
        let entry = &self.handler.remotes[k];
        let id = entry.0;
        let info = RemoteInfo {
            hostname: entry.1.hostname.clone(),
            username: entry.1.username.clone(),
            working_dir: dir,
        };
        self.handler.remotes.set(k, (id, info));
    }

    /// Takes the outputs that the probes have brought off the books: for
    /// each remote that a probe ran on, the remote and what was gathered.
    fn take_outputs(&mut self) -> (res: Result<Vec<(usize, Vec<u8>)>, SessionError>)
        ensures
            final(self).endpoint == old(self).endpoint,
            final(self).handler.waiting_for == old(self).handler.waiting_for,
            final(self).handler.waiting_for_eof == old(self).handler.waiting_for_eof,
            final(self).handler.waiting_for_remote == old(self).handler.waiting_for_remote,
            final(self).handler.gathering_output == old(self).handler.gathering_output,
            final(self).handler.stdout_pipes == old(self).handler.stdout_pipes,
            final(self).handler.stderr_pipes == old(self).handler.stderr_pipes,
            final(self).handler.remotes == old(self).handler.remotes,
            forall|p: usize|
                #![trigger final(self).handler.finished_output@.contains_key(p)]
                final(self).handler.finished_output@.contains_key(p) ==> old(self).handler.finished_output@.contains_key(p) && final(self).handler.finished_output@[p]
                    == old(self).handler.finished_output@[p],
            match res {
                Ok(list) => {
                    &&& brought(old(self).handler.cwd_for_remote@, old(self).handler.finished_output@)
                    &&& final(self).handler.cwd_for_remote@ == Map::<usize, usize>::empty()
                    &&& taken(
                        old(self).handler.cwd_for_remote@,
                        old(self).handler.finished_output@,
                        final(self).handler.finished_output@,
                        list@,
                    )
                },
                Err(e) => e == SessionError::MissingOutput && !brought(
                    old(self).handler.cwd_for_remote@,
                    old(self).handler.finished_output@,
                ),
            },
    {
        let pairs = pairs_of(&self.handler.cwd_for_remote);
        let ghost cwd = self.handler.cwd_for_remote@;
        let ghost finished = self.handler.finished_output@;
        let mut list: Vec<(usize, Vec<u8>)> = Vec::new();
        let mut i: usize = 0;
        while i < pairs.len()
            invariant
                0 <= i <= pairs@.len(),
                list@.len() == i,
                cwd == old(self).handler.cwd_for_remote@,
                finished == old(self).handler.finished_output@,
                self.endpoint == old(self).endpoint,
                self.handler.waiting_for == old(self).handler.waiting_for,
                self.handler.waiting_for_eof == old(self).handler.waiting_for_eof,
                self.handler.waiting_for_remote == old(self).handler.waiting_for_remote,
                self.handler.gathering_output == old(self).handler.gathering_output,
                self.handler.stdout_pipes == old(self).handler.stdout_pipes,
                self.handler.stderr_pipes == old(self).handler.stderr_pipes,
                self.handler.remotes == old(self).handler.remotes,
                self.handler.cwd_for_remote == old(self).handler.cwd_for_remote,
                forall|k: int|
                    0 <= k < pairs@.len() ==> cwd.contains_key((#[trigger] pairs@[k]).0)
                        && cwd[pairs@[k].0] == pairs@[k].1,
                forall|r: usize|
                    cwd.contains_key(r) ==> exists|k: int|
                        0 <= k < pairs@.len() && (#[trigger] pairs@[k]).0 == r,
                forall|a: int, b: int|
                    0 <= a < b < pairs@.len() ==> (#[trigger] pairs@[a]).0 != (
                    #[trigger] pairs@[b]).0,
                forall|p: usize|
                    #![trigger self.handler.finished_output@.contains_key(p)]
                    self.handler.finished_output@.contains_key(p) ==> finished.contains_key(p)
                        && self.handler.finished_output@[p] == finished[p],
                forall|p: usize|
                    #![trigger finished.contains_key(p)]
                    finished.contains_key(p) && !self.handler.finished_output@.contains_key(p)
                        ==> exists|j: int| 0 <= j < i && (#[trigger] pairs@[j]).1 == p,
                forall|k: int|
                    0 <= k < i ==> (#[trigger] list@[k]).0 == pairs@[k].0 && finished.contains_key(
                        pairs@[k].1,
                    ) && !self.handler.finished_output@.contains_key(pairs@[k].1) && list@[k].1@
                        == finished[pairs@[k].1]@,
                forall|a: int, b: int|
                    0 <= a < b < i ==> (#[trigger] pairs@[a]).1 != (#[trigger] pairs@[b]).1,
            decreases pairs@.len() - i,
        {
            let (remote, stream) = pairs[i];
            let ghost now = self.handler.finished_output@;
            match self.handler.finished_output.remove(&stream) {
                Some(out) => {
                    assert(now.contains_key(stream) && now[stream] == out);
                    assert(self.handler.finished_output@ == now.remove(stream));
                    assert forall|a: int, b: int| 0 <= a < b < i + 1 implies (
                    #[trigger] pairs@[a]).1 != (#[trigger] pairs@[b]).1 by {
                        if b == i {
                            assert(list@[a].0 == pairs@[a].0);
                            assert(!now.contains_key(pairs@[a].1));
                            assert(pairs@[b].1 == stream);
                        }
                    }
                    list.push((remote, out));
                    assert forall|p: usize|
                        #![trigger finished.contains_key(p)]
                        finished.contains_key(p) && !self.handler.finished_output@.contains_key(p)
                        implies exists|j: int| 0 <= j < i + 1 && (#[trigger] pairs@[j]).1 == p by {
                        if p == stream {
                            assert(pairs@[i as int].1 == p);
                        } else {
                            let j = choose|j: int| 0 <= j < i && (#[trigger] pairs@[j]).1 == p;
                            assert(pairs@[j].1 == p);
                        }
                    }
                },
                None => {
                    assert(self.handler.finished_output@ == now.remove(stream));
                    proof {
                        assert(cwd.contains_key(pairs@[i as int].0) && cwd[pairs@[i as int].0]
                            == stream);
                        if finished.contains_key(stream) {
                            let j = choose|j: int| 0 <= j < i && (#[trigger] pairs@[j]).1 == stream;
                            assert(cwd.contains_key(pairs@[j].0) && cwd[pairs@[j].0] == stream);
                            assert(pairs@[j].0 != pairs@[i as int].0);
                        }
                        assert(!brought(cwd, finished));
                    }
                    return Err(SessionError::MissingOutput);
                },
            }
            i += 1;
        }
        self.handler.cwd_for_remote.clear();
        proof {
            assert forall|k: int| 0 <= k < list@.len() implies {
                let r = (#[trigger] list@[k]).0;
                &&& cwd.contains_key(r)
                &&& finished.contains_key(cwd[r])
                &&& !self.handler.finished_output@.contains_key(cwd[r])
                &&& list@[k].1@ == finished[cwd[r]]@
            } by {
                assert(cwd.contains_key(pairs@[k].0) && cwd[pairs@[k].0] == pairs@[k].1);
            }
            assert forall|r: usize| cwd.contains_key(r) implies exists|k: int|
                0 <= k < list@.len() && (#[trigger] list@[k]).0 == r by {
                let k = choose|k: int| 0 <= k < pairs@.len() && (#[trigger] pairs@[k]).0 == r;
                assert(list@[k].0 == r);
            }
            assert forall|a: int, b: int| 0 <= a < b < list@.len() implies (#[trigger] list@[a]).0
                != (#[trigger] list@[b]).0 by {
                assert(pairs@[a].0 != pairs@[b].0);
            }
            assert(taken(cwd, finished, self.handler.finished_output@, list@));
            assert forall|r: usize| #![trigger cwd[r]] cwd.contains_key(r) implies finished.contains_key(
                cwd[r],
            ) by {
                let k = choose|k: int| 0 <= k < pairs@.len() && (#[trigger] pairs@[k]).0 == r;
                assert(cwd[pairs@[k].0] == pairs@[k].1);
            }
            assert forall|r: usize, q: usize|
                cwd.contains_key(r) && cwd.contains_key(q) && r != q implies #[trigger] cwd[r]
                != #[trigger] cwd[q] by {
                let a = choose|k: int| 0 <= k < pairs@.len() && (#[trigger] pairs@[k]).0 == r;
                let b = choose|k: int| 0 <= k < pairs@.len() && (#[trigger] pairs@[k]).0 == q;
                assert(cwd[pairs@[a].0] == pairs@[a].1);
                assert(cwd[pairs@[b].0] == pairs@[b].1);
                if a < b {
                    assert(pairs@[a].1 != pairs@[b].1);
                } else {
                    assert(pairs@[b].1 != pairs@[a].1);
                }
            }
        }
        Ok(list)
    }

    /// Makes what a probe has brought the working directory of the entry
    /// of the stack at which it lands. Where it lands and is not UTF-8,
    /// nothing changes.
    fn apply_dir(&mut self, remote: usize, output: Vec<u8>) -> (res: Result<(), SessionError>)
        ensures
            final(self).endpoint == old(self).endpoint,
            final(self).handler.waiting_for == old(self).handler.waiting_for,
            final(self).handler.waiting_for_eof == old(self).handler.waiting_for_eof,
            final(self).handler.waiting_for_remote == old(self).handler.waiting_for_remote,
            final(self).handler.gathering_output == old(self).handler.gathering_output,
            final(self).handler.stdout_pipes == old(self).handler.stdout_pipes,
            final(self).handler.stderr_pipes == old(self).handler.stderr_pipes,
            final(self).handler.finished_output == old(self).handler.finished_output,
            final(self).handler.cwd_for_remote == old(self).handler.cwd_for_remote,
            final(self)@.stack == old(self)@.stack,
            final(self).handler.remotes@.len() == old(self).handler.remotes@.len(),
            forall|k: int|
                0 <= k < old(self)@.stack.len() ==> (#[trigger] final(self).handler.remotes@[k]).1.hostname@
                    == old(self).handler.remotes@[k].1.hostname@ && final(self).handler.remotes@[k].1.username@ == old(self).handler.remotes@[k].1.username@,
            res == (if garbled(old(self)@.stack, remote, output@) {
                Err::<(), SessionError>(SessionError::NotText)
            } else {
                Ok(())
            }),
            forall|k: int|
                0 <= k < old(self)@.stack.len() ==> {
                    let l = lands(old(self)@.stack, remote, output@, 0);
                    let was = old(self).handler.remotes@[k].1.working_dir@;
                    let now = (#[trigger] final(self).handler.remotes@[k]).1.working_dir@;
                    if res is Ok && l is Some && l.unwrap().0 == k {
                        encode_utf8(now) == l.unwrap().1
                    } else {
                        now == was
                    }
                },
    {
        let ghost stack = self@.stack;
        let ghost rows = self.handler.remotes@;
        let ghost whole = output@;
        let mut out = output;
        let mut k: usize = 0;
        while k < self.handler.remotes.len()
            invariant
                0 <= k <= stack.len(),
                stack == old(self)@.stack,
                rows == old(self).handler.remotes@,
                whole == output@,
                lands(stack, remote, whole, 0) == lands(stack, remote, out@, k as int),
                self.endpoint == old(self).endpoint,
                self.handler.waiting_for == old(self).handler.waiting_for,
                self.handler.waiting_for_eof == old(self).handler.waiting_for_eof,
                self.handler.waiting_for_remote == old(self).handler.waiting_for_remote,
                self.handler.gathering_output == old(self).handler.gathering_output,
                self.handler.stdout_pipes == old(self).handler.stdout_pipes,
                self.handler.stderr_pipes == old(self).handler.stderr_pipes,
                self@.stack == stack,
                stack.len() == rows.len(),
                self.handler.cwd_for_remote == old(self).handler.cwd_for_remote,
                self.handler.finished_output == old(self).handler.finished_output,
                self.handler.remotes@ == rows,
            decreases stack.len() - k,
        {
            assert(stack[k as int] == self.handler.remotes@[k as int].0.0);
            if self.handler.remotes[k].0.0 == remote {
                let ghost at_hand = out@;
                match out.pop() {
                    Some(last) => {
                        assert(out@ =~= at_hand.drop_last());
                        if last == 10 {
                            assert(lands(stack, remote, at_hand, k as int) == Some(
                                (k as int, out@),
                            ));
                            match text_of(out) {
                                Some(dir) => {
                                    self.set_working_dir(k, dir);
                                    assert(self@.stack =~= stack);
                                    return Ok(());
                                },
                                None => {
                                    return Err(SessionError::NotText);
                                },
                            }
                        }
                    },
                    None => {},
                }
            }
            k += 1;
        }
        Ok(())
    }

    /// Takes in the working directories that the probes of the last plan
    /// have brought. Each probed remote's output is taken off the books;
    /// where it ends in a newline, what stands before the newline becomes
    /// the working directory of the remote's entry of the stack.
    ///
    /// This fails with `MissingOutput` where a probe's output has not come,
    /// and else with `NotText` where an output that lands is not UTF-8.
    pub fn refresh_dirs(&mut self) -> (res: Result<(), SessionError>)
        ensures
            final(self).endpoint == old(self).endpoint,
            final(self).handler.waiting_for == old(self).handler.waiting_for,
            final(self).handler.waiting_for_eof == old(self).handler.waiting_for_eof,
            final(self).handler.waiting_for_remote == old(self).handler.waiting_for_remote,
            final(self).handler.gathering_output == old(self).handler.gathering_output,
            final(self).handler.stdout_pipes == old(self).handler.stdout_pipes,
            final(self).handler.stderr_pipes == old(self).handler.stderr_pipes,
            final(self)@.stack == old(self)@.stack,
            forall|k: int|
                0 <= k < old(self)@.stack.len() ==> (#[trigger] final(self).handler.remotes@[k]).1.hostname@
                    == old(self).handler.remotes@[k].1.hostname@ && final(self).handler.remotes@[k].1.username@ == old(self).handler.remotes@[k].1.username@,
            forall|p: usize|
                #![trigger final(self).handler.finished_output@.contains_key(p)]
                final(self).handler.finished_output@.contains_key(p) ==> old(self).handler.finished_output@.contains_key(p) && final(self).handler.finished_output@[p]
                    == old(self).handler.finished_output@[p],
            match res {
                Ok(()) => {
                    &&& brought(old(self).handler.cwd_for_remote@, old(self).handler.finished_output@)
                    &&& forall|r: usize|
                        #![trigger old(self).handler.cwd_for_remote@[r]]
                        old(self).handler.cwd_for_remote@.contains_key(r) ==> !garbled(
                            old(self)@.stack,
                            r,
                            old(self).handler.finished_output@[old(self).handler.cwd_for_remote@[r]]@,
                        ) && !final(self).handler.finished_output@.contains_key(
                            old(self).handler.cwd_for_remote@[r],
                        )
                    &&& final(self).handler.cwd_for_remote@ == Map::<usize, usize>::empty()
                    &&& forall|k: int|
                        0 <= k < old(self)@.stack.len() ==> dir_after(
                            old(self)@.stack,
                            old(self).handler.cwd_for_remote@,
                            old(self).handler.finished_output@,
                            k,
                            old(self).handler.remotes@[k].1.working_dir@,
                            (#[trigger] final(self).handler.remotes@[k]).1.working_dir@,
                        )
                },
                Err(e) => if !brought(
                    old(self).handler.cwd_for_remote@,
                    old(self).handler.finished_output@,
                ) {
                    e == SessionError::MissingOutput && final(self).handler.remotes == old(
                        self,
                    ).handler.remotes
                } else {
                    e == SessionError::NotText && exists|r: usize|
                        #![trigger old(self).handler.cwd_for_remote@[r]]
                        old(self).handler.cwd_for_remote@.contains_key(r) && garbled(
                            old(self)@.stack,
                            r,
                            old(self).handler.finished_output@[old(self).handler.cwd_for_remote@[r]]@,
                        )
                },
            },
    {
        let ghost stack = self@.stack;
        let ghost cwd = self.handler.cwd_for_remote@;
        let ghost finished = self.handler.finished_output@;
        let ghost before = self.handler.remotes@;
        let list = match self.take_outputs() {
            Ok(list) => list,
            Err(e) => {
                return Err(e);
            },
        };
        let ghost all = list@;
        let ghost kept = self.handler.finished_output;
        proof {
            assert forall|r: usize| #![trigger cwd[r]] cwd.contains_key(r) implies !kept@.contains_key(
                cwd[r],
            ) by {
                let k = choose|k: int| 0 <= k < all.len() && (#[trigger] all[k]).0 == r;
                assert(all[k].0 == r);
            }
        }
        let ghost keys = all.map_values(|e: (usize, Vec<u8>)| (e.0, 0usize));
        let count = list.len();
        let mut n: usize = 0;
        assert(all.len() <= usize::MAX);
        for entry in it: list
            invariant
                it.seq() == all,
                n == it.index(),
                all.len() <= usize::MAX,
                keys == all.map_values(|e: (usize, Vec<u8>)| (e.0, 0usize)),
                stack == old(self)@.stack,
                before == old(self).handler.remotes@,
                cwd == old(self).handler.cwd_for_remote@,
                finished == old(self).handler.finished_output@,
                brought(cwd, finished),
                self@.stack == stack,
                stack.len() == before.len(),
                self.handler.finished_output == kept,
                forall|p: usize|
                    #![trigger kept@.contains_key(p)]
                    kept@.contains_key(p) ==> finished.contains_key(p) && kept@[p] == finished[p],
                forall|r: usize|
                    #![trigger cwd[r]]
                    cwd.contains_key(r) ==> !kept@.contains_key(cwd[r]),
                self.handler.cwd_for_remote@ == Map::<usize, usize>::empty(),
                self.endpoint == old(self).endpoint,
                self.handler.waiting_for == old(self).handler.waiting_for,
                self.handler.waiting_for_eof == old(self).handler.waiting_for_eof,
                self.handler.waiting_for_remote == old(self).handler.waiting_for_remote,
                self.handler.gathering_output == old(self).handler.gathering_output,
                self.handler.stdout_pipes == old(self).handler.stdout_pipes,
                self.handler.stderr_pipes == old(self).handler.stderr_pipes,
                forall|k: int|
                    0 <= k < all.len() ==> cwd.contains_key((#[trigger] all[k]).0) && all[k].1@
                        == finished[cwd[all[k].0]]@,
                forall|a: int, b: int|
                    0 <= a < b < all.len() ==> (#[trigger] all[a]).0 != (#[trigger] all[b]).0,
                forall|j: int| 0 <= j < n ==> !garbled(stack, (#[trigger] all[j]).0, all[j].1@),
                forall|k: int|
                    0 <= k < stack.len() ==> (#[trigger] self.handler.remotes@[k]).1.hostname@
                        == before[k].1.hostname@ && self.handler.remotes@[k].1.username@
                        == before[k].1.username@,
                forall|k: int|
                    0 <= k < stack.len() ==> if keyed(keys, n as int, stack[k]) {
                        dir_after(
                            stack,
                            cwd,
                            finished,
                            k,
                            before[k].1.working_dir@,
                            (#[trigger] self.handler.remotes@[k]).1.working_dir@,
                        )
                    } else {
                        self.handler.remotes@[k].1.working_dir@ == before[k].1.working_dir@
                    },
        {
            let (remote, out) = entry;
            let ghost rows = self.handler.remotes@;
            let ghost text = out@;
            proof {
                assert(all[n as int] == (remote, out));
                assert(keys[n as int].0 == remote);
                assert forall|r: usize| keyed(keys, n + 1, r) == (keyed(keys, n as int, r) || r
                    == remote) by {
                    lemma_keyed_step(keys, n as int, r);
                }
                if keyed(keys, n as int, remote) {
                    let j = choose|j: int| 0 <= j < n && (#[trigger] keys[j]).0 == remote;
                    assert(all[j].0 != all[n as int].0);
                }
                lemma_lands_at_its_remote(stack, remote, text, 0);
                assert(text == finished[cwd[remote]]@);
            }
            match self.apply_dir(remote, out) {
                Ok(()) => {},
                Err(e) => {
                    proof {
                        assert(cwd.contains_key(remote) && garbled(
                            stack,
                            remote,
                            finished[cwd[remote]]@,
                        ));
                    }
                    return Err(e);
                },
            }
            proof {
                assert forall|k: int| 0 <= k < stack.len() implies if keyed(
                    keys,
                    n + 1,
                    stack[k],
                ) {
                    dir_after(
                        stack,
                        cwd,
                        finished,
                        k,
                        before[k].1.working_dir@,
                        (#[trigger] self.handler.remotes@[k]).1.working_dir@,
                    )
                } else {
                    self.handler.remotes@[k].1.working_dir@ == before[k].1.working_dir@
                } by {
                    let r = stack[k];
                    let l = lands(stack, remote, text, 0);
                    if r != remote {
                        assert(!(l is Some && l.unwrap().0 == k));
                        assert(self.handler.remotes@[k].1.working_dir@ == rows[k].1.working_dir@);
                    } else {
                        assert(rows[k].1.working_dir@ == before[k].1.working_dir@);
                    }
                }
            }
            n += 1;
        }
        proof {
            assert forall|r: usize| #![trigger cwd[r]] cwd.contains_key(r) implies !garbled(
                stack,
                r,
                finished[cwd[r]]@,
            ) by {
                let j = choose|j: int| 0 <= j < all.len() && (#[trigger] all[j]).0 == r;
                assert(!garbled(stack, all[j].0, all[j].1@));
            }
            assert forall|k: int| 0 <= k < stack.len() implies dir_after(
                stack,
                cwd,
                finished,
                k,
                before[k].1.working_dir@,
                (#[trigger] self.handler.remotes@[k]).1.working_dir@,
            ) by {
                let remote = stack[k];
                if cwd.contains_key(remote) {
                    let j = choose|j: int| 0 <= j < all.len() && (#[trigger] all[j]).0 == remote;
                    assert(0 <= j < n && keys[j].0 == remote);
                    assert(keyed(keys, n as int, remote));
                } else {
                    if keyed(keys, n as int, remote) {
                        let j = choose|j: int| 0 <= j < n && (#[trigger] keys[j]).0 == remote;
                        assert(cwd.contains_key(all[j].0));
                    }
                }
            }
        }
        Ok(())
    }
}

} // verus!
