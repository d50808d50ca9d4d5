//! The multiplex endpoint: the frontend's book of remotes, processes and
//! pipes, and the requests that each of its operations sends.
//!
//! Every handle comes from one counter. A remote hangs under the remote it
//! was begun on; the endpoint itself is remote 0, the root. An operation
//! gives back the request that is to be sent: its `remote_id` names the
//! remote that the request is for.

use std::collections::{HashMap, HashSet};
use vstd::prelude::*;
use vstd::std_specs::hash::spec_hash_map_iter;
use vstd::std_specs::iter::IteratorSpec;
use crate::ids::Ids;
use crate::protocol::{
    AbstractProcess, Command, Condition, GenericPipe, PipeEnvelope, PipeMessage,
    PipeMessageView, ProcessId, ReadPipe, RemoteId, RemoteInfo, RemoteRequest,
    RemoteRequestEnvelope, RemoteRequestView, RemoteResponse, RemoteResponseView, Request,
    RequestView, Response, WritePipe, WritePipes,
};

verus! {

broadcast use vstd::std_specs::hash::group_hash_axioms;

/// Misuse of the endpoint.
#[derive(Clone, Copy, Debug, PartialEq, Eq, Structural)]
pub enum EndpointError {
    /// The remote is not alive.
    UnknownRemote,
    /// The process is not tracked.
    UnknownProcess,
    /// The pipe was not made by this endpoint.
    UnknownPipe,
    /// The root remote cannot be closed.
    RootRemote,
    /// The remote still has processes or remotes under it.
    Busy,
}

/// The mathematical state of an [`Endpoint`].
pub ghost struct EndpointView {
    /// The handle that is handed out next.
    pub next_id: nat,
    /// The live remotes, each with the remote it hangs under.
    pub remotes: Map<usize, Option<usize>>,
    /// The tracked processes, each with the remote it runs on.
    pub jobs: Map<usize, usize>,
    /// The pipes that the endpoint has made.
    pub pipes: Set<usize>,
}

impl EndpointView {
    /// The remotes form a tree under the root: the root is alive and hangs
    /// under nothing, every other remote hangs under a live remote with a
    /// smaller handle. Every tracked process runs on a live remote. Every
    /// handle in use has been handed out.
    pub open spec fn wf(self) -> bool {
        &&& self.remotes.contains_key(0)
        &&& self.remotes[0] is None
        &&& forall|r: usize|
            #![trigger self.remotes.contains_key(r)]
            self.remotes.contains_key(r) && r != 0 ==> r < self.next_id && (
            self.remotes[r] matches Some(p) && self.remotes.contains_key(p) && p < r)
        &&& forall|j: usize|
            #![trigger self.jobs.contains_key(j)]
            self.jobs.contains_key(j) ==> j < self.next_id && self.remotes.contains_key(
                self.jobs[j],
            )
        &&& forall|p: usize| #![trigger self.pipes.contains(p)] self.pipes.contains(p) ==> p < self.next_id
    }

    /// Something hangs under the remote: a remote or a process.
    pub open spec fn busy(self, remote: usize) -> bool {
        (exists|r: usize| self.remotes.contains_key(r) && self.remotes[r] == Some(remote)) || (
        exists|j: usize| self.jobs.contains_key(j) && self.jobs[j] == remote)
    }

    /// The state with one more handle handed out.
    pub open spec fn bump(self) -> EndpointView {
        EndpointView { next_id: self.next_id + 1, ..self }
    }

    /// The handle that the next remote gets: the next handle, but never 0,
    /// which is the root's.
    pub open spec fn next_remote(self) -> nat {
        if self.next_id == 0 {
            1
        } else {
            self.next_id
        }
    }
}

/// `b` comes after `a`: handles are never handed out twice, and a process
/// that is tracked in `b` was tracked in `a` or got its handle since.
pub open spec fn follows(a: EndpointView, b: EndpointView) -> bool {
    &&& a.next_id <= b.next_id
    &&& forall|p: usize|
        #![trigger b.jobs.contains_key(p)]
        b.jobs.contains_key(p) ==> a.jobs.contains_key(p) || a.next_id <= p
}

/// Once a process is no longer tracked, it never is again: its handle has
/// been handed out, and every later process gets a larger one.
pub proof fn lemma_closed_stays_closed(a: EndpointView, b: EndpointView, id: usize)
    requires
        follows(a, b),
        id < a.next_id,
        !a.jobs.contains_key(id),
    ensures
        !b.jobs.contains_key(id),
        id < b.next_id,
{
}

/// A state that has grown out of a consistent one is consistent: what was
/// there is unchanged, and what is new has a handle that has been handed
/// out and hangs under a remote that was alive.
pub proof fn lemma_grown_keeps_wf(a: EndpointView, b: EndpointView)
    requires
        a.wf(),
        a.next_id <= b.next_id,
        forall|r: usize| a.remotes.contains_key(r) ==> b.remotes.contains_key(r),
        forall|r: usize|
            #![trigger b.remotes.contains_key(r)]
            b.remotes.contains_key(r) ==> (a.remotes.contains_key(r) && b.remotes[r]
                == a.remotes[r]) || (r != 0 && r < b.next_id && (
            b.remotes[r] matches Some(p) && a.remotes.contains_key(p) && p < r)),
        forall|j: usize|
            #![trigger b.jobs.contains_key(j)]
            b.jobs.contains_key(j) ==> (a.jobs.contains_key(j) && b.jobs[j] == a.jobs[j]) || (j
                < b.next_id && a.remotes.contains_key(b.jobs[j])),
        forall|p: usize|
            #![trigger b.pipes.contains(p)]
            b.pipes.contains(p) ==> a.pipes.contains(p) || p < b.next_id,
    ensures
        b.wf(),
{
    assert forall|r: usize|
        #![trigger b.remotes.contains_key(r)]
        b.remotes.contains_key(r) && r != 0 implies r < b.next_id && (
    b.remotes[r] matches Some(p) && b.remotes.contains_key(p) && p < r) by {
        if a.remotes.contains_key(r) && b.remotes[r] == a.remotes[r] {
            assert(a.remotes.contains_key(a.remotes[r]->0));
        }
    }
    assert forall|j: usize|
        #![trigger b.jobs.contains_key(j)]
        b.jobs.contains_key(j) implies j < b.next_id && b.remotes.contains_key(b.jobs[j]) by {
        if a.jobs.contains_key(j) && b.jobs[j] == a.jobs[j] {
            assert(a.remotes.contains_key(a.jobs[j]));
        }
    }
    assert forall|p: usize| #![trigger b.pipes.contains(p)] b.pipes.contains(p) implies p
        < b.next_id by {
        if a.pipes.contains(p) {
        }
    }
}

/// Coming after is transitive.
pub proof fn lemma_follows_twice(a: EndpointView, m: EndpointView, b: EndpointView)
    requires
        follows(a, m),
        follows(m, b),
    ensures
        follows(a, b),
{
    assert forall|p: usize|
        #![trigger b.jobs.contains_key(p)]
        b.jobs.contains_key(p) implies a.jobs.contains_key(p) || a.next_id <= p by {
        if m.jobs.contains_key(p) {
        }
    }
}

/// A response, sorted by what it is about.
#[derive(Clone, Debug, PartialEq)]
pub enum Incoming {
    RemoteReady { id: RemoteId, info: RemoteInfo },
    CommandDone { id: ProcessId, exit_code: i64 },
    DirectoryListing { id: usize, items: Vec<String> },
    EditRequest { edit_id: usize, command_id: ProcessId, name: String, data: Vec<u8> },
    Pipe { id: GenericPipe, msg: PipeMessage },
}

impl Incoming {
    /// The response that this came in as, from the remote `from`.
    pub open spec fn as_response(self, from: usize) -> (usize, RemoteResponseView) {
        match self {
            Incoming::RemoteReady { id, info } => (
                id.0,
                RemoteResponseView::RemoteReady { info: info@ },
            ),
            Incoming::CommandDone { id, exit_code } => (
                from,
                RemoteResponseView::CommandDone { id, exit_code },
            ),
            Incoming::DirectoryListing { id, items } => (
                from,
                RemoteResponseView::DirectoryListing { id, items: items.deep_view() },
            ),
            Incoming::EditRequest { edit_id, command_id, name, data } => (
                from,
                RemoteResponseView::EditRequest { command_id, edit_id, name: name@, data: data@ },
            ),
            Incoming::Pipe { id, msg } => (from, RemoteResponseView::Pipe { id: id.0, msg: msg@ }),
        }
    }
}

/// The frontend's end of the transport.
pub struct Endpoint {
    ids: Ids,
    remotes: HashMap<usize, Option<usize>>,
    jobs: HashMap<usize, usize>,
    pipes: HashSet<usize>,
}

impl View for Endpoint {
    type V = EndpointView;

    closed spec fn view(&self) -> EndpointView {
        EndpointView {
            next_id: self.ids@,
            remotes: self.remotes@,
            jobs: self.jobs@,
            pipes: self.pipes@,
        }
    }
}

fn request(remote: usize, message: RemoteRequest) -> (req: Request)
    ensures
        req@ == (RequestView { remote_id: remote, message: message@ }),
{
    Request { remote_id: remote, message: RemoteRequestEnvelope(message) }
}

/// True when a remote of the map hangs under `remote`.
fn any_remote_under(remotes: &HashMap<usize, Option<usize>>, remote: usize) -> (found: bool)
    ensures
        found == exists|r: usize| remotes@.contains_key(r) && remotes@[r] == Some(remote),
{
    let ghost all = spec_hash_map_iter(remotes).remaining();
    for (r, parent) in it: remotes.iter()
        invariant
            it.seq() == all,
            forall|i: int| 0 <= i < it.index() ==> *(#[trigger] all[i]).1 != Some(remote),
    {
        match parent {
            Some(p) => {
                if *p == remote {
                    assert(remotes@.contains_key(*r) && remotes@[*r] == Some(remote));
                    return true;
                }
            },
            None => {},
        }
    }
    assert forall|r: usize| remotes@.contains_key(r) implies remotes@[r] != Some(remote) by {
        assert(all.contains((&r, &remotes@[r])));
        let i = choose|i: int| 0 <= i < all.len() && all[i] == (&r, &remotes@[r]);
        assert(*all[i].1 != Some(remote));
    }
    false
}

/// True when a process of the map runs on `remote`.
fn any_job_on(jobs: &HashMap<usize, usize>, remote: usize) -> (found: bool)
    ensures
        found == exists|j: usize| jobs@.contains_key(j) && jobs@[j] == remote,
{
    let ghost all = spec_hash_map_iter(jobs).remaining();
    for (j, on) in it: jobs.iter()
        invariant
            it.seq() == all,
            forall|i: int| 0 <= i < it.index() ==> *(#[trigger] all[i]).1 != remote,
    {
        if *on == remote {
            assert(jobs@.contains_key(*j) && jobs@[*j] == remote);
            return true;
        }
    }
    assert forall|j: usize| jobs@.contains_key(j) implies jobs@[j] != remote by {
        assert(all.contains((&j, &jobs@[j])));
        let i = choose|i: int| 0 <= i < all.len() && all[i] == (&j, &jobs@[j]);
        assert(*all[i].1 != remote);
    }
    false
}

impl Endpoint {
    /// An endpoint with the root remote and nothing else. The root is
    /// remote 0; no other remote ever gets that handle.
    pub fn new() -> (e: Endpoint)
        ensures
            e@.wf(),
            e@.next_id == 0,
            e@.remotes == Map::<usize, Option<usize>>::empty().insert(0, None),
            e@.jobs == Map::<usize, usize>::empty(),
            e@.pipes == Set::<usize>::empty(),
    {
        let mut remotes: HashMap<usize, Option<usize>> = HashMap::new();
        remotes.insert(0, None);
        Endpoint { ids: Ids::new(), remotes, jobs: HashMap::new(), pipes: HashSet::new() }
    }

    /// The remote that is the endpoint itself.
    pub fn root(&self) -> (root: RemoteId)
        ensures
            root.0 == 0,
    {
        RemoteId(0)
    }

    /// True when no handle is left.
    pub fn is_exhausted(&self) -> (done: bool)
        ensures
            done == (self@.next_id >= usize::MAX),
    {
        self.ids.is_exhausted()
    }

    /// The number of handles that are left to hand out.
    pub fn handles_left(&self) -> (left: usize)
        ensures
            left == usize::MAX - self@.next_id,
    {
        self.ids.left()
    }

    /// True when the remote is alive.
    pub fn is_alive(&self, remote: RemoteId) -> (alive: bool)
        ensures
            alive == self@.remotes.contains_key(remote.0),
    {
        self.remotes.contains_key(&remote.0)
    }

    /// True when the process is tracked.
    pub fn tracks(&self, id: ProcessId) -> (known: bool)
        ensures
            known == self@.jobs.contains_key(id.0),
    {
        self.jobs.contains_key(&id.0)
    }

    /// Sorts a response by what it is about. A response about a pipe that
    /// this endpoint has not made is refused.
    pub fn receive(&self, message: Response) -> (res: Result<Incoming, EndpointError>)
        ensures
            match res {
                Ok(incoming) => incoming.as_response(message.remote_id) == (
                    message.remote_id,
                    message@.message,
                ) && (message@.message matches RemoteResponseView::Pipe { id, .. }
                    ==> self@.pipes.contains(id)),
                Err(e) => e == EndpointError::UnknownPipe && (
                message@.message matches RemoteResponseView::Pipe { id, .. }
                    && !self@.pipes.contains(id)),
            },
    {
        let Response { remote_id, message } = message;
        match message.0 {
            RemoteResponse::RemoteReady { info } => Ok(
                Incoming::RemoteReady { id: RemoteId(remote_id), info },
            ),
            RemoteResponse::CommandDone { id, exit_code } => Ok(
                Incoming::CommandDone { id, exit_code },
            ),
            RemoteResponse::DirectoryListing { id, items } => Ok(
                Incoming::DirectoryListing { id, items },
            ),
            RemoteResponse::EditRequest { command_id, edit_id, name, data } => Ok(
                Incoming::EditRequest { edit_id, command_id, name, data },
            ),
            RemoteResponse::Pipe(pipe) => {
                if self.pipes.contains(&pipe.id) {
                    Ok(Incoming::Pipe { id: GenericPipe(pipe.id), msg: pipe.msg })
                } else {
                    Err(EndpointError::UnknownPipe)
                }
            },
        }
    }

    /// Begins a remote under `parent`, which is to run `command` as its
    /// backend. The new remote can be used once its `RemoteReady` has come.
    /// Its handle is the next one; where that would be the root's, 0, that
    /// handle is passed over.
    pub fn remote(&mut self, parent: RemoteId, command: Command) -> (res: Result<
        (RemoteId, Request),
        EndpointError,
    >)
        requires
            old(self)@.wf(),
            old(self)@.next_id < usize::MAX,
        ensures
            final(self)@.wf(),
            follows(old(self)@, final(self)@),
            match res {
                Ok((id, req)) => {
                    &&& old(self)@.remotes.contains_key(parent.0)
                    &&& id.0 == old(self)@.next_remote()
                    &&& id.0 != 0
                    &&& !old(self)@.remotes.contains_key(id.0)
                    &&& req@ == (RequestView {
                        remote_id: parent.0,
                        message: RemoteRequestView::BeginRemote { id: id.0, command: command@ },
                    })
                    &&& final(self)@ == (EndpointView {
                        remotes: old(self)@.remotes.insert(id.0, Some(parent.0)),
                        next_id: old(self)@.next_remote() + 1,
                        ..old(self)@
                    })
                },
                Err(e) => e == EndpointError::UnknownRemote && !old(self)@.remotes.contains_key(
                    parent.0,
                ) && final(self)@ == old(self)@,
            },
    {
        if !self.remotes.contains_key(&parent.0) {
            return Err(EndpointError::UnknownRemote);
        }
        let first = self.ids.next();
        let id = if first == 0 {
            self.ids.next()
        } else {
            first
        };
        assert(!old(self)@.remotes.contains_key(id));
        self.remotes.insert(id, Some(parent.0));
        proof {
            lemma_grown_keeps_wf(old(self)@, self@);
        }
        Ok((RemoteId(id), request(parent.0, RemoteRequest::BeginRemote { id, command })))
    }

    /// Makes a pipe and gives both its ends.
    pub fn pipe(&mut self) -> (ends: (ReadPipe, WritePipe))
        requires
            old(self)@.wf(),
            old(self)@.next_id < usize::MAX,
        ensures
            final(self)@.wf(),
            follows(old(self)@, final(self)@),
            ends.0.0 == old(self)@.next_id,
            ends.1.0 == old(self)@.next_id,
            final(self)@ == (EndpointView {
                pipes: old(self)@.pipes.insert(old(self)@.next_id as usize),
                ..old(self)@.bump()
            }),
    {
        let id = self.ids.next();
        self.pipes.insert(id);
        proof {
            lemma_grown_keeps_wf(old(self)@, self@);
        }
        (ReadPipe(id), WritePipe(id))
    }

    /// Begins a process on `remote` that runs `command` with `pipes` as its
    /// stdio, once the processes in `block_for` have passed their conditions.
    pub fn command(
        &mut self,
        remote: RemoteId,
        command: Command,
        block_for: HashMap<usize, Condition>,
        pipes: WritePipes,
    ) -> (res: Result<(ProcessId, Request), EndpointError>)
        requires
            old(self)@.wf(),
            old(self)@.next_id < usize::MAX,
        ensures
            final(self)@.wf(),
            follows(old(self)@, final(self)@),
            match res {
                Ok((id, req)) => {
                    &&& old(self)@.remotes.contains_key(remote.0)
                    &&& id.0 == old(self)@.next_id
                    &&& req@ == (RequestView {
                        remote_id: remote.0,
                        message: RemoteRequestView::BeginCommand {
                            block_for: block_for@,
                            process: AbstractProcess {
                                id,
                                stdin: pipes.stdin.0,
                                stdout: pipes.stdout.0,
                                stderr: pipes.stderr.0,
                            },
                            command: command@,
                        },
                    })
                    &&& final(self)@ == (EndpointView {
                        jobs: old(self)@.jobs.insert(id.0, remote.0),
                        ..old(self)@.bump()
                    })
                },
                Err(e) => e == EndpointError::UnknownRemote && !old(self)@.remotes.contains_key(
                    remote.0,
                ) && final(self)@ == old(self)@,
            },
    {
        if !self.remotes.contains_key(&remote.0) {
            return Err(EndpointError::UnknownRemote);
        }
        let id = ProcessId(self.ids.next());
        let process = AbstractProcess {
            id,
            stdin: pipes.stdin.0,
            stdout: pipes.stdout.0,
            stderr: pipes.stderr.0,
        };
        self.jobs.insert(id.0, remote.0);
        proof {
            lemma_grown_keeps_wf(old(self)@, self@);
        }
        Ok((id, request(remote.0, RemoteRequest::BeginCommand { block_for, process, command })))
    }

    /// Makes a pipe whose writes go to a file on `remote`.
    pub fn open_output_file(&mut self, remote: RemoteId, path: String) -> (res: Result<
        (WritePipe, Request),
        EndpointError,
    >)
        requires
            old(self)@.wf(),
            old(self)@.next_id < usize::MAX,
        ensures
            final(self)@.wf(),
            follows(old(self)@, final(self)@),
            match res {
                Ok((pipe, req)) => {
                    &&& old(self)@.remotes.contains_key(remote.0)
                    &&& pipe.0 == old(self)@.next_id
                    &&& req@ == (RequestView {
                        remote_id: remote.0,
                        message: RemoteRequestView::OpenOutputFile { id: pipe.0, path: path@ },
                    })
                    &&& final(self)@ == (EndpointView {
                        pipes: old(self)@.pipes.insert(pipe.0),
                        ..old(self)@.bump()
                    })
                },
                Err(e) => e == EndpointError::UnknownRemote && !old(self)@.remotes.contains_key(
                    remote.0,
                ) && final(self)@ == old(self)@,
            },
    {
        if !self.remotes.contains_key(&remote.0) {
            return Err(EndpointError::UnknownRemote);
        }
        let id = self.ids.next();
        self.pipes.insert(id);
        proof {
            lemma_grown_keeps_wf(old(self)@, self@);
        }
        Ok((WritePipe(id), request(remote.0, RemoteRequest::OpenOutputFile { id, path })))
    }

    /// Makes a pipe that is fed from a file on `remote`.
    pub fn open_input_file(&mut self, remote: RemoteId, path: String) -> (res: Result<
        (ReadPipe, Request),
        EndpointError,
    >)
        requires
            old(self)@.wf(),
            old(self)@.next_id < usize::MAX,
        ensures
            final(self)@.wf(),
            follows(old(self)@, final(self)@),
            match res {
                Ok((pipe, req)) => {
                    &&& old(self)@.remotes.contains_key(remote.0)
                    &&& pipe.0 == old(self)@.next_id
                    &&& req@ == (RequestView {
                        remote_id: remote.0,
                        message: RemoteRequestView::OpenInputFile { id: pipe.0, path: path@ },
                    })
                    &&& final(self)@ == (EndpointView {
                        pipes: old(self)@.pipes.insert(pipe.0),
                        ..old(self)@.bump()
                    })
                },
                Err(e) => e == EndpointError::UnknownRemote && !old(self)@.remotes.contains_key(
                    remote.0,
                ) && final(self)@ == old(self)@,
            },
    {
        if !self.remotes.contains_key(&remote.0) {
            return Err(EndpointError::UnknownRemote);
        }
        let id = self.ids.next();
        self.pipes.insert(id);
        proof {
            lemma_grown_keeps_wf(old(self)@, self@);
        }
        Ok((ReadPipe(id), request(remote.0, RemoteRequest::OpenInputFile { id, path })))
    }

    /// Ends a remote. The root cannot be ended, nor a remote that still has
    /// a process or a remote under it: those are to be closed first.
    pub fn close_remote(&mut self, remote: RemoteId) -> (res: Result<Request, EndpointError>)
        requires
            old(self)@.wf(),
        ensures
            final(self)@.wf(),
            follows(old(self)@, final(self)@),
            match res {
                Ok(req) => {
                    &&& old(self)@.remotes.contains_key(remote.0)
                    &&& old(self)@.remotes[remote.0] matches Some(parent)
                    &&& !old(self)@.busy(remote.0)
                    &&& req@ == (RequestView {
                        remote_id: parent,
                        message: RemoteRequestView::EndRemote { id: remote.0 },
                    })
                    &&& final(self)@ == (EndpointView {
                        remotes: old(self)@.remotes.remove(remote.0),
                        ..old(self)@
                    })
                },
                Err(e) => final(self)@ == old(self)@ && e == (if !old(self)@.remotes.contains_key(
                    remote.0,
                ) {
                    EndpointError::UnknownRemote
                } else if old(self)@.remotes[remote.0] is None {
                    EndpointError::RootRemote
                } else {
                    EndpointError::Busy
                }) && (e == EndpointError::Busy ==> old(self)@.busy(remote.0)),
            },
    {
        let parent = match self.remotes.get(&remote.0) {
            None => {
                return Err(EndpointError::UnknownRemote);
            },
            Some(None) => {
                return Err(EndpointError::RootRemote);
            },
            Some(Some(parent)) => *parent,
        };
        if any_remote_under(&self.remotes, remote.0) || any_job_on(&self.jobs, remote.0) {
            return Err(EndpointError::Busy);
        }
        self.remotes.remove(&remote.0);
        proof {
            let a = old(self)@;
            let b = self@;
            assert forall|r: usize|
                #![trigger b.remotes.contains_key(r)]
                b.remotes.contains_key(r) && r != 0 implies r < b.next_id && (
            b.remotes[r] matches Some(p) && b.remotes.contains_key(p) && p < r) by {
                assert(a.remotes.contains_key(r));
                assert(a.remotes[r] != Some(remote.0));
            }
            assert forall|j: usize|
                #![trigger b.jobs.contains_key(j)]
                b.jobs.contains_key(j) implies b.remotes.contains_key(b.jobs[j]) by {
                assert(a.jobs.contains_key(j));
                assert(a.jobs[j] != remote.0);
            }
        }
        Ok(request(parent, RemoteRequest::EndRemote { id: remote.0 }))
    }

    /// Cancels a process and stops tracking it.
    pub fn close_process(&mut self, id: ProcessId) -> (res: Result<Request, EndpointError>)
        requires
            old(self)@.wf(),
        ensures
            final(self)@.wf(),
            follows(old(self)@, final(self)@),
            !final(self)@.jobs.contains_key(id.0),
            match res {
                Ok(req) => {
                    &&& old(self)@.jobs.contains_key(id.0)
                    &&& req@ == (RequestView {
                        remote_id: old(self)@.jobs[id.0],
                        message: RemoteRequestView::CancelCommand { id },
                    })
                    &&& final(self)@ == (EndpointView {
                        jobs: old(self)@.jobs.remove(id.0),
                        ..old(self)@
                    })
                },
                Err(e) => e == EndpointError::UnknownProcess && !old(self)@.jobs.contains_key(id.0)
                    && final(self)@ == old(self)@,
            },
    {
        match self.jobs.remove(&id.0) {
            Some(parent) => Ok(request(parent, RemoteRequest::CancelCommand { id })),
            None => {
                assert(self.jobs@ =~= old(self).jobs@);
                Err(EndpointError::UnknownProcess)
            },
        }
    }

    /// Takes note that a process has ended: it is no longer tracked, and
    /// no longer keeps its remote from being ended. For a process that is
    /// not tracked, one that was cancelled before, nothing changes.
    pub fn command_done(&mut self, id: ProcessId)
        requires
            old(self)@.wf(),
        ensures
            final(self)@.wf(),
            follows(old(self)@, final(self)@),
            final(self)@ == (EndpointView { jobs: old(self)@.jobs.remove(id.0), ..old(self)@ }),
    {
        self.jobs.remove(&id.0);
    }

    /// Answers an edit request of a tracked process with the new contents.
    pub fn finish_edit(&self, command_id: ProcessId, edit_id: usize, data: Vec<u8>) -> (res: Result<
        Request,
        EndpointError,
    >)
        ensures
            match res {
                Ok(req) => self@.jobs.contains_key(command_id.0) && req@ == (RequestView {
                    remote_id: self@.jobs[command_id.0],
                    message: RemoteRequestView::FinishEdit { id: edit_id, data: data@ },
                }),
                Err(e) => e == EndpointError::UnknownProcess && !self@.jobs.contains_key(
                    command_id.0,
                ),
            },
    {
        match self.jobs.get(&command_id.0) {
            Some(parent) => Ok(request(*parent, RemoteRequest::FinishEdit { id: edit_id, data })),
            None => Err(EndpointError::UnknownProcess),
        }
    }

    /// Grants the reader of a pipe on `remote` a budget of bytes.
    pub fn pipe_read(&self, remote: RemoteId, id: ReadPipe, read_up_to: u64) -> (req: Request)
        ensures
            req@ == (RequestView {
                remote_id: remote.0,
                message: RemoteRequestView::Pipe {
                    id: id.0,
                    msg: PipeMessageView::Read { read_up_to },
                },
            }),
    {
        request(
            remote.0,
            RemoteRequest::Pipe(PipeEnvelope { id: id.0, msg: PipeMessage::Read { read_up_to } }),
        )
    }

    /// Asks `remote` to stream what can be read from a pipe.
    pub fn pipe_begin_read(&self, remote: RemoteId, id: ReadPipe) -> (req: Request)
        ensures
            req@ == (RequestView {
                remote_id: remote.0,
                message: RemoteRequestView::Pipe { id: id.0, msg: PipeMessageView::BeginRead },
            }),
    {
        request(
            remote.0,
            RemoteRequest::Pipe(PipeEnvelope { id: id.0, msg: PipeMessage::BeginRead }),
        )
    }
}

} // verus!
