//! The messages that travel between a frontend and its stacked backends, and
//! the typed handles they carry.

use std::collections::HashMap;
use vstd::prelude::*;
use crate::ids::Ids;

verus! {

/// What a backend is asked to run.
#[derive(Clone, Debug, PartialEq)]
pub enum Command {
    /// An external program with its arguments.
    Unknown(String, Vec<String>),
    /// Change the working directory of the hosting backend.
    SetDirectory(String),
    /// Write the working directory of the hosting backend to stdout.
    GetDirectory,
    /// Hand a file to the frontend's editor and wait for the new contents.
    Edit(String),
}

/// The mathematical value of a [`Command`].
pub ghost enum CommandView {
    Unknown(Seq<char>, Seq<Seq<char>>),
    SetDirectory(Seq<char>),
    GetDirectory,
    Edit(Seq<char>),
}

impl View for Command {
    type V = CommandView;

    open spec fn view(&self) -> CommandView {
        match self {
            Command::Unknown(path, args) => CommandView::Unknown(path@, args.deep_view()),
            Command::SetDirectory(dir) => CommandView::SetDirectory(dir@),
            Command::GetDirectory => CommandView::GetDirectory,
            Command::Edit(path) => CommandView::Edit(path@),
        }
    }
}

impl Command {
    /// Appends arguments to an external program's argument list.
    pub fn add_args(&mut self, new_args: Vec<String>)
        requires
            *old(self) is Unknown,
        ensures
            final(self)@ == CommandView::Unknown(
                old(self)@->Unknown_0,
                old(self)@->Unknown_1 + new_args.deep_view(),
            ),
    {
        let mut new_args = new_args;
        match self {
            Command::Unknown(_, args) => {
                let ghost before = args.deep_view();
                let ghost added = new_args.deep_view();
                args.append(&mut new_args);
                assert(args.deep_view() =~= before + added);
            },
            _ => {},
        }
    }
}

/// How a process ended.
#[derive(Copy, Clone, Debug, PartialEq, Eq, Hash, Structural)]
pub enum ExitStatus {
    Success,
    Failure,
}

impl ExitStatus {
    /// `Success` for exit code 0, `Failure` for every other code.
    pub fn from_exit_code(code: i64) -> (status: ExitStatus)
        ensures
            status == Self::of_code(code as int),
    {
        if code == 0 {
            ExitStatus::Success
        } else {
            ExitStatus::Failure
        }
    }

    /// The status that an exit code stands for.
    pub open spec fn of_code(code: int) -> ExitStatus {
        if code == 0 {
            ExitStatus::Success
        } else {
            ExitStatus::Failure
        }
    }
}

/// A gate on one predecessor: `None` waits for any outcome, `Some(s)` asks
/// for exactly the outcome `s`.
pub type Condition = Option<ExitStatus>;

/// Whether an outcome passes a gate.
pub open spec fn satisfies(cond: Condition, status: ExitStatus) -> bool {
    match cond {
        Some(expected) => expected == status,
        None => true,
    }
}

/// Executable form of [`satisfies`].
pub fn condition_holds(cond: Condition, status: ExitStatus) -> (ok: bool)
    ensures
        ok == satisfies(cond, status),
{
    match cond {
        Some(expected) => expected == status,
        None => true,
    }
}

/// The handle of a process.
#[derive(Copy, Clone, Debug, PartialEq, Eq, Hash, Structural)]
pub struct ProcessId(pub usize);

/// The reading side of a pipe.
#[derive(Copy, Clone, Debug, PartialEq, Eq, Hash, Structural)]
pub struct ReadPipe(pub usize);

/// The writing side of a pipe.
#[derive(Copy, Clone, Debug, PartialEq, Eq, Hash, Structural)]
pub struct WritePipe(pub usize);

/// A pipe without regard to side.
#[derive(Copy, Clone, Debug, PartialEq, Eq, Hash, Structural)]
pub struct GenericPipe(pub usize);

/// The handle of a remote backend. The endpoint itself is remote 0.
#[derive(Copy, Clone, Debug, PartialEq, Eq, Hash, Structural)]
pub struct RemoteId(pub usize);

impl ReadPipe {
    pub fn to_generic(&self) -> (pipe: GenericPipe)
        ensures
            pipe.0 == self.0,
    {
        GenericPipe(self.0)
    }
}

impl WritePipe {
    pub fn to_generic(&self) -> (pipe: GenericPipe)
        ensures
            pipe.0 == self.0,
    {
        GenericPipe(self.0)
    }
}

impl GenericPipe {
    pub fn to_write(&self) -> (pipe: WritePipe)
        ensures
            pipe.0 == self.0,
    {
        WritePipe(self.0)
    }

    pub fn to_read(&self) -> (pipe: ReadPipe)
        ensures
            pipe.0 == self.0,
    {
        ReadPipe(self.0)
    }
}

/// A source of handles for callers that have no endpoint at hand.
pub struct Testing {
    ids: Ids,
}

impl Testing {
    /// The number of handles handed out so far.
    pub closed spec fn allocated(&self) -> nat {
        self.ids@
    }

    pub fn new() -> (t: Testing)
        ensures
            t.allocated() == 0,
    {
        Testing { ids: Ids::new() }
    }

    /// Both sides of a new pipe, under one fresh handle.
    pub fn pipe(&mut self) -> (ends: (ReadPipe, WritePipe))
        requires
            old(self).allocated() < usize::MAX,
        ensures
            ends.0.0 == old(self).allocated(),
            ends.1.0 == old(self).allocated(),
            final(self).allocated() == old(self).allocated() + 1,
    {
        let id = self.ids.next();
        (ReadPipe(id), WritePipe(id))
    }

    /// A fresh process handle.
    pub fn process(&mut self) -> (id: ProcessId)
        requires
            old(self).allocated() < usize::MAX,
        ensures
            id.0 == old(self).allocated(),
            final(self).allocated() == old(self).allocated() + 1,
    {
        ProcessId(self.ids.next())
    }
}

/// The pipes of a process as its peer sees them: it writes the process's
/// stdin and reads its outputs.
#[derive(Copy, Clone, Debug, PartialEq)]
pub struct ReadPipes {
    pub stdin: WritePipe,
    pub stdout: ReadPipe,
    pub stderr: ReadPipe,
}

/// The pipes of a process as the process sees them.
#[derive(Copy, Clone, Debug, PartialEq)]
pub struct WritePipes {
    pub stdin: ReadPipe,
    pub stdout: WritePipe,
    pub stderr: WritePipe,
}

#[derive(Copy, Clone, Debug, PartialEq)]
pub struct WriteProcess {
    pub id: ProcessId,
    pub pipes: WritePipes,
}

#[derive(Copy, Clone, Debug, PartialEq)]
pub struct ReadProcess {
    pub id: ProcessId,
    pub pipes: ReadPipes,
}

/// A process as it travels on the wire: its handle and three raw pipe ids.
#[derive(Copy, Clone, Debug, PartialEq)]
pub struct AbstractProcess {
    pub id: ProcessId,
    pub stdin: usize,
    pub stdout: usize,
    pub stderr: usize,
}

/// Traffic of an in-band pipe.
#[derive(Clone, Debug, PartialEq)]
pub enum PipeMessage {
    BeginRead,
    Data { data: Vec<u8>, end_offset: u64 },
    Read { read_up_to: u64 },
    Closed { end_offset: u64 },
}

pub ghost enum PipeMessageView {
    BeginRead,
    Data { data: Seq<u8>, end_offset: u64 },
    Read { read_up_to: u64 },
    Closed { end_offset: u64 },
}

impl View for PipeMessage {
    type V = PipeMessageView;

    open spec fn view(&self) -> PipeMessageView {
        match self {
            PipeMessage::BeginRead => PipeMessageView::BeginRead,
            PipeMessage::Data { data, end_offset } => PipeMessageView::Data {
                data: data@,
                end_offset: *end_offset,
            },
            PipeMessage::Read { read_up_to } => PipeMessageView::Read { read_up_to: *read_up_to },
            PipeMessage::Closed { end_offset } => PipeMessageView::Closed {
                end_offset: *end_offset,
            },
        }
    }
}

impl PipeMessage {
    /// Only `BeginRead` and `Read` may travel towards a backend.
    pub open spec fn is_request(&self) -> bool {
        self is BeginRead || self is Read
    }

    /// Only `Data` and `Closed` may travel towards a frontend.
    pub open spec fn is_response(&self) -> bool {
        self is Data || self is Closed
    }
}

#[derive(Clone, Debug, PartialEq)]
pub struct PipeEnvelope<Id> {
    pub id: Id,
    pub msg: PipeMessage,
}

/// What a backend reports about itself once it is ready.
#[derive(Clone, Debug, PartialEq)]
pub struct RemoteInfo {
    pub hostname: String,
    pub username: String,
    pub working_dir: String,
}

pub ghost struct RemoteInfoView {
    pub hostname: Seq<char>,
    pub username: Seq<char>,
    pub working_dir: Seq<char>,
}

impl View for RemoteInfo {
    type V = RemoteInfoView;

    open spec fn view(&self) -> RemoteInfoView {
        RemoteInfoView {
            hostname: self.hostname@,
            username: self.username@,
            working_dir: self.working_dir@,
        }
    }
}

/// A message towards a backend.
#[derive(Clone, Debug, PartialEq)]
#[allow(inconsistent_fields)]
pub enum RemoteRequest {
    BeginCommand { block_for: HashMap<usize, Condition>, process: AbstractProcess, command: Command },
    CancelCommand { id: ProcessId },
    BeginRemote { id: usize, command: Command },
    OpenOutputFile { id: usize, path: String },
    OpenInputFile { id: usize, path: String },
    EndRemote { id: usize },
    ListDirectory { id: usize, path: String },
    FinishEdit { id: usize, data: Vec<u8> },
    Pipe(PipeEnvelope<usize>),
}

#[allow(inconsistent_fields)]
pub ghost enum RemoteRequestView {
    BeginCommand { block_for: Map<usize, Condition>, process: AbstractProcess, command: CommandView },
    CancelCommand { id: ProcessId },
    BeginRemote { id: usize, command: CommandView },
    OpenOutputFile { id: usize, path: Seq<char> },
    OpenInputFile { id: usize, path: Seq<char> },
    EndRemote { id: usize },
    ListDirectory { id: usize, path: Seq<char> },
    FinishEdit { id: usize, data: Seq<u8> },
    Pipe { id: usize, msg: PipeMessageView },
}

impl View for RemoteRequest {
    type V = RemoteRequestView;

    open spec fn view(&self) -> RemoteRequestView {
        match self {
            RemoteRequest::BeginCommand { block_for, process, command } => {
                RemoteRequestView::BeginCommand {
                    block_for: block_for@,
                    process: *process,
                    command: command@,
                }
            },
            RemoteRequest::CancelCommand { id } => RemoteRequestView::CancelCommand { id: *id },
            RemoteRequest::BeginRemote { id, command } => RemoteRequestView::BeginRemote {
                id: *id,
                command: command@,
            },
            RemoteRequest::OpenOutputFile { id, path } => RemoteRequestView::OpenOutputFile {
                id: *id,
                path: path@,
            },
            RemoteRequest::OpenInputFile { id, path } => RemoteRequestView::OpenInputFile {
                id: *id,
                path: path@,
            },
            RemoteRequest::EndRemote { id } => RemoteRequestView::EndRemote { id: *id },
            RemoteRequest::ListDirectory { id, path } => RemoteRequestView::ListDirectory {
                id: *id,
                path: path@,
            },
            RemoteRequest::FinishEdit { id, data } => RemoteRequestView::FinishEdit {
                id: *id,
                data: data@,
            },
            RemoteRequest::Pipe(envelope) => RemoteRequestView::Pipe {
                id: envelope.id,
                msg: envelope.msg@,
            },
        }
    }
}

/// A message towards a frontend.
#[derive(Clone, Debug, PartialEq)]
#[allow(inconsistent_fields)]
pub enum RemoteResponse {
    RemoteReady { info: RemoteInfo },
    CommandDone { id: ProcessId, exit_code: i64 },
    DirectoryListing { id: usize, items: Vec<String> },
    EditRequest { command_id: ProcessId, edit_id: usize, name: String, data: Vec<u8> },
    Pipe(PipeEnvelope<usize>),
}

#[allow(inconsistent_fields)]
pub ghost enum RemoteResponseView {
    RemoteReady { info: RemoteInfoView },
    CommandDone { id: ProcessId, exit_code: i64 },
    DirectoryListing { id: usize, items: Seq<Seq<char>> },
    EditRequest { command_id: ProcessId, edit_id: usize, name: Seq<char>, data: Seq<u8> },
    Pipe { id: usize, msg: PipeMessageView },
}

impl View for RemoteResponse {
    type V = RemoteResponseView;

    open spec fn view(&self) -> RemoteResponseView {
        match self {
            RemoteResponse::RemoteReady { info } => RemoteResponseView::RemoteReady { info: info@ },
            RemoteResponse::CommandDone { id, exit_code } => RemoteResponseView::CommandDone {
                id: *id,
                exit_code: *exit_code,
            },
            RemoteResponse::DirectoryListing { id, items } => RemoteResponseView::DirectoryListing {
                id: *id,
                items: items.deep_view(),
            },
            RemoteResponse::EditRequest { command_id, edit_id, name, data } => {
                RemoteResponseView::EditRequest {
                    command_id: *command_id,
                    edit_id: *edit_id,
                    name: name@,
                    data: data@,
                }
            },
            RemoteResponse::Pipe(envelope) => RemoteResponseView::Pipe {
                id: envelope.id,
                msg: envelope.msg@,
            },
        }
    }
}

#[derive(Clone, Debug, PartialEq)]
pub struct RemoteRequestEnvelope(pub RemoteRequest);

#[derive(Clone, Debug, PartialEq)]
pub struct RemoteResponseEnvelope(pub RemoteResponse);

/// One frame towards a backend. `remote_id` names the destination as the
/// recipient counts it; 0 is the recipient itself.
#[derive(Clone, Debug, PartialEq)]
pub struct Request {
    pub remote_id: usize,
    pub message: RemoteRequestEnvelope,
}

/// One frame towards a frontend. `remote_id` names the origin as the
/// recipient counts it; 0 is the sender itself.
#[derive(Clone, Debug, PartialEq)]
pub struct Response {
    pub remote_id: usize,
    pub message: RemoteResponseEnvelope,
}

pub ghost struct RequestView {
    pub remote_id: usize,
    pub message: RemoteRequestView,
}

pub ghost struct ResponseView {
    pub remote_id: usize,
    pub message: RemoteResponseView,
}

impl View for Request {
    type V = RequestView;

    open spec fn view(&self) -> RequestView {
        RequestView { remote_id: self.remote_id, message: self.message.0@ }
    }
}

impl View for Response {
    type V = ResponseView;

    open spec fn view(&self) -> ResponseView {
        ResponseView { remote_id: self.remote_id, message: self.message.0@ }
    }
}

} // verus!
