//! The backend's side of the transport: the responses it sends, and what
//! it does with a request that has come in.
//!
//! A request for remote 0 is for the backend itself. Every other request is
//! passed down to the child backend of that number, addressed to the child
//! as its own remote 0. A response that comes up from a child is passed on
//! upwards under the child's number.

use std::collections::HashMap;
use vstd::prelude::*;
use crate::protocol::{
    Command, CommandView, Condition, GenericPipe, PipeEnvelope, PipeMessage, PipeMessageView,
    ProcessId, ReadPipe, RemoteInfo, RemoteRequest, RemoteRequestEnvelope, RemoteRequestView,
    RemoteResponse, RemoteResponseEnvelope, RemoteResponseView, Request, RequestView, Response,
    ResponseView, WritePipe, WritePipes, WriteProcess,
};

verus! {

/// The responses of a backend. Each is addressed from remote 0, the
/// backend itself.
pub struct Backend;

fn response(message: RemoteResponse) -> (res: Response)
    ensures
        res@ == (ResponseView { remote_id: 0, message: message@ }),
{
    Response { remote_id: 0, message: RemoteResponseEnvelope(message) }
}

impl Backend {
    /// The backend is ready, and this is where it runs.
    pub fn remote_ready(info: RemoteInfo) -> (res: Response)
        ensures
            res@ == (ResponseView {
                remote_id: 0,
                message: RemoteResponseView::RemoteReady { info: info@ },
            }),
    {
        response(RemoteResponse::RemoteReady { info })
    }

    /// A chunk that was read from a pipe.
    pub fn pipe_data(id: WritePipe, data: Vec<u8>, end_offset: u64) -> (res: Response)
        ensures
            res@ == (ResponseView {
                remote_id: 0,
                message: RemoteResponseView::Pipe {
                    id: id.0,
                    msg: PipeMessageView::Data { data: data@, end_offset },
                },
            }),
    {
        response(
            RemoteResponse::Pipe(
                PipeEnvelope { id: id.0, msg: PipeMessage::Data { data, end_offset } },
            ),
        )
    }

    /// A pipe has reached its end.
    pub fn pipe_closed(id: WritePipe, end_offset: u64) -> (res: Response)
        ensures
            res@ == (ResponseView {
                remote_id: 0,
                message: RemoteResponseView::Pipe {
                    id: id.0,
                    msg: PipeMessageView::Closed { end_offset },
                },
            }),
    {
        response(
            RemoteResponse::Pipe(PipeEnvelope { id: id.0, msg: PipeMessage::Closed { end_offset } }),
        )
    }

    /// A process is done.
    pub fn command_done(id: ProcessId, exit_code: i64) -> (res: Response)
        ensures
            res@ == (ResponseView {
                remote_id: 0,
                message: RemoteResponseView::CommandDone { id, exit_code },
            }),
    {
        response(RemoteResponse::CommandDone { id, exit_code })
    }

    /// The entries of a directory.
    pub fn directory_listing(id: usize, items: Vec<String>) -> (res: Response)
        ensures
            res@ == (ResponseView {
                remote_id: 0,
                message: RemoteResponseView::DirectoryListing { id, items: items.deep_view() },
            }),
    {
        response(RemoteResponse::DirectoryListing { id, items })
    }

    /// A process asks the frontend to edit a file's contents.
    pub fn edit_request(command_id: ProcessId, edit_id: usize, name: String, data: Vec<u8>) -> (res:
        Response)
        ensures
            res@ == (ResponseView {
                remote_id: 0,
                message: RemoteResponseView::EditRequest {
                    command_id,
                    edit_id,
                    name: name@,
                    data: data@,
                },
            }),
    {
        response(RemoteResponse::EditRequest { command_id, edit_id, name, data })
    }
}

/// What a request asks of the backend that it is for, with its handles in
/// their typed form.
#[derive(Clone, Debug, PartialEq)]
#[allow(inconsistent_fields)]
pub enum BackendCall {
    BeginCommand { block_for: HashMap<usize, Condition>, process: WriteProcess, command: Command },
    CancelCommand { id: ProcessId },
    BeginRemote { id: usize, command: Command },
    OpenOutputFile { id: WritePipe, path: String },
    OpenInputFile { id: ReadPipe, path: String },
    EndRemote { id: usize },
    ListDirectory { id: usize, path: String },
    FinishEdit { id: usize, data: Vec<u8> },
    Pipe { id: GenericPipe, msg: PipeMessage },
}

impl BackendCall {
    /// The message that asks for this call.
    pub open spec fn as_request(self) -> RemoteRequestView {
        match self {
            BackendCall::BeginCommand { block_for, process, command } => {
                RemoteRequestView::BeginCommand {
                    block_for: block_for@,
                    process: crate::protocol::AbstractProcess {
                        id: process.id,
                        stdin: process.pipes.stdin.0,
                        stdout: process.pipes.stdout.0,
                        stderr: process.pipes.stderr.0,
                    },
                    command: command@,
                }
            },
            BackendCall::CancelCommand { id } => RemoteRequestView::CancelCommand { id },
            BackendCall::BeginRemote { id, command } => RemoteRequestView::BeginRemote {
                id,
                command: command@,
            },
            BackendCall::OpenOutputFile { id, path } => RemoteRequestView::OpenOutputFile {
                id: id.0,
                path: path@,
            },
            BackendCall::OpenInputFile { id, path } => RemoteRequestView::OpenInputFile {
                id: id.0,
                path: path@,
            },
            BackendCall::EndRemote { id } => RemoteRequestView::EndRemote { id },
            BackendCall::ListDirectory { id, path } => RemoteRequestView::ListDirectory {
                id,
                path: path@,
            },
            BackendCall::FinishEdit { id, data } => RemoteRequestView::FinishEdit { id, data: data@ },
            BackendCall::Pipe { id, msg } => RemoteRequestView::Pipe { id: id.0, msg: msg@ },
        }
    }
}

/// Where a request goes.
#[derive(Clone, Debug, PartialEq)]
pub enum Hop {
    /// The request is for this backend.
    Local(BackendCall),
    /// The request is for a remote further down: `request` is to be written
    /// to the child backend `child`.
    Forward { child: usize, request: Request },
}

impl Request {
    /// The call that the request asks of the backend it is for.
    pub fn route(self) -> (call: BackendCall)
        ensures
            call.as_request() == self@.message,
    {
        match self.message.0 {
            RemoteRequest::BeginCommand { block_for, process, command } => {
                BackendCall::BeginCommand {
                    block_for,
                    process: WriteProcess {
                        id: process.id,
                        pipes: WritePipes {
                            stdin: ReadPipe(process.stdin),
                            stdout: WritePipe(process.stdout),
                            stderr: WritePipe(process.stderr),
                        },
                    },
                    command,
                }
            },
            RemoteRequest::CancelCommand { id } => BackendCall::CancelCommand { id },
            RemoteRequest::BeginRemote { id, command } => BackendCall::BeginRemote { id, command },
            RemoteRequest::OpenOutputFile { id, path } => BackendCall::OpenOutputFile {
                id: WritePipe(id),
                path,
            },
            RemoteRequest::OpenInputFile { id, path } => BackendCall::OpenInputFile {
                id: ReadPipe(id),
                path,
            },
            RemoteRequest::EndRemote { id } => BackendCall::EndRemote { id },
            RemoteRequest::ListDirectory { id, path } => BackendCall::ListDirectory { id, path },
            RemoteRequest::FinishEdit { id, data } => BackendCall::FinishEdit { id, data },
            RemoteRequest::Pipe(pipe) => BackendCall::Pipe { id: GenericPipe(pipe.id), msg: pipe.msg },
        }
    }

    /// Decides where the request goes: to this backend where it is for
    /// remote 0, else down to the child of that number, readdressed to the
    /// child's own remote 0 with its message unchanged.
    pub fn hop(self) -> (hop: Hop)
        ensures
            match hop {
                Hop::Local(call) => self.remote_id == 0 && call.as_request() == self@.message,
                Hop::Forward { child, request } => self.remote_id != 0 && child == self.remote_id
                    && request@ == (RequestView { remote_id: 0, message: self@.message }),
            },
    {
        if self.remote_id == 0 {
            Hop::Local(self.route())
        } else {
            let Request { remote_id, message } = self;
            Hop::Forward { child: remote_id, request: Request { remote_id: 0, message } }
        }
    }
}

impl Response {
    /// The response as it is passed on upwards: it names the child backend
    /// that it came from, and its message is unchanged.
    pub fn from_child(self, child: usize) -> (res: Response)
        ensures
            res@ == (ResponseView { remote_id: child, message: self@.message }),
    {
        let Response { remote_id: _, message } = self;
        Response { remote_id: child, message }
    }
}

} // verus!
