use std::collections::HashMap;

use nak::backend::{Backend, BackendCall, Hop};
use nak::endpoint::{Endpoint, EndpointError, Incoming};
use nak::protocol::{
    AbstractProcess, Command, ExitStatus, GenericPipe, PipeEnvelope, PipeMessage, ProcessId,
    ReadPipe, RemoteId, RemoteInfo, RemoteRequest, RemoteRequestEnvelope, RemoteResponse,
    RemoteResponseEnvelope, Request, Response, WritePipe, WritePipes, WriteProcess,
};

fn program(name: &str, args: &[&str]) -> Command {
    Command::Unknown(name.to_string(), args.iter().map(|a| a.to_string()).collect())
}

fn req(remote_id: usize, message: RemoteRequest) -> Request {
    Request { remote_id, message: RemoteRequestEnvelope(message) }
}

fn three_pipes(e: &mut Endpoint) -> ((ReadPipe, WritePipe), (ReadPipe, WritePipe), (ReadPipe, WritePipe)) {
    (e.pipe(), e.pipe(), e.pipe())
}

#[test]
fn simple_echo_requests() {
    let mut e = Endpoint::new();
    let root = e.root();
    let (stdin, stdout, stderr) = three_pipes(&mut e);
    let (id, begin) = e
        .command(
            root,
            program("echo", &["hi"]),
            HashMap::new(),
            WritePipes { stdin: stdin.0, stdout: stdout.1, stderr: stderr.1 },
        )
        .unwrap();
    assert_eq!(id, ProcessId(3));
    assert_eq!(
        begin,
        req(
            0,
            RemoteRequest::BeginCommand {
                block_for: HashMap::new(),
                process: AbstractProcess { id: ProcessId(3), stdin: 0, stdout: 1, stderr: 2 },
                command: program("echo", &["hi"]),
            }
        )
    );
    assert_eq!(
        e.pipe_begin_read(root, stdout.0),
        req(0, RemoteRequest::Pipe(PipeEnvelope { id: 1, msg: PipeMessage::BeginRead }))
    );
    assert_eq!(
        e.pipe_read(root, stdout.0, 1024 * 1024),
        req(0, RemoteRequest::Pipe(PipeEnvelope { id: 1, msg: PipeMessage::Read { read_up_to: 1048576 } }))
    );
}

#[test]
fn responses_are_sorted() {
    let mut e = Endpoint::new();
    let (_, w) = e.pipe();
    let data = Backend::pipe_data(w, b"hi\n".to_vec(), 3);
    assert_eq!(
        e.receive(data),
        Ok(Incoming::Pipe { id: GenericPipe(0), msg: PipeMessage::Data { data: b"hi\n".to_vec(), end_offset: 3 } })
    );
    assert_eq!(
        e.receive(Backend::pipe_closed(w, 3)),
        Ok(Incoming::Pipe { id: GenericPipe(0), msg: PipeMessage::Closed { end_offset: 3 } })
    );
    assert_eq!(
        e.receive(Backend::command_done(ProcessId(3), 0)),
        Ok(Incoming::CommandDone { id: ProcessId(3), exit_code: 0 })
    );
    assert_eq!(e.receive(Backend::pipe_closed(WritePipe(9), 0)), Err(EndpointError::UnknownPipe));
    let info = RemoteInfo {
        hostname: "h".to_string(),
        username: "u".to_string(),
        working_dir: "/".to_string(),
    };
    assert_eq!(
        e.receive(Backend::remote_ready(info.clone()).from_child(4)),
        Ok(Incoming::RemoteReady { id: RemoteId(4), info })
    );
    assert_eq!(
        e.receive(Backend::directory_listing(2, vec!["a".to_string()])),
        Ok(Incoming::DirectoryListing { id: 2, items: vec!["a".to_string()] })
    );
    assert_eq!(
        e.receive(Backend::edit_request(ProcessId(1), 0, "/tmp/x".to_string(), vec![])),
        Ok(Incoming::EditRequest { edit_id: 0, command_id: ProcessId(1), name: "/tmp/x".to_string(), data: vec![] })
    );
}

#[test]
fn nested_remote_round_trip() {
    let mut e = Endpoint::new();
    let root = e.root();
    // ten handles are used up before the remote is begun
    for _ in 0..10 {
        e.pipe();
    }
    let (remote, begin) = e.remote(root, program("nak-backend", &[])).unwrap();
    assert_eq!(remote, RemoteId(10));
    assert_eq!(
        begin,
        req(0, RemoteRequest::BeginRemote { id: 10, command: program("nak-backend", &[]) })
    );
    let (stdin, stdout, stderr) = three_pipes(&mut e);
    let (id, command) = e
        .command(
            remote,
            program("ls", &[]),
            HashMap::new(),
            WritePipes { stdin: stdin.0, stdout: stdout.1, stderr: stderr.1 },
        )
        .unwrap();
    assert_eq!(command.remote_id, 10);
    // the outer backend passes the request down, addressed to the child itself
    let message = command.message.clone();
    match command.hop() {
        Hop::Forward { child, request } => {
            assert_eq!(child, 10);
            assert_eq!(request, Request { remote_id: 0, message });
            // the inner backend sees a call of its own
            match request.hop() {
                Hop::Local(BackendCall::BeginCommand { process, command, .. }) => {
                    assert_eq!(
                        process,
                        WriteProcess {
                            id,
                            pipes: WritePipes {
                                stdin: ReadPipe(11),
                                stdout: WritePipe(12),
                                stderr: WritePipe(13),
                            },
                        }
                    );
                    assert_eq!(command, program("ls", &[]));
                }
                other => panic!("{:?}", other),
            }
        }
        other => panic!("{:?}", other),
    }
    // the inner backend's answer comes up under the child's number
    let done = Backend::command_done(id, 0);
    assert_eq!(done.remote_id, 0);
    let up = done.from_child(10);
    assert_eq!(
        up,
        Response {
            remote_id: 10,
            message: RemoteResponseEnvelope(RemoteResponse::CommandDone { id, exit_code: 0 }),
        }
    );
}

#[test]
fn the_first_remote_does_not_get_the_root_s_handle() {
    let mut e = Endpoint::new();
    let root = e.root();
    assert_eq!(root, RemoteId(0));
    let (remote, begin) = e.remote(root, program("nak-backend", &[])).unwrap();
    assert_eq!(remote, RemoteId(1));
    assert_eq!(begin, req(0, RemoteRequest::BeginRemote { id: 1, command: program("nak-backend", &[]) }));
    assert!(e.is_alive(root));
    assert!(e.is_alive(remote));
    // the handles go on behind the remote's
    assert_eq!(e.pipe().0, ReadPipe(2));
    let (inner, begin) = e.remote(remote, program("nak-backend", &[])).unwrap();
    assert_eq!(inner, RemoteId(3));
    assert_eq!(begin.remote_id, 1);
}

#[test]
fn a_remote_can_be_ended_once_its_processes_have_ended() {
    let mut e = Endpoint::new();
    let root = e.root();
    let (remote, _) = e.remote(root, program("nak-backend", &[])).unwrap();
    let (id, _) = e
        .command(
            remote,
            Command::GetDirectory,
            HashMap::new(),
            WritePipes { stdin: ReadPipe(0), stdout: WritePipe(1), stderr: WritePipe(2) },
        )
        .unwrap();
    assert_eq!(e.close_remote(remote), Err(EndpointError::Busy));
    assert!(e.tracks(id));
    e.command_done(id);
    assert!(!e.tracks(id));
    // a second end of the same process changes nothing
    e.command_done(id);
    assert_eq!(e.close_remote(remote), Ok(req(0, RemoteRequest::EndRemote { id: 1 })));
    assert!(!e.is_alive(remote));
    assert_eq!(e.handles_left(), usize::MAX - 3);
}

#[test]
fn operations_on_a_dead_remote_are_refused() {
    let mut e = Endpoint::new();
    let dead = RemoteId(7);
    assert!(!e.is_alive(dead));
    assert_eq!(e.remote(dead, Command::GetDirectory), Err(EndpointError::UnknownRemote));
    assert_eq!(
        e.command(
            dead,
            Command::GetDirectory,
            HashMap::new(),
            WritePipes { stdin: ReadPipe(0), stdout: WritePipe(1), stderr: WritePipe(2) }
        ),
        Err(EndpointError::UnknownRemote)
    );
    assert_eq!(e.open_output_file(dead, "f".to_string()), Err(EndpointError::UnknownRemote));
    assert_eq!(e.open_input_file(dead, "f".to_string()), Err(EndpointError::UnknownRemote));
    assert_eq!(e.close_remote(dead), Err(EndpointError::UnknownRemote));
    // a refused operation uses up no handle
    assert_eq!(e.pipe().0, ReadPipe(0));
}

#[test]
fn files_get_pipes_of_their_own() {
    let mut e = Endpoint::new();
    let root = e.root();
    let (w, out) = e.open_output_file(root, "out.txt".to_string()).unwrap();
    assert_eq!(w, WritePipe(0));
    assert_eq!(out, req(0, RemoteRequest::OpenOutputFile { id: 0, path: "out.txt".to_string() }));
    let (r, input) = e.open_input_file(root, "in.txt".to_string()).unwrap();
    assert_eq!(r, ReadPipe(1));
    assert_eq!(input, req(0, RemoteRequest::OpenInputFile { id: 1, path: "in.txt".to_string() }));
}

#[test]
fn closing_remotes() {
    let mut e = Endpoint::new();
    let root = e.root();
    e.pipe();
    let (outer, _) = e.remote(root, Command::GetDirectory).unwrap();
    let (inner, _) = e.remote(outer, Command::GetDirectory).unwrap();
    assert_eq!(e.close_remote(root), Err(EndpointError::RootRemote));
    assert_eq!(e.close_remote(outer), Err(EndpointError::Busy));
    let (job, _) = e
        .command(
            inner,
            Command::GetDirectory,
            HashMap::new(),
            WritePipes { stdin: ReadPipe(0), stdout: WritePipe(0), stderr: WritePipe(0) },
        )
        .unwrap();
    assert_eq!(e.close_remote(inner), Err(EndpointError::Busy));
    assert_eq!(
        e.close_process(job),
        Ok(Request {
            remote_id: inner.0,
            message: RemoteRequestEnvelope(RemoteRequest::CancelCommand { id: job }),
        })
    );
    assert_eq!(e.close_remote(inner), Ok(req(outer.0, RemoteRequest::EndRemote { id: inner.0 })));
    assert!(!e.is_alive(inner));
    assert_eq!(e.close_remote(outer), Ok(req(0, RemoteRequest::EndRemote { id: outer.0 })));
    assert_eq!(e.close_remote(outer), Err(EndpointError::UnknownRemote));
}

#[test]
fn closed_process_is_not_tracked_again() {
    let mut e = Endpoint::new();
    let root = e.root();
    let pipes = WritePipes { stdin: ReadPipe(0), stdout: WritePipe(0), stderr: WritePipe(0) };
    let (job, _) = e.command(root, Command::GetDirectory, HashMap::new(), pipes).unwrap();
    assert!(e.tracks(job));
    assert_eq!(
        e.finish_edit(job, 4, b"x".to_vec()),
        Ok(req(0, RemoteRequest::FinishEdit { id: 4, data: b"x".to_vec() }))
    );
    e.close_process(job).unwrap();
    assert!(!e.tracks(job));
    assert_eq!(e.close_process(job), Err(EndpointError::UnknownProcess));
    assert_eq!(e.finish_edit(job, 4, vec![]), Err(EndpointError::UnknownProcess));
    let (next, _) = e.command(root, Command::GetDirectory, HashMap::new(), pipes).unwrap();
    assert!(next.0 > job.0);
    assert!(!e.tracks(job));
}

#[test]
fn every_request_is_routed_to_its_call() {
    let mut block_for = HashMap::new();
    block_for.insert(1usize, Some(ExitStatus::Success));
    let routed: Vec<BackendCall> = vec![
        RemoteRequest::BeginCommand {
            block_for: block_for.clone(),
            process: AbstractProcess { id: ProcessId(3), stdin: 0, stdout: 1, stderr: 2 },
            command: Command::GetDirectory,
        },
        RemoteRequest::CancelCommand { id: ProcessId(3) },
        RemoteRequest::BeginRemote { id: 4, command: Command::GetDirectory },
        RemoteRequest::OpenOutputFile { id: 5, path: "o".to_string() },
        RemoteRequest::OpenInputFile { id: 6, path: "i".to_string() },
        RemoteRequest::EndRemote { id: 4 },
        RemoteRequest::ListDirectory { id: 7, path: "/".to_string() },
        RemoteRequest::FinishEdit { id: 8, data: vec![1] },
        RemoteRequest::Pipe(PipeEnvelope { id: 9, msg: PipeMessage::BeginRead }),
    ]
    .into_iter()
    .map(|m| req(0, m).route())
    .collect();
    assert_eq!(
        routed,
        vec![
            BackendCall::BeginCommand {
                block_for,
                process: WriteProcess {
                    id: ProcessId(3),
                    pipes: WritePipes { stdin: ReadPipe(0), stdout: WritePipe(1), stderr: WritePipe(2) },
                },
                command: Command::GetDirectory,
            },
            BackendCall::CancelCommand { id: ProcessId(3) },
            BackendCall::BeginRemote { id: 4, command: Command::GetDirectory },
            BackendCall::OpenOutputFile { id: WritePipe(5), path: "o".to_string() },
            BackendCall::OpenInputFile { id: ReadPipe(6), path: "i".to_string() },
            BackendCall::EndRemote { id: 4 },
            BackendCall::ListDirectory { id: 7, path: "/".to_string() },
            BackendCall::FinishEdit { id: 8, data: vec![1] },
            BackendCall::Pipe { id: GenericPipe(9), msg: PipeMessage::BeginRead },
        ]
    );
}
