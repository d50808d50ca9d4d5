use nak::endpoint::{EndpointError, Incoming};
use nak::plan::{Plan, PlanBuilder, PlanProcess, RemoteRef, RemoteStep, Sink, Step};
use nak::protocol::{
    AbstractProcess, Command, GenericPipe, PipeEnvelope, PipeMessage, ProcessId, ReadPipe,
    ReadPipes, ReadProcess, RemoteId, RemoteInfo, RemoteRequest, RemoteRequestEnvelope,
    RemoteResponse, RemoteResponseEnvelope, Request, Response, WritePipe,
};
use nak::session::{base_name, Effect, Next, Session, SessionError, StackedRemotes, READ_BUDGET};

fn info(dir: &str) -> RemoteInfo {
    RemoteInfo { hostname: "host".to_string(), username: "user".to_string(), working_dir: dir.to_string() }
}

fn req(remote_id: usize, message: RemoteRequest) -> Request {
    Request { remote_id, message: RemoteRequestEnvelope(message) }
}

fn begin_read(remote: usize, id: usize) -> Request {
    req(remote, RemoteRequest::Pipe(PipeEnvelope { id, msg: PipeMessage::BeginRead }))
}

fn read(remote: usize, id: usize) -> Request {
    req(remote, RemoteRequest::Pipe(PipeEnvelope { id, msg: PipeMessage::Read { read_up_to: 1024 * 1024 } }))
}

fn ready_session() -> Session {
    let mut s = Session::new();
    s.handler.waiting_for_remote = Some(RemoteId(0));
    assert_eq!(s.handler.next(), Next::AwaitRemote);
    assert_eq!(s.handler.handle(Incoming::RemoteReady { id: RemoteId(0), info: info("/") }), Ok(Effect::Nothing));
    assert_eq!(s.handler.next(), Next::Prompt);
    s
}

#[test]
fn base_names() {
    assert_eq!(base_name("/tmp/x"), "x");
    assert_eq!(base_name("x"), "x");
    assert_eq!(base_name("a/b/"), "");
    assert_eq!(base_name("/caf\u{e9}/\u{4e16}\u{754c}.txt"), "\u{4e16}\u{754c}.txt");
    assert_eq!(base_name(""), "");
}

#[test]
fn the_read_budget_is_one_mebibyte() {
    assert_eq!(READ_BUDGET, 1024 * 1024);
}

#[test]
fn remote_that_was_not_waited_for() {
    let mut h = StackedRemotes::new();
    assert_eq!(
        h.handle(Incoming::RemoteReady { id: RemoteId(3), info: info("/") }),
        Err(SessionError::UnexpectedRemote)
    );
    h.waiting_for_remote = Some(RemoteId(4));
    assert_eq!(
        h.handle(Incoming::RemoteReady { id: RemoteId(3), info: info("/") }),
        Err(SessionError::UnexpectedRemote)
    );
    assert!(h.remotes.is_empty());
}

#[test]
fn simple_echo_session() {
    let mut s = ready_session();
    let plan = Plan::single(RemoteRef(0), vec!["echo".to_string(), "hi".to_string()], None);
    let outcome = s.run_plan(plan).unwrap();
    assert!(!outcome.exit);
    assert_eq!(
        outcome.requests,
        vec![
            req(
                0,
                RemoteRequest::BeginCommand {
                    block_for: Default::default(),
                    process: AbstractProcess { id: ProcessId(3), stdin: 0, stdout: 1, stderr: 2 },
                    command: Command::Unknown("echo".to_string(), vec!["hi".to_string()]),
                }
            ),
            req(
                0,
                RemoteRequest::BeginCommand {
                    block_for: [(3usize, None)].into_iter().collect(),
                    process: AbstractProcess { id: ProcessId(7), stdin: 6, stdout: 4, stderr: 5 },
                    command: Command::GetDirectory,
                }
            ),
            begin_read(0, 4),
            begin_read(0, 5),
            read(0, 4),
            read(0, 5),
            begin_read(0, 1),
            read(0, 1),
            begin_read(0, 2),
            read(0, 2),
        ]
    );
    assert_eq!(s.handler.next(), Next::AwaitMessage);
    // the command's output goes to the terminal
    assert_eq!(
        s.handler.handle(Incoming::Pipe { id: GenericPipe(1), msg: PipeMessage::Data { data: b"hi\n".to_vec(), end_offset: 3 } }),
        Ok(Effect::Stdout(b"hi\n".to_vec()))
    );
    assert_eq!(
        s.handler.handle(Incoming::Pipe { id: GenericPipe(2), msg: PipeMessage::Data { data: b"oops".to_vec(), end_offset: 4 } }),
        Ok(Effect::Stderr(b"oops".to_vec()))
    );
    assert_eq!(s.handler.handle(Incoming::CommandDone { id: ProcessId(3), exit_code: 0 }), Ok(Effect::Nothing));
    assert_eq!(
        s.handler.handle(Incoming::CommandDone { id: ProcessId(3), exit_code: 0 }),
        Err(SessionError::UnexpectedProcess)
    );
    // the probe's output is gathered, in pieces
    for piece in [&b"/home"[..], &b"/me\n"[..]] {
        assert_eq!(
            s.handler.handle(Incoming::Pipe { id: GenericPipe(4), msg: PipeMessage::Data { data: piece.to_vec(), end_offset: 0 } }),
            Ok(Effect::Nothing)
        );
    }
    assert_eq!(s.handler.handle(Incoming::CommandDone { id: ProcessId(7), exit_code: 0 }), Ok(Effect::Nothing));
    assert_eq!(s.handler.next(), Next::AwaitMessage);
    assert_eq!(
        s.handler.handle(Incoming::Pipe { id: GenericPipe(4), msg: PipeMessage::Closed { end_offset: 0 } }),
        Ok(Effect::Nothing)
    );
    assert_eq!(s.handler.next(), Next::Prompt);
    assert_eq!(s.refresh_dirs(), Ok(()));
    assert_eq!(s.handler.remotes[0].1.working_dir, "/home/me");
    assert_eq!(s.handler.remotes[0].1.hostname, "host");
    assert!(s.handler.cwd_for_remote.is_empty());
    assert!(s.handler.finished_output.is_empty());
}

#[test]
fn output_without_a_newline_leaves_the_directory() {
    let mut s = ready_session();
    s.run_plan(Plan::empty()).unwrap();
    s.handler.handle(Incoming::Pipe { id: GenericPipe(2), msg: PipeMessage::Data { data: b"/x".to_vec(), end_offset: 0 } }).unwrap();
    s.handler.handle(Incoming::Pipe { id: GenericPipe(2), msg: PipeMessage::Closed { end_offset: 0 } }).unwrap();
    assert_eq!(s.refresh_dirs(), Ok(()));
    assert_eq!(s.handler.remotes[0].1.working_dir, "/");
}

#[test]
fn directory_that_has_not_come_or_is_not_text() {
    let mut s = ready_session();
    s.run_plan(Plan::empty()).unwrap();
    assert_eq!(s.refresh_dirs(), Err(SessionError::MissingOutput));
    let mut s = ready_session();
    s.run_plan(Plan::empty()).unwrap();
    s.handler.handle(Incoming::Pipe { id: GenericPipe(2), msg: PipeMessage::Data { data: vec![0xff, b'\n'], end_offset: 0 } }).unwrap();
    s.handler.handle(Incoming::Pipe { id: GenericPipe(2), msg: PipeMessage::Closed { end_offset: 0 } }).unwrap();
    assert_eq!(s.refresh_dirs(), Err(SessionError::NotText));
}

#[test]
fn redirect_into_a_file() {
    let mut s = ready_session();
    let plan = Plan::single(
        RemoteRef(0),
        vec!["helper".to_string()],
        Some((RemoteRef(0), "test_file".to_string())),
    );
    let outcome = s.run_plan(plan).unwrap();
    assert_eq!(outcome.requests[0], req(0, RemoteRequest::OpenOutputFile { id: 1, path: "test_file".to_string() }));
    assert_eq!(
        outcome.requests[1],
        req(
            0,
            RemoteRequest::BeginCommand {
                block_for: Default::default(),
                process: AbstractProcess { id: ProcessId(3), stdin: 0, stdout: 1, stderr: 2 },
                command: Command::Unknown("helper".to_string(), vec![]),
            }
        )
    );
    // only the errors of the command go to the terminal
    assert_eq!(&outcome.requests[outcome.requests.len() - 2..], &[begin_read(0, 2), read(0, 2)]);
    assert!(s.handler.stdout_pipes.is_empty());
}

#[test]
fn closing_the_last_remote_leaves_the_shell() {
    let mut s = ready_session();
    let mut b = PlanBuilder::new();
    b.exit(RemoteRef(0));
    b.pipe();
    let outcome = s.run_plan(b.build()).unwrap();
    assert!(outcome.exit);
    assert_eq!(outcome.requests, vec![]);
    assert_eq!(s.handler.next(), Next::Prompt);
    // the step after the close was not carried out
    assert_eq!(s.endpoint.pipe().0 .0, 0);
}

fn response(remote_id: usize, message: RemoteResponse) -> Response {
    Response { remote_id, message: RemoteResponseEnvelope(message) }
}

/// Answers every request of a plan as a backend would that runs nothing:
/// each pipe that is read ends, and each process is done.
fn answer_all(s: &mut Session, requests: &[Request]) {
    for r in requests {
        match &r.message.0 {
            RemoteRequest::Pipe(PipeEnvelope { id, msg: PipeMessage::BeginRead }) => {
                let closed = RemoteResponse::Pipe(PipeEnvelope { id: *id, msg: PipeMessage::Closed { end_offset: 0 } });
                assert_eq!(s.receive(response(r.remote_id, closed)), Ok(Effect::Nothing));
            }
            RemoteRequest::BeginCommand { process, .. } => {
                let done = RemoteResponse::CommandDone { id: process.id, exit_code: 0 };
                assert_eq!(s.receive(response(r.remote_id, done)), Ok(Effect::Nothing));
                assert!(!s.endpoint.tracks(process.id));
            }
            _ => {}
        }
    }
}

#[test]
fn nested_remote_is_begun_used_and_ended() {
    let mut s = ready_session();
    let begin = s.begin_remote(Command::Unknown("nak-backend".to_string(), vec![])).unwrap();
    assert_eq!(
        begin,
        req(0, RemoteRequest::BeginRemote { id: 1, command: Command::Unknown("nak-backend".to_string(), vec![]) })
    );
    assert_eq!(s.handler.next(), Next::AwaitRemote);
    assert_eq!(s.begin_remote(Command::GetDirectory), Err(SessionError::AlreadyWaiting));
    assert_eq!(
        s.receive(response(1, RemoteResponse::RemoteReady { info: info("/inner") })),
        Ok(Effect::Nothing)
    );
    assert_eq!(s.cur_remote(), RemoteId(1));
    let outcome = s.run_plan(Plan::empty()).unwrap();
    // everything goes to the inner remote
    assert!(!outcome.requests.is_empty());
    assert!(outcome.requests.iter().all(|r| r.remote_id == 1));
    // while the probe runs on it, the inner remote cannot be left, and stays
    let leave = || {
        let mut b = PlanBuilder::new();
        b.exit(RemoteRef(0));
        b.build()
    };
    assert_eq!(s.run_plan(leave()).err(), Some(SessionError::Endpoint(EndpointError::Busy)));
    assert_eq!(s.cur_remote(), RemoteId(1));
    assert!(s.endpoint.is_alive(RemoteId(1)));
    // once the probe has ended, it can
    answer_all(&mut s, &outcome.requests);
    assert_eq!(s.handler.next(), Next::Prompt);
    assert_eq!(s.refresh_dirs(), Ok(()));
    let outcome = s.run_plan(leave()).unwrap();
    assert!(!outcome.exit);
    assert_eq!(outcome.requests[0], req(0, RemoteRequest::EndRemote { id: 1 }));
    assert!(outcome.requests[1..].iter().all(|r| r.remote_id == 0));
    assert_eq!(s.cur_remote(), RemoteId(0));
    assert!(!s.endpoint.is_alive(RemoteId(1)));
    assert_eq!(s.handler.remotes.len(), 1);
    assert_eq!(s.handler.remotes[0].1.working_dir, "/");
}

#[test]
fn a_response_about_an_unknown_pipe_is_refused() {
    let mut s = ready_session();
    let data = RemoteResponse::Pipe(PipeEnvelope { id: 9, msg: PipeMessage::Data { data: vec![1], end_offset: 1 } });
    assert_eq!(s.receive(response(0, data)), Err(SessionError::Endpoint(EndpointError::UnknownPipe)));
}

#[test]
fn a_begun_remote_that_is_refused_changes_nothing() {
    let mut s = Session::new();
    assert_eq!(s.begin_remote(Command::GetDirectory), Err(SessionError::NoRemote));
    let mut s = ready_session();
    s.handler.remotes[0].0 = RemoteId(5);
    assert_eq!(
        s.begin_remote(Command::GetDirectory),
        Err(SessionError::Endpoint(EndpointError::UnknownRemote))
    );
    assert!(s.handler.waiting_for_remote.is_none());
    assert_eq!(s.endpoint.pipe().0 .0, 0);
}

#[test]
fn interrupt_cancels_what_is_waited_for() {
    let mut s = ready_session();
    s.run_plan(Plan::single(RemoteRef(0), vec!["sleep".to_string()], None)).unwrap();
    let mut cancels = s.cancel_all().unwrap();
    cancels.sort_by_key(|r| match &r.message.0 {
        RemoteRequest::CancelCommand { id } => id.0,
        _ => usize::MAX,
    });
    assert_eq!(
        cancels,
        vec![
            req(0, RemoteRequest::CancelCommand { id: ProcessId(3) }),
            req(0, RemoteRequest::CancelCommand { id: ProcessId(7) }),
        ]
    );
    assert!(!s.endpoint.tracks(ProcessId(3)));
    // the processes are still waited for: their end is to come
    assert_eq!(s.handler.next(), Next::AwaitMessage);
    assert_eq!(s.cancel_all(), Err(SessionError::Endpoint(EndpointError::UnknownProcess)));
}

#[test]
fn plans_that_cannot_be_carried_out() {
    let bad = |steps: Vec<Step>| Plan { steps, stdin: None, gather_count: 0, pager_count: 0, sink_map: vec![] };
    let run = |pr: PlanProcess| Step::Remote(RemoteRef(0), RemoteStep::Run(Command::GetDirectory, pr));
    let mut s = ready_session();
    assert_eq!(s.run_plan(bad(vec![Step::Pager])).err(), Some(SessionError::BadPlan));
    assert_eq!(s.run_plan(bad(vec![Step::Editor])).err(), Some(SessionError::BadPlan));
    assert_eq!(
        s.run_plan(bad(vec![Step::Remote(RemoteRef(0), RemoteStep::OpenInputFile("f".to_string()))])).err(),
        Some(SessionError::BadPlan)
    );
    // a pipe that the plan has not made
    assert_eq!(
        s.run_plan(bad(vec![Step::Pipe, run(PlanProcess { id: 0, stdin: 0, stdout: 1, stderr: 0 })])).err(),
        Some(SessionError::BadPlan)
    );
    // one pipe for both outputs
    assert_eq!(
        s.run_plan(bad(vec![Step::Pipe, Step::Pipe, run(PlanProcess { id: 0, stdin: 0, stdout: 1, stderr: 1 })])).err(),
        Some(SessionError::BadPlan)
    );
    // a sink on a pipe whose reading end a process has taken
    let mut plan = bad(vec![Step::Pipe, Step::Pipe, Step::Pipe, run(PlanProcess { id: 0, stdin: 0, stdout: 1, stderr: 2 })]);
    plan.sink_map = vec![Some(Sink::Stdout)];
    assert_eq!(s.run_plan(plan).err(), Some(SessionError::BadPlan));
    // no remote is ready
    let mut empty = Session::new();
    assert_eq!(empty.run_plan(Plan::empty()).err(), Some(SessionError::NoRemote));
}

#[test]
fn messages_that_make_no_sense_to_a_frontend() {
    let mut h = StackedRemotes::new();
    assert_eq!(
        h.handle(Incoming::Pipe { id: GenericPipe(1), msg: PipeMessage::BeginRead }),
        Err(SessionError::UnexpectedMessage)
    );
    assert_eq!(
        h.handle(Incoming::Pipe { id: GenericPipe(1), msg: PipeMessage::Read { read_up_to: 1 } }),
        Err(SessionError::UnexpectedMessage)
    );
    assert_eq!(
        h.handle(Incoming::Pipe { id: GenericPipe(1), msg: PipeMessage::Data { data: vec![1], end_offset: 1 } }),
        Err(SessionError::StrayData)
    );
    assert_eq!(
        h.handle(Incoming::DirectoryListing { id: 1, items: vec![] }),
        Err(SessionError::Unsupported)
    );
    assert_eq!(
        h.handle(Incoming::EditRequest { edit_id: 2, command_id: ProcessId(1), name: "n".to_string(), data: vec![7] }),
        Ok(Effect::Edit { edit_id: 2, command_id: ProcessId(1), name: "n".to_string(), data: vec![7] })
    );
}

#[test]
fn one_command_is_run_with_pipes_of_its_own() {
    let mut s = ready_session();
    let echo = Command::Unknown("echo".to_string(), vec!["hi".to_string()]);
    let (process, requests) = s.run(echo.clone(), None).unwrap();
    assert_eq!(
        process,
        ReadProcess {
            id: ProcessId(3),
            pipes: ReadPipes { stdin: WritePipe(1), stdout: ReadPipe(2), stderr: ReadPipe(0) },
        }
    );
    assert_eq!(
        requests,
        vec![req(
            0,
            RemoteRequest::BeginCommand {
                block_for: std::collections::HashMap::new(),
                process: AbstractProcess { id: ProcessId(3), stdin: 1, stdout: 2, stderr: 0 },
                command: echo,
            }
        )]
    );
    assert!(s.endpoint.tracks(ProcessId(3)));
    assert_eq!(s.endpoint.pipe().0, ReadPipe(4));
}

#[test]
fn one_command_is_run_into_a_file() {
    let mut s = ready_session();
    let (process, requests) = s.run(Command::GetDirectory, Some("out".to_string())).unwrap();
    assert_eq!(
        process,
        ReadProcess {
            id: ProcessId(4),
            pipes: ReadPipes { stdin: WritePipe(1), stdout: ReadPipe(3), stderr: ReadPipe(0) },
        }
    );
    assert_eq!(
        requests,
        vec![
            req(0, RemoteRequest::OpenOutputFile { id: 2, path: "out".to_string() }),
            req(
                0,
                RemoteRequest::BeginCommand {
                    block_for: std::collections::HashMap::new(),
                    process: AbstractProcess { id: ProcessId(4), stdin: 1, stdout: 2, stderr: 0 },
                    command: Command::GetDirectory,
                }
            ),
        ]
    );
}

#[test]
fn a_command_that_cannot_be_run_changes_nothing() {
    let mut s = Session::new();
    assert_eq!(s.run(Command::GetDirectory, None).err(), Some(SessionError::NoRemote));
    let mut s = ready_session();
    s.handler.remotes[0].0 = RemoteId(9);
    assert_eq!(
        s.run(Command::GetDirectory, None).err(),
        Some(SessionError::Endpoint(EndpointError::UnknownRemote))
    );
    assert_eq!(s.endpoint.pipe().0, ReadPipe(0));
}
