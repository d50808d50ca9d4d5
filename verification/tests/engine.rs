use std::collections::HashMap;

use nak::engine::{Action, Builtin, Engine, Outputs, ProcessState, RunCmd, Stdio};
use nak::machine::Status;
use nak::protocol::{
    Command, ExitStatus, GenericPipe, PipeMessage, ProcessId, ReadPipe, WritePipe, WritePipes,
};
use nak::registry::{PipeError, Source};

fn pipes(stdin: usize, stdout: usize, stderr: usize) -> WritePipes {
    WritePipes { stdin: ReadPipe(stdin), stdout: WritePipe(stdout), stderr: WritePipe(stderr) }
}

fn program(name: &str, args: &[&str]) -> Command {
    Command::Unknown(name.to_string(), args.iter().map(|a| a.to_string()).collect())
}

fn gate(items: &[(usize, Option<ExitStatus>)]) -> HashMap<usize, Option<ExitStatus>> {
    items.iter().cloned().collect()
}

fn fresh() -> Stdio {
    Stdio { stdin: Ok(Source::NewPipe), stdout: Ok(Source::NewPipe), stderr: Ok(Source::NewPipe) }
}

#[test]
fn simple_echo_is_run_with_three_new_pipes() {
    let mut e = Engine::new();
    let actions = e.enqueue(
        ProcessId(3),
        RunCmd { cmd: program("echo", &["hi"]), pipes: pipes(0, 1, 2) },
        gate(&[]),
    );
    assert_eq!(
        actions,
        vec![Action::Run {
            pid: ProcessId(3),
            cmd: program("echo", &["hi"]),
            pipes: pipes(0, 1, 2),
            stdio: Some(fresh()),
        }]
    );
    e.spawned(ProcessId(3));
    assert!(matches!(e.status(ProcessId(3)), Status::Running(&ProcessState::Running)));
    assert_eq!(
        e.pipe_message(GenericPipe(1), PipeMessage::BeginRead),
        vec![Action::StartReading { pipe: GenericPipe(1), source: Ok(Source::Parked) }]
    );
    assert_eq!(
        e.completed(ProcessId(3), 0),
        vec![Action::Report { pid: ProcessId(3), exit_code: 0 }]
    );
    assert!(matches!(e.status(ProcessId(3)), Status::Exited(ExitStatus::Success)));
}

#[test]
fn dependency_gate_success_path() {
    let mut e = Engine::new();
    let a = e.enqueue(ProcessId(1), RunCmd { cmd: program("true", &[]), pipes: pipes(10, 11, 12) }, gate(&[]));
    assert_eq!(a.len(), 1);
    let b = e.enqueue(
        ProcessId(2),
        RunCmd { cmd: program("true", &[]), pipes: pipes(20, 21, 22) },
        gate(&[(1, Some(ExitStatus::Success))]),
    );
    assert_eq!(b, vec![]);
    e.spawned(ProcessId(1));
    let after = e.completed(ProcessId(1), 0);
    assert_eq!(
        after,
        vec![
            Action::Report { pid: ProcessId(1), exit_code: 0 },
            Action::Run {
                pid: ProcessId(2),
                cmd: program("true", &[]),
                pipes: pipes(20, 21, 22),
                stdio: Some(fresh()),
            },
        ]
    );
    e.spawned(ProcessId(2));
    assert_eq!(e.completed(ProcessId(2), 0), vec![Action::Report { pid: ProcessId(2), exit_code: 0 }]);
}

#[test]
fn dependency_gate_fail_path() {
    let mut e = Engine::new();
    e.enqueue(ProcessId(1), RunCmd { cmd: program("false", &[]), pipes: pipes(10, 11, 12) }, gate(&[]));
    e.enqueue(
        ProcessId(2),
        RunCmd { cmd: program("true", &[]), pipes: pipes(20, 21, 22) },
        gate(&[(1, Some(ExitStatus::Success))]),
    );
    e.spawned(ProcessId(1));
    assert_eq!(
        e.completed(ProcessId(1), 1),
        vec![
            Action::Report { pid: ProcessId(1), exit_code: 1 },
            Action::Report { pid: ProcessId(2), exit_code: 1 },
        ]
    );
    assert!(matches!(e.status(ProcessId(2)), Status::Exited(ExitStatus::Failure)));
}

#[test]
fn process_turned_away_at_enqueue_is_reported_and_forgotten() {
    let mut e = Engine::new();
    e.enqueue(ProcessId(1), RunCmd { cmd: program("false", &[]), pipes: pipes(10, 11, 12) }, gate(&[]));
    e.spawned(ProcessId(1));
    e.completed(ProcessId(1), 2);
    assert_eq!(
        e.enqueue(
            ProcessId(2),
            RunCmd { cmd: program("true", &[]), pipes: pipes(20, 21, 22) },
            gate(&[(1, Some(ExitStatus::Success))]),
        ),
        vec![Action::Report { pid: ProcessId(2), exit_code: 1 }]
    );
}

#[test]
fn cancel_mid_run_then_again() {
    let mut e = Engine::new();
    e.enqueue(ProcessId(5), RunCmd { cmd: program("sleep", &["100"]), pipes: pipes(0, 1, 2) }, gate(&[]));
    e.spawned(ProcessId(5));
    assert_eq!(e.cancel(ProcessId(5)), vec![Action::Kill { pid: ProcessId(5) }]);
    assert_eq!(e.completed(ProcessId(5), -1), vec![Action::Report { pid: ProcessId(5), exit_code: -1 }]);
    assert_eq!(e.cancel(ProcessId(5)), vec![]);
}

#[test]
fn edit_rendezvous() {
    let mut e = Engine::new();
    let run = e.enqueue(
        ProcessId(7),
        RunCmd { cmd: Command::Edit("/tmp/x".to_string()), pipes: pipes(0, 1, 2) },
        gate(&[]),
    );
    assert_eq!(
        run,
        vec![Action::Run {
            pid: ProcessId(7),
            cmd: Command::Edit("/tmp/x".to_string()),
            pipes: pipes(0, 1, 2),
            stdio: None,
        }]
    );
    assert_eq!(
        e.edit_loaded(ProcessId(7), "/tmp/x".to_string(), vec![]),
        vec![Action::RequestEdit {
            pid: ProcessId(7),
            edit_id: 0,
            name: "/tmp/x".to_string(),
            data: vec![],
        }]
    );
    assert!(matches!(e.status(ProcessId(7)), Status::Running(&ProcessState::AwaitingEdit)));
    assert_eq!(
        e.finish_edit(0, b"new\n".to_vec()),
        vec![
            Action::StoreFile { path: "/tmp/x".to_string(), data: b"new\n".to_vec() },
            Action::Report { pid: ProcessId(7), exit_code: 0 },
        ]
    );
    assert!(matches!(e.status(ProcessId(7)), Status::Exited(ExitStatus::Success)));
}

#[test]
fn second_edit_gets_the_next_edit_id() {
    let mut e = Engine::new();
    e.enqueue(ProcessId(1), RunCmd { cmd: Command::Edit("a".to_string()), pipes: pipes(0, 1, 2) }, gate(&[]));
    e.enqueue(ProcessId(2), RunCmd { cmd: Command::Edit("b".to_string()), pipes: pipes(3, 4, 5) }, gate(&[]));
    e.edit_loaded(ProcessId(1), "a".to_string(), vec![1]);
    let second = e.edit_loaded(ProcessId(2), "b".to_string(), vec![2]);
    assert_eq!(
        second,
        vec![Action::RequestEdit { pid: ProcessId(2), edit_id: 1, name: "b".to_string(), data: vec![2] }]
    );
    assert_eq!(
        e.finish_edit(1, vec![9]),
        vec![
            Action::StoreFile { path: "b".to_string(), data: vec![9] },
            Action::Report { pid: ProcessId(2), exit_code: 0 },
        ]
    );
}

#[test]
fn directory_builtin_is_done_at_once_and_releases_dependents() {
    let mut e = Engine::new();
    let run = e.enqueue(ProcessId(1), RunCmd { cmd: Command::GetDirectory, pipes: pipes(0, 1, 2) }, gate(&[]));
    assert_eq!(
        run,
        vec![Action::Run { pid: ProcessId(1), cmd: Command::GetDirectory, pipes: pipes(0, 1, 2), stdio: None }]
    );
    e.enqueue(
        ProcessId(2),
        RunCmd { cmd: Command::SetDirectory("/".to_string()), pipes: pipes(3, 4, 5) },
        gate(&[(1, None)]),
    );
    assert_eq!(
        e.builtin_done(ProcessId(1), pipes(0, 1, 2), Builtin::Directory(b"/home".to_vec())),
        vec![
            Action::Output {
                pipes: pipes(0, 1, 2),
                ends: Some(Outputs { stdout: Ok(Source::NewPipe), stderr: Ok(Source::NewPipe) }),
                out: b"/home\n".to_vec(),
                err: vec![],
            },
            Action::Report { pid: ProcessId(1), exit_code: 0 },
            Action::Run {
                pid: ProcessId(2),
                cmd: Command::SetDirectory("/".to_string()),
                pipes: pipes(3, 4, 5),
                stdio: None,
            },
        ]
    );
}

#[test]
fn failed_builtin_is_recorded_as_failure_and_reported_with_one() {
    let mut e = Engine::new();
    e.enqueue(ProcessId(1), RunCmd { cmd: Command::SetDirectory("/nowhere".to_string()), pipes: pipes(0, 1, 2) }, gate(&[]));
    let done = e.builtin_done(ProcessId(1), pipes(0, 1, 2), Builtin::NotChanged(b"no such place".to_vec()));
    assert_eq!(
        done,
        vec![
            Action::Output {
                pipes: pipes(0, 1, 2),
                ends: Some(Outputs { stdout: Ok(Source::NewPipe), stderr: Ok(Source::NewPipe) }),
                out: b"Error: no such place".to_vec(),
                err: vec![],
            },
            Action::Report { pid: ProcessId(1), exit_code: 1 },
        ]
    );
    assert!(matches!(e.status(ProcessId(1)), Status::Exited(ExitStatus::Failure)));
}

#[test]
fn a_failed_builtin_fails_the_gate_of_its_dependent() {
    let mut e = Engine::new();
    e.enqueue(ProcessId(1), RunCmd { cmd: Command::GetDirectory, pipes: pipes(0, 1, 2) }, gate(&[]));
    e.enqueue(
        ProcessId(2),
        RunCmd { cmd: program("true", &[]), pipes: pipes(3, 4, 5) },
        gate(&[(1, Some(ExitStatus::Success))]),
    );
    let done = e.builtin_done(ProcessId(1), pipes(0, 1, 2), Builtin::NoDirectory(b"gone".to_vec()));
    assert_eq!(
        done,
        vec![
            Action::Output {
                pipes: pipes(0, 1, 2),
                ends: Some(Outputs { stdout: Ok(Source::NewPipe), stderr: Ok(Source::NewPipe) }),
                out: vec![],
                err: b"Error: gone".to_vec(),
            },
            Action::Report { pid: ProcessId(1), exit_code: 1 },
            Action::Report { pid: ProcessId(2), exit_code: 1 },
        ]
    );
    assert!(matches!(e.status(ProcessId(2)), Status::Exited(ExitStatus::Failure)));
}

#[test]
fn what_each_builtin_outcome_says() {
    assert_eq!(Builtin::Changed.exit_code(), 0);
    assert_eq!(Builtin::Changed.texts(), (b"Success: ()".to_vec(), vec![]));
    assert_eq!(Builtin::NotChanged(b"x".to_vec()).exit_code(), 1);
    assert_eq!(Builtin::NotChanged(b"x".to_vec()).texts(), (b"Error: x".to_vec(), vec![]));
    assert_eq!(Builtin::Directory(b"/a".to_vec()).exit_code(), 0);
    assert_eq!(Builtin::Directory(b"/a".to_vec()).texts(), (b"/a\n".to_vec(), vec![]));
    assert_eq!(Builtin::NoDirectory(b"x".to_vec()).exit_code(), 1);
    assert_eq!(Builtin::NoDirectory(b"x".to_vec()).texts(), (vec![], b"Error: x".to_vec()));
}

#[test]
fn spawn_failure_writes_to_stderr_and_reports_one() {
    let mut e = Engine::new();
    e.enqueue(ProcessId(1), RunCmd { cmd: program("nope", &[]), pipes: pipes(0, 1, 2) }, gate(&[]));
    assert_eq!(
        e.run_failed(ProcessId(1), pipes(0, 1, 2), true, b"not found".to_vec()),
        vec![
            Action::Output { pipes: pipes(0, 1, 2), ends: None, out: vec![], err: b"not found".to_vec() },
            Action::Report { pid: ProcessId(1), exit_code: 1 },
        ]
    );
    assert!(matches!(e.status(ProcessId(1)), Status::Exited(ExitStatus::Failure)));
}

#[test]
fn edit_that_cannot_be_loaded_fails_with_new_claims() {
    let mut e = Engine::new();
    e.enqueue(
        ProcessId(1),
        RunCmd { cmd: Command::Edit("/root/x".to_string()), pipes: pipes(0, 1, 2) },
        gate(&[]),
    );
    e.enqueue(
        ProcessId(2),
        RunCmd { cmd: program("ls", &[]), pipes: pipes(3, 4, 5) },
        gate(&[(1, Some(ExitStatus::Failure))]),
    );
    assert_eq!(
        e.run_failed(ProcessId(1), pipes(0, 1, 2), false, b"denied".to_vec()),
        vec![
            Action::Output {
                pipes: pipes(0, 1, 2),
                ends: Some(Outputs { stdout: Ok(Source::NewPipe), stderr: Ok(Source::NewPipe) }),
                out: vec![],
                err: b"denied".to_vec(),
            },
            Action::Report { pid: ProcessId(1), exit_code: 1 },
            Action::Run { pid: ProcessId(2), cmd: program("ls", &[]), pipes: pipes(3, 4, 5), stdio: Some(fresh()) },
        ]
    );
}

#[test]
fn same_pipe_for_both_outputs_is_a_double_claim() {
    let mut e = Engine::new();
    let run = e.enqueue(ProcessId(1), RunCmd { cmd: program("ls", &[]), pipes: pipes(0, 1, 1) }, gate(&[]));
    assert_eq!(
        run,
        vec![Action::Run {
            pid: ProcessId(1),
            cmd: program("ls", &[]),
            pipes: pipes(0, 1, 1),
            stdio: Some(Stdio {
                stdin: Ok(Source::NewPipe),
                stdout: Ok(Source::NewPipe),
                stderr: Err(PipeError::SideTaken),
            }),
        }]
    );
}

#[test]
fn read_budget_calls_for_nothing() {
    let mut e = Engine::new();
    assert_eq!(e.pipe_message(GenericPipe(1), PipeMessage::Read { read_up_to: 1024 }), vec![]);
}

#[test]
fn files_go_through_the_engine_to_the_registry() {
    let mut e = Engine::new();
    assert_eq!(e.open_output_file(WritePipe(4)), Ok(()));
    assert_eq!(e.open_output_file(WritePipe(4)), Err(PipeError::AlreadyOpen));
    assert_eq!(e.open_input_file(ReadPipe(5)), Ok(()));
    let run = e.enqueue(ProcessId(1), RunCmd { cmd: program("cat", &[]), pipes: pipes(5, 4, 6) }, gate(&[]));
    assert_eq!(
        run,
        vec![Action::Run {
            pid: ProcessId(1),
            cmd: program("cat", &[]),
            pipes: pipes(5, 4, 6),
            stdio: Some(Stdio {
                stdin: Ok(Source::Parked),
                stdout: Ok(Source::Parked),
                stderr: Ok(Source::NewPipe),
            }),
        }]
    );
}
