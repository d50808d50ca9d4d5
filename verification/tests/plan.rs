use nak::plan::{Plan, PlanBuilder, PlanProcess, RemoteRef, RemoteStep, Sink, Step};
use nak::protocol::Command;

#[test]
fn empty_plan_has_two_pipes() {
    let plan = Plan::empty();
    assert_eq!(plan.steps, vec![Step::Pipe, Step::Pipe]);
    assert_eq!(plan.stdin, Some(0));
    assert_eq!(plan.sink_map, vec![Some(Sink::Stdout), Some(Sink::Stderr)]);
    assert_eq!((plan.gather_count, plan.pager_count), (0, 0));
}

#[test]
fn single_plan_to_the_terminal() {
    let plan = Plan::single(RemoteRef(0), vec![String::from("echo"), String::from("hi")], None);
    assert_eq!(
        plan.steps,
        vec![
            Step::Pipe,
            Step::Pipe,
            Step::Pipe,
            Step::Remote(
                RemoteRef(0),
                RemoteStep::Run(
                    Command::Unknown(String::from("echo"), vec![String::from("hi")]),
                    PlanProcess { id: 0, stdin: 0, stdout: 1, stderr: 2 },
                ),
            ),
        ]
    );
    assert_eq!(plan.stdin, Some(0));
    assert_eq!(plan.sink_map, vec![None, Some(Sink::Stdout), Some(Sink::Stderr)]);
}

#[test]
fn single_plan_into_a_file() {
    let plan = Plan::single(
        RemoteRef(0),
        vec![String::from("ls")],
        Some((RemoteRef(1), String::from("out.txt"))),
    );
    assert_eq!(plan.steps[1], Step::Remote(RemoteRef(1), RemoteStep::OpenOutputFile(String::from("out.txt"))));
    assert_eq!(plan.sink_map, vec![None, None, Some(Sink::Stderr)]);
}

#[test]
fn builder_numbers_pipes_and_processes_in_order() {
    let mut b = PlanBuilder::new();
    assert_eq!(b.pipe(), 0);
    assert_eq!(b.add_file_output(RemoteRef(0), String::from("f")), 1);
    assert_eq!(b.pipe(), 2);
    assert!(b.can_add_command(0, 1, 2));
    b.add_command(RemoteRef(0), Command::GetDirectory, 0, 1, 2);
    assert!(!b.can_add_command(0, 1, 2));
    assert_eq!(b.add_gather().0, 0);
    assert_eq!(b.add_gather().0, 1);
    assert_eq!(b.add_pager().0, 0);
    b.exit(RemoteRef(0));
    let plan = b.build();
    assert_eq!(plan.steps.len(), 5);
    assert_eq!(plan.steps[4], Step::Remote(RemoteRef(0), RemoteStep::Close));
    assert_eq!((plan.gather_count, plan.pager_count), (2, 1));
}

#[test]
fn file_output_has_no_reading_end() {
    let mut b = PlanBuilder::new();
    let file = b.add_file_output(RemoteRef(0), String::from("f"));
    let a = b.pipe();
    let c = b.pipe();
    assert!(!b.can_add_command(file, a, c));
    assert!(b.can_add_command(a, file, c));
}

#[test]
fn one_pipe_cannot_be_both_outputs() {
    let mut b = PlanBuilder::new();
    let a = b.pipe();
    let c = b.pipe();
    assert!(!b.can_add_command(a, c, c));
}

#[test]
fn sink_map_grows_to_the_stream() {
    let mut b = PlanBuilder::new();
    assert!(b.sink_is_free(3));
    b.sink(3, Sink::DevNull);
    assert!(!b.sink_is_free(3));
    assert!(b.sink_is_free(1));
    b.add_stderr(1);
    assert_eq!(b.build().sink_map, vec![None, Some(Sink::Stderr), None, Some(Sink::DevNull)]);
}
