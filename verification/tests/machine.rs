use std::collections::HashMap;

use nak::machine::{Machine, Status, Task};
use nak::protocol::ExitStatus;
use nak::protocol::ExitStatus::{Failure, Success};

fn wait(items: &[(usize, Option<ExitStatus>)]) -> HashMap<usize, Option<ExitStatus>> {
    let mut res = HashMap::new();

    for item in items {
        res.insert(item.0, item.1);
    }

    res
}

#[test]
fn test_machine() {
    let mut m = Machine::new();

    assert_eq!(m.enqueue(0, "a", wait(&[])), vec![Task::Start(0, "a")]);

    assert_eq!(m.enqueue(1, "b", wait(&[(0, None)])), vec![]);
    m.start(0, "waffle");
    assert_eq!(m.completed(0, ExitStatus::Success), vec![Task::Start(1, "b")]);

    assert_eq!(m.enqueue(2, "c", wait(&[(0, None)])), vec![Task::Start(2, "c")]);
    assert_eq!(m.enqueue(3, "d", wait(&[(0, Some(Success))])), vec![Task::Start(3, "d")]);
    assert_eq!(m.enqueue(4, "e", wait(&[(0, Some(Failure))])), vec![Task::ConditionFailed(4, "e")]);
    assert_eq!(m.enqueue(5, "f", wait(&[(2, Some(Success)), (3, Some(Success))])), vec![]);
    assert_eq!(m.enqueue(6, "g", wait(&[(2, Some(Success))])), vec![]);

    m.start(2, "badger");
    assert_eq!(m.completed(2, ExitStatus::Success), vec![Task::Start(6, "g")]);
    m.start(3, "anthill");
    assert_eq!(m.completed(3, ExitStatus::Success), vec![Task::Start(5, "f")]);
}

#[test]
fn status_tells_running_from_exited() {
    let mut m: Machine<&str, u32> = Machine::new();
    m.enqueue(7, "x", wait(&[]));
    m.start(7, 41);
    assert!(matches!(m.status(7), Status::Running(&41)));
    m.completed(7, ExitStatus::Failure);
    assert!(matches!(m.status(7), Status::Exited(ExitStatus::Failure)));
}

#[test]
fn failed_gate_gives_up_the_dependent() {
    let mut m: Machine<&str, ()> = Machine::new();
    assert_eq!(m.enqueue(1, "a", wait(&[])), vec![Task::Start(1, "a")]);
    assert_eq!(m.enqueue(2, "b", wait(&[(1, Some(ExitStatus::Success))])), vec![]);
    m.start(1, ());
    assert_eq!(m.completed(1, ExitStatus::Failure), vec![Task::ConditionFailed(2, "b")]);
    assert!(matches!(m.status(2), Status::Exited(ExitStatus::Failure)));
}

#[test]
fn gate_on_failure_releases_after_a_failure() {
    let mut m: Machine<&str, ()> = Machine::new();
    m.enqueue(1, "a", wait(&[]));
    assert_eq!(m.enqueue(2, "b", wait(&[(1, Some(ExitStatus::Failure))])), vec![]);
    m.start(1, ());
    assert_eq!(m.completed(1, ExitStatus::Failure), vec![Task::Start(2, "b")]);
}

#[test]
fn giving_up_cascades_in_list_order() {
    // 2 needs 1 to succeed; 3 needs 2 to succeed; 4 runs once 2 has failed;
    // 5 waits for 1 whatever its outcome.
    let mut m: Machine<&str, ()> = Machine::new();
    m.enqueue(1, "a", wait(&[]));
    m.enqueue(2, "b", wait(&[(1, Some(ExitStatus::Success))]));
    m.enqueue(3, "c", wait(&[(2, Some(ExitStatus::Success))]));
    m.enqueue(4, "d", wait(&[(2, Some(ExitStatus::Failure))]));
    m.enqueue(5, "e", wait(&[(1, None)]));
    m.start(1, ());
    assert_eq!(
        m.completed(1, ExitStatus::Failure),
        vec![
            Task::ConditionFailed(2, "b"),
            Task::ConditionFailed(3, "c"),
            Task::Start(4, "d"),
            Task::Start(5, "e"),
        ]
    );
}

#[test]
fn given_up_process_is_forgotten_by_its_other_predecessors() {
    // 3 waits on 1 and on 2. 1 fails its gate, so 3 is given up; when 2 ends
    // later there is nothing left to wake.
    let mut m: Machine<&str, ()> = Machine::new();
    m.enqueue(1, "a", wait(&[]));
    m.enqueue(2, "b", wait(&[]));
    m.enqueue(3, "c", wait(&[(1, Some(ExitStatus::Success)), (2, None)]));
    m.start(1, ());
    m.start(2, ());
    assert_eq!(m.completed(1, ExitStatus::Failure), vec![Task::ConditionFailed(3, "c")]);
    assert_eq!(m.completed(2, ExitStatus::Success), vec![]);
}

#[test]
fn dependent_given_up_by_a_cascade_is_skipped_later_in_the_same_list() {
    // 2 and 3 both wait on 1; 3 also needs 2 to succeed. 1 fails 2's gate,
    // the cascade gives up 3, and 3's own entry in 1's list is passed over.
    let mut m: Machine<&str, ()> = Machine::new();
    m.enqueue(1, "a", wait(&[]));
    m.enqueue(2, "b", wait(&[(1, Some(ExitStatus::Success))]));
    m.enqueue(3, "c", wait(&[(1, None), (2, Some(ExitStatus::Success))]));
    m.start(1, ());
    assert_eq!(
        m.completed(1, ExitStatus::Failure),
        vec![Task::ConditionFailed(2, "b"), Task::ConditionFailed(3, "c")]
    );
}

#[test]
fn start_completed_resolves_dependents() {
    let mut m: Machine<&str, ()> = Machine::new();
    m.enqueue(1, "cd", wait(&[]));
    m.enqueue(2, "ls", wait(&[(1, Some(ExitStatus::Success))]));
    assert_eq!(m.start_completed(1, ExitStatus::Success), vec![Task::Start(2, "ls")]);
    assert!(matches!(m.status(1), Status::Exited(ExitStatus::Success)));
}

#[test]
fn a_process_turned_away_may_be_enqueued_again() {
    let mut m: Machine<&str, ()> = Machine::new();
    assert_eq!(m.enqueue(1, "a", wait(&[])), vec![Task::Start(1, "a")]);
    m.start(1, ());
    assert_eq!(m.completed(1, Failure), vec![]);
    assert_eq!(m.enqueue(2, "b", wait(&[(1, Some(Success))])), vec![Task::ConditionFailed(2, "b")]);
    assert_eq!(m.enqueue(2, "b", wait(&[(1, Some(Failure))])), vec![Task::Start(2, "b")]);
}
