//! The dependency-gated process scheduler.
//!
//! A process is enqueued together with a gate on each of its predecessors.
//! It waits until every predecessor has finished with an outcome that passes
//! its gate, and is then handed out to be started. As soon as one predecessor
//! finishes with an outcome that fails its gate, the process is given up: it
//! is recorded as failed, and its own dependents are resolved in turn.

use std::collections::{HashMap, HashSet};
use vstd::prelude::*;
use crate::protocol::{condition_holds, satisfies, Condition, ExitStatus};
use crate::tables::pairs_of;

verus! {

broadcast use vstd::std_specs::hash::group_hash_axioms;

/// What the scheduler asks its driver to do.
#[derive(Debug, PartialEq, Eq)]
pub enum Task<Id, Cmd> {
    /// Every gate of the process has cleared: start it.
    Start(Id, Cmd),
    /// A gate of the process has failed: report it as failed, do not start it.
    ConditionFailed(Id, Cmd),
}

impl<Id, Cmd> Task<Id, Cmd> {
    /// The process that a task is about.
    pub open spec fn id(self) -> Id {
        match self {
            Task::Start(id, _) => id,
            Task::ConditionFailed(id, _) => id,
        }
    }

    /// The command that a task carries.
    pub open spec fn cmd(self) -> Cmd {
        match self {
            Task::Start(_, cmd) => cmd,
            Task::ConditionFailed(_, cmd) => cmd,
        }
    }
}

/// Which of the scheduler's sets a process is in.
#[derive(Clone, Copy, Debug, PartialEq, Eq, Structural)]
pub enum Place {
    Unknown,
    Waiting,
    Ready,
    Running,
    Finished,
}

/// Where a process that has left the queue stands.
pub enum Status<'a, State: 'a> {
    Running(&'a State),
    Exited(ExitStatus),
}

struct Waiting<Cmd> {
    cmd: Cmd,
    conditions: HashMap<usize, Condition>,
}

/// The scheduler. `Cmd` is what a process runs, `State` what the driver
/// keeps for a running process.
pub struct Machine<Cmd, State> {
    finished: HashMap<usize, ExitStatus>,
    to_run: HashSet<usize>,
    running: HashMap<usize, State>,
    check_on_completed: HashMap<usize, Vec<(Condition, usize)>>,
    waiting_on: HashMap<usize, Waiting<Cmd>>,
}

/// A waiting process: its command and the gates that have not cleared yet.
#[verifier::ext_equal]
pub ghost struct Gate<Cmd> {
    pub cmd: Cmd,
    pub conditions: Map<usize, Condition>,
}

/// The mathematical state of a [`Machine`].
#[verifier::ext_equal]
pub ghost struct MachineView<Cmd, State> {
    /// The processes that have ended, with their outcome.
    pub finished: Map<usize, ExitStatus>,
    /// The processes that are ready and not yet started.
    pub to_run: Set<usize>,
    /// The processes that have been started, with the driver's state.
    pub running: Map<usize, State>,
    /// The processes whose gates have not all cleared.
    pub waiting: Map<usize, Gate<Cmd>>,
    /// For each predecessor, the processes to look at when it finishes, in
    /// the order in which they were enqueued, each with its gate.
    pub wakeups: Map<usize, Seq<(Condition, usize)>>,
}

/// `w` waits on `q`.
pub open spec fn waits_on<Cmd>(waiting: Map<usize, Gate<Cmd>>, w: usize, q: usize) -> bool {
    waiting.contains_key(w) && waiting[w].conditions.contains_key(q)
}

/// Every process that waits on `q` stands in `q`'s wake-up list, with its gate.
pub open spec fn listed<Cmd>(
    waiting: Map<usize, Gate<Cmd>>,
    wakeups: Map<usize, Seq<(Condition, usize)>>,
    q: usize,
) -> bool {
    forall|w: usize|
        #![trigger waits_on(waiting, w, q)]
        waits_on(waiting, w, q) ==> wakeups.contains_key(q) && wakeups[q].contains(
            (waiting[w].conditions[q], w),
        )
}

/// Every entry of a wake-up list names a process that waits on the list's
/// owner with the recorded gate, and no list names a process twice.
pub open spec fn wakeups_sound<Cmd>(
    waiting: Map<usize, Gate<Cmd>>,
    wakeups: Map<usize, Seq<(Condition, usize)>>,
) -> bool {
    &&& forall|q: usize, i: int|
        wakeups.contains_key(q) && 0 <= i < wakeups[q].len() ==> {
            let entry = #[trigger] wakeups[q][i];
            waits_on(waiting, entry.1, q) && waiting[entry.1].conditions[q] == entry.0
        }
    &&& forall|q: usize| #![trigger wakeups[q]] wakeups.contains_key(q) ==> distinct_dependents(wakeups[q])
}

impl<Cmd, State> MachineView<Cmd, State> {
    /// The process is in one of the four sets.
    pub open spec fn knows(self, id: usize) -> bool {
        self.finished.contains_key(id) || self.to_run.contains(id) || self.running.contains_key(id)
            || self.waiting.contains_key(id)
    }

    /// The set that the process is in.
    pub open spec fn place(self, id: usize) -> Place {
        if self.finished.contains_key(id) {
            Place::Finished
        } else if self.to_run.contains(id) {
            Place::Ready
        } else if self.running.contains_key(id) {
            Place::Running
        } else if self.waiting.contains_key(id) {
            Place::Waiting
        } else {
            Place::Unknown
        }
    }

    /// The process is known and has not finished.
    pub open spec fn pending(self, id: usize) -> bool {
        self.to_run.contains(id) || self.running.contains_key(id) || self.waiting.contains_key(id)
    }

    /// No process is in two of the four sets.
    pub open spec fn disjoint(self) -> bool {
        forall|id: usize|
            #![trigger self.finished.contains_key(id)]
            #![trigger self.to_run.contains(id)]
            #![trigger self.running.contains_key(id)]
            #![trigger self.waiting.contains_key(id)]
            {
                &&& self.finished.contains_key(id) ==> !self.to_run.contains(id)
                    && !self.running.contains_key(id) && !self.waiting.contains_key(id)
                &&& self.to_run.contains(id) ==> !self.running.contains_key(id)
                    && !self.waiting.contains_key(id)
                &&& self.running.contains_key(id) ==> !self.waiting.contains_key(id)
            }
    }

    /// Every waiting process has at least one gate left.
    pub open spec fn gates_left(self) -> bool {
        forall|w: usize|
            #![trigger self.waiting.contains_key(w)]
            self.waiting.contains_key(w) ==> exists|q: usize| waits_on(self.waiting, w, q)
    }

    /// The invariant while the wake-up lists of the processes in `draining`
    /// are being worked off: outside of `draining`, nothing waits on a
    /// process that has finished, and every gate has its wake-up entry.
    pub open spec fn consistent(self, draining: Set<usize>) -> bool {
        &&& self.disjoint()
        &&& self.gates_left()
        &&& wakeups_sound(self.waiting, self.wakeups)
        &&& forall|q: usize| draining.contains(q) ==> #[trigger] self.finished.contains_key(q)
        &&& forall|w: usize, q: usize|
            #![trigger waits_on(self.waiting, w, q)]
            waits_on(self.waiting, w, q) && !draining.contains(q) ==> {
                &&& self.pending(q)
                &&& self.wakeups.contains_key(q)
                &&& self.wakeups[q].contains((self.waiting[w].conditions[q], w))
            }
    }

    /// The scheduler's invariant: the four sets are disjoint, a waiting
    /// process has gates left and waits only on processes that are ready,
    /// running or waiting themselves, and the wake-up lists mirror the gates.
    pub open spec fn wf(self) -> bool {
        self.consistent(Set::empty())
    }

    /// The gates of `block_for` on processes that have not finished.
    pub open spec fn remaining(self, block_for: Map<usize, Condition>) -> Map<usize, Condition> {
        Map::new(
            |q: usize| block_for.contains_key(q) && !self.finished.contains_key(q),
            |q: usize| block_for[q],
        )
    }

    /// One of the gates of `block_for` is on a process whose recorded
    /// outcome fails it.
    pub open spec fn rejects(self, block_for: Map<usize, Condition>) -> bool {
        exists|q: usize| blocked_by(block_for, self.finished, q)
    }

    /// The wake-up lists after `id` has been appended, with its gate, to the
    /// list of each predecessor in `gates`.
    pub open spec fn wakeups_with(self, id: usize, gates: Map<usize, Condition>) -> Map<
        usize,
        Seq<(Condition, usize)>,
    > {
        Map::new(
            |q: usize| self.wakeups.contains_key(q) || gates.contains_key(q),
            |q: usize|
                {
                    let base = if self.wakeups.contains_key(q) {
                        self.wakeups[q]
                    } else {
                        Seq::empty()
                    };
                    if gates.contains_key(q) {
                        base.push((gates[q], id))
                    } else {
                        base
                    }
                },
        )
    }

    /// The state after `id` has been enqueued behind the gates `block_for`.
    /// Where a predecessor has already failed its gate, nothing changes.
    /// Where every predecessor has already passed its gate, `id` is ready.
    /// Otherwise `id` waits on the predecessors that have not finished.
    pub open spec fn enqueue(self, id: usize, cmd: Cmd, block_for: Map<usize, Condition>) -> Self {
        let rest = self.remaining(block_for);
        if self.rejects(block_for) {
            self
        } else if rest.is_empty() {
            MachineView { to_run: self.to_run.insert(id), ..self }
        } else {
            MachineView {
                waiting: self.waiting.insert(id, Gate { cmd, conditions: rest }),
                wakeups: self.wakeups_with(id, rest),
                ..self
            }
        }
    }

    /// The tasks that enqueuing `id` behind the gates `block_for` gives.
    pub open spec fn enqueue_tasks(
        self,
        id: usize,
        cmd: Cmd,
        block_for: Map<usize, Condition>,
    ) -> Seq<Task<usize, Cmd>> {
        if self.rejects(block_for) {
            seq![Task::ConditionFailed(id, cmd)]
        } else if self.remaining(block_for).is_empty() {
            seq![Task::Start(id, cmd)]
        } else {
            Seq::empty()
        }
    }

    /// The state in which `pid`, ready or running so far, is recorded as
    /// finished with `status`, before its dependents are looked at.
    pub open spec fn record(self, pid: usize, status: ExitStatus) -> Self {
        MachineView {
            finished: self.finished.insert(pid, status),
            to_run: self.to_run.remove(pid),
            running: self.running.remove(pid),
            ..self
        }
    }

    /// The state with nothing in it.
    pub open spec fn empty() -> Self {
        MachineView {
            finished: Map::empty(),
            to_run: Set::empty(),
            running: Map::empty(),
            waiting: Map::empty(),
            wakeups: Map::empty(),
        }
    }
}

/// A gate on `q` that `q`'s recorded outcome fails.
pub open spec fn blocked_by(
    conditions: Map<usize, Condition>,
    finished: Map<usize, ExitStatus>,
    q: usize,
) -> bool {
    conditions.contains_key(q) && finished.contains_key(q) && !satisfies(
        conditions[q],
        finished[q],
    )
}

/// Every gate is on a process that has finished with an outcome that passes it.
pub open spec fn cleared(conditions: Map<usize, Condition>, finished: Map<usize, ExitStatus>) -> bool {
    forall|q: usize|
        #![trigger conditions.contains_key(q)]
        conditions.contains_key(q) ==> finished.contains_key(q) && satisfies(
            conditions[q],
            finished[q],
        )
}

/// `w` still waits in `b`, with the command it had in `a` and with those of
/// its gates that have not cleared. A gate that is gone was on `root` or on a
/// process that waited in `a`, and that process has finished with an outcome
/// that passes it.
pub open spec fn still_waiting<Cmd, State>(
    a: MachineView<Cmd, State>,
    b: MachineView<Cmd, State>,
    w: usize,
    root: usize,
) -> bool {
    &&& a.waiting.contains_key(w)
    &&& b.waiting[w].cmd == a.waiting[w].cmd
    &&& forall|q: usize|
        #![trigger b.waiting[w].conditions.contains_key(q)]
        b.waiting[w].conditions.contains_key(q) ==> a.waiting[w].conditions.contains_key(q)
            && a.waiting[w].conditions[q] == b.waiting[w].conditions[q]
    &&& forall|q: usize|
        #![trigger a.waiting[w].conditions.contains_key(q)]
        a.waiting[w].conditions.contains_key(q) && !b.waiting[w].conditions.contains_key(q) ==> {
            &&& b.finished.contains_key(q)
            &&& satisfies(a.waiting[w].conditions[q], b.finished[q])
            &&& (q == root || a.waiting.contains_key(q))
        }
}

/// What resolving the completion of `root` may change between the state `a`,
/// in which `root` is already recorded as finished, and the state `b`.
///
/// Outcomes once recorded stay. A process finishes on the way only by being
/// given up: it waited in `a`, is recorded as failed, and one of the gates it
/// had in `a` is failed by the outcome of its predecessor. A process becomes
/// ready on the way only by being released: it waited in `a`, and each gate
/// it had in `a` is passed by the outcome of its predecessor. Every other
/// process that waited in `a` still waits. Nothing else moves.
pub open spec fn advances<Cmd, State>(
    a: MachineView<Cmd, State>,
    b: MachineView<Cmd, State>,
    root: usize,
) -> bool {
    &&& b.running == a.running
    &&& forall|f: usize|
        #![trigger a.finished.contains_key(f)]
        a.finished.contains_key(f) ==> b.finished.contains_key(f) && b.finished[f]
            == a.finished[f]
    &&& forall|f: usize|
        #![trigger b.finished.contains_key(f)]
        b.finished.contains_key(f) && !a.finished.contains_key(f) ==> {
            &&& a.waiting.contains_key(f)
            &&& b.finished[f] == ExitStatus::Failure
            &&& exists|q: usize| blocked_by(a.waiting[f].conditions, b.finished, q)
        }
    &&& forall|t: usize| #![trigger a.to_run.contains(t)] a.to_run.contains(t) ==> b.to_run.contains(t)
    &&& forall|t: usize|
        #![trigger b.to_run.contains(t)]
        b.to_run.contains(t) && !a.to_run.contains(t) ==> a.waiting.contains_key(t) && cleared(
            a.waiting[t].conditions,
            b.finished,
        )
    &&& forall|w: usize|
        #![trigger b.waiting.contains_key(w)]
        b.waiting.contains_key(w) ==> still_waiting(a, b, w, root)
    &&& forall|w: usize|
        #![trigger a.waiting.contains_key(w)]
        a.waiting.contains_key(w) ==> b.waiting.contains_key(w) || b.to_run.contains(w)
            || b.finished.contains_key(w)
}

/// The tasks that go with a change from `a` to `b`: one `Start` for each
/// process that was released, one `ConditionFailed` for each process that was
/// given up, each with the command the process was enqueued with, and no
/// other task.
pub open spec fn tasks_match<Cmd, State>(
    a: MachineView<Cmd, State>,
    b: MachineView<Cmd, State>,
    tasks: Seq<Task<usize, Cmd>>,
) -> bool {
    &&& forall|i: int|
        0 <= i < tasks.len() ==> {
            let t = #[trigger] tasks[i];
            &&& a.waiting.contains_key(t.id())
            &&& t.cmd() == a.waiting[t.id()].cmd
            &&& t is Start ==> b.to_run.contains(t.id())
            &&& t is ConditionFailed ==> b.finished.contains_key(t.id())
        }
    &&& forall|w: usize|
        #![trigger a.waiting.contains_key(w)]
        a.waiting.contains_key(w) && b.to_run.contains(w) ==> tasks.contains(
            Task::Start(w, a.waiting[w].cmd),
        )
    &&& forall|w: usize|
        #![trigger a.waiting.contains_key(w)]
        a.waiting.contains_key(w) && b.finished.contains_key(w) ==> tasks.contains(
            Task::ConditionFailed(w, a.waiting[w].cmd),
        )
    &&& forall|i: int, j: int|
        0 <= i < j < tasks.len() ==> (#[trigger] tasks[i]).id() != (#[trigger] tasks[j]).id()
}

/// Two resolution steps in a row are one.
pub proof fn lemma_advances_twice<Cmd, State>(
    a: MachineView<Cmd, State>,
    m: MachineView<Cmd, State>,
    b: MachineView<Cmd, State>,
    first: usize,
    second: usize,
    root: usize,
)
    requires
        advances(a, m, first),
        advances(m, b, second),
        first == root || a.waiting.contains_key(first),
        second == root || a.waiting.contains_key(second),
    ensures
        advances(a, b, root),
{
    assert forall|f: usize|
        #![trigger b.finished.contains_key(f)]
        b.finished.contains_key(f) && !a.finished.contains_key(f) implies {
        &&& a.waiting.contains_key(f)
        &&& b.finished[f] == ExitStatus::Failure
        &&& exists|q: usize| blocked_by(a.waiting[f].conditions, b.finished, q)
    } by {
        if m.finished.contains_key(f) {
            let q = choose|q: usize| blocked_by(a.waiting[f].conditions, m.finished, q);
            assert(blocked_by(a.waiting[f].conditions, b.finished, q));
        } else {
            assert(m.waiting.contains_key(f));
            assert(still_waiting(a, m, f, first));
            let q = choose|q: usize| blocked_by(m.waiting[f].conditions, b.finished, q);
            assert(blocked_by(a.waiting[f].conditions, b.finished, q));
        }
    }
    assert forall|t: usize|
        #![trigger b.to_run.contains(t)]
        b.to_run.contains(t) && !a.to_run.contains(t) implies a.waiting.contains_key(t) && cleared(
        a.waiting[t].conditions,
        b.finished,
    ) by {
        if m.to_run.contains(t) {
            assert(cleared(a.waiting[t].conditions, m.finished));
        } else {
            assert(m.waiting.contains_key(t));
            assert(still_waiting(a, m, t, first));
            assert(cleared(m.waiting[t].conditions, b.finished));
            assert forall|q: usize|
                #![trigger a.waiting[t].conditions.contains_key(q)]
                a.waiting[t].conditions.contains_key(q) implies b.finished.contains_key(q)
                && satisfies(a.waiting[t].conditions[q], b.finished[q]) by {
                if m.waiting[t].conditions.contains_key(q) {
                } else {
                    assert(m.finished.contains_key(q));
                }
            }
        }
    }
    assert forall|w: usize|
        #![trigger b.waiting.contains_key(w)]
        b.waiting.contains_key(w) implies still_waiting(a, b, w, root) by {
        assert(still_waiting(m, b, w, second));
        assert(m.waiting.contains_key(w));
        assert(still_waiting(a, m, w, first));
        assert forall|q: usize|
            #![trigger a.waiting[w].conditions.contains_key(q)]
            a.waiting[w].conditions.contains_key(q) && !b.waiting[w].conditions.contains_key(
                q,
            ) implies {
            &&& b.finished.contains_key(q)
            &&& satisfies(a.waiting[w].conditions[q], b.finished[q])
            &&& (q == root || a.waiting.contains_key(q))
        } by {
            if m.waiting[w].conditions.contains_key(q) {
                if m.waiting.contains_key(q) {
                    assert(still_waiting(a, m, q, first));
                }
            } else {
                assert(m.finished.contains_key(q));
            }
        }
    }
    assert forall|w: usize|
        #![trigger a.waiting.contains_key(w)]
        a.waiting.contains_key(w) implies b.waiting.contains_key(w) || b.to_run.contains(w)
        || b.finished.contains_key(w) by {
        if m.waiting.contains_key(w) {
        } else if m.to_run.contains(w) {
        } else {
            assert(m.finished.contains_key(w));
        }
    }
}

/// The tasks of two resolution steps in a row are those of the one step.
pub proof fn lemma_tasks_twice<Cmd, State>(
    a: MachineView<Cmd, State>,
    m: MachineView<Cmd, State>,
    b: MachineView<Cmd, State>,
    first: usize,
    second: usize,
    head: Seq<Task<usize, Cmd>>,
    tail: Seq<Task<usize, Cmd>>,
)
    requires
        advances(a, m, first),
        advances(m, b, second),
        tasks_match(a, m, head),
        tasks_match(m, b, tail),
        m.disjoint(),
        b.disjoint(),
    ensures
        tasks_match(a, b, head + tail),
{
    let all = head + tail;
    assert forall|i: int| 0 <= i < all.len() implies {
        let t = #[trigger] all[i];
        &&& a.waiting.contains_key(t.id())
        &&& t.cmd() == a.waiting[t.id()].cmd
        &&& t is Start ==> b.to_run.contains(t.id())
        &&& t is ConditionFailed ==> b.finished.contains_key(t.id())
    } by {
        if i < head.len() {
            assert(all[i] == head[i]);
            let t = head[i];
            assert(a.waiting.contains_key(t.id()));
            if t is Start {
                assert(m.to_run.contains(t.id()));
            } else {
                assert(m.finished.contains_key(t.id()));
            }
        } else {
            assert(all[i] == tail[i - head.len()]);
            let t = tail[i - head.len()];
            assert(m.waiting.contains_key(t.id()));
            assert(still_waiting(a, m, t.id(), first));
        }
    }
    assert forall|w: usize|
        #![trigger a.waiting.contains_key(w)]
        a.waiting.contains_key(w) && b.to_run.contains(w) implies all.contains(
        Task::Start(w, a.waiting[w].cmd),
    ) by {
        if m.to_run.contains(w) {
            let k = choose|k: int| 0 <= k < head.len() && head[k] == Task::Start(w, a.waiting[w].cmd);
            assert(all[k] == head[k]);
        } else if m.waiting.contains_key(w) {
            assert(still_waiting(a, m, w, first));
            let t = Task::Start(w, m.waiting[w].cmd);
            assert(tail.contains(t));
            let k = choose|k: int| 0 <= k < tail.len() && tail[k] == t;
            assert(all[head.len() + k] == tail[k]);
        } else {
            assert(m.finished.contains_key(w));
            assert(b.finished.contains_key(w));
        }
    }
    assert forall|w: usize|
        #![trigger a.waiting.contains_key(w)]
        a.waiting.contains_key(w) && b.finished.contains_key(w) implies all.contains(
        Task::ConditionFailed(w, a.waiting[w].cmd),
    ) by {
        if m.finished.contains_key(w) {
            let k = choose|k: int|
                0 <= k < head.len() && head[k] == Task::ConditionFailed(w, a.waiting[w].cmd);
            assert(all[k] == head[k]);
        } else if m.waiting.contains_key(w) {
            assert(still_waiting(a, m, w, first));
            let t = Task::ConditionFailed(w, m.waiting[w].cmd);
            assert(tail.contains(t));
            let k = choose|k: int| 0 <= k < tail.len() && tail[k] == t;
            assert(all[head.len() + k] == tail[k]);
        } else {
            assert(m.to_run.contains(w));
            assert(b.to_run.contains(w));
        }
    }
    assert forall|i: int, j: int| 0 <= i < j < all.len() implies (#[trigger] all[i]).id() != (
    #[trigger] all[j]).id() by {
        if j < head.len() {
            assert(all[i] == head[i] && all[j] == head[j]);
        } else if i >= head.len() {
            assert(all[i] == tail[i - head.len()] && all[j] == tail[j - head.len()]);
        } else {
            assert(all[i] == head[i] && all[j] == tail[j - head.len()]);
            let t = head[i];
            let u = tail[j - head.len()];
            assert(m.waiting.contains_key(u.id()));
            if t is Start {
                assert(m.to_run.contains(t.id()));
            } else {
                assert(m.finished.contains_key(t.id()));
            }
        }
    }
}

/// Between `cur` and `next` no process has begun to wait and no gate has
/// been added; `w` no longer waits on `pid`, and every other process that
/// still waits has kept its gate on `pid`.
pub open spec fn narrowed<Cmd>(
    cur: Map<usize, Gate<Cmd>>,
    next: Map<usize, Gate<Cmd>>,
    pid: usize,
    w: usize,
) -> bool {
    &&& !waits_on(next, w, pid)
    &&& forall|v: usize, q: usize|
        #![trigger waits_on(next, v, q)]
        waits_on(next, v, q) ==> waits_on(cur, v, q) && cur[v].conditions[q]
            == next[v].conditions[q]
    &&& forall|v: usize|
        #![trigger next.contains_key(v)]
        next.contains_key(v) && v != w && waits_on(cur, v, pid) ==> waits_on(next, v, pid)
}

/// The processes that are ready in `b` and were not in `a` are exactly those
/// that waited in `a` and have each gate they had in `a` passed by an outcome
/// recorded in `b`.
pub open spec fn newly_ready<Cmd, State>(a: MachineView<Cmd, State>, b: MachineView<Cmd, State>) -> bool {
    forall|w: usize|
        #![trigger b.to_run.contains(w)]
        #![trigger a.waiting.contains_key(w)]
        (b.to_run.contains(w) && !a.to_run.contains(w)) <==> (a.waiting.contains_key(w) && cleared(
            a.waiting[w].conditions,
            b.finished,
        ))
}

/// Recording the outcome of a process that is ready or running leaves a
/// state in which only that process's wake-up list is still to be worked off.
pub proof fn lemma_recorded<Cmd, State>(a: MachineView<Cmd, State>, pid: usize, status: ExitStatus)
    requires
        a.wf(),
        a.to_run.contains(pid) || a.running.contains_key(pid),
    ensures
        a.record(pid, status).consistent(Set::empty().insert(pid)),
        listed(a.record(pid, status).waiting, a.record(pid, status).wakeups, pid),
{
    let m = a.record(pid, status);
    assert forall|w: usize, q: usize|
        #![trigger waits_on(m.waiting, w, q)]
        waits_on(m.waiting, w, q) && q != pid implies m.pending(q) by {
        assert(a.pending(q));
    }
}

/// When a process that was ready or running ends, the processes that become
/// ready are exactly those that waited and now have every gate passed by a
/// recorded outcome.
pub proof fn lemma_newly_ready<Cmd, State>(
    a: MachineView<Cmd, State>,
    b: MachineView<Cmd, State>,
    pid: usize,
    status: ExitStatus,
)
    requires
        a.wf(),
        a.to_run.contains(pid) || a.running.contains_key(pid),
        advances(a.record(pid, status), b, pid),
        b.wf(),
    ensures
        newly_ready(a, b),
{
    let m = a.record(pid, status);
    assert forall|w: usize|
        #![trigger b.to_run.contains(w)]
        #![trigger a.waiting.contains_key(w)]
        (b.to_run.contains(w) && !a.to_run.contains(w)) <==> (a.waiting.contains_key(w) && cleared(
            a.waiting[w].conditions,
            b.finished,
        )) by {
        if b.to_run.contains(w) && !a.to_run.contains(w) {
            assert(!m.to_run.contains(w));
        }
        if a.waiting.contains_key(w) && cleared(a.waiting[w].conditions, b.finished) {
            assert(m.waiting.contains_key(w));
            if b.waiting.contains_key(w) {
                assert(still_waiting(m, b, w, pid));
                let q = choose|q: usize| waits_on(b.waiting, w, q);
                assert(waits_on(b.waiting, w, q));
                assert(b.pending(q));
                assert(a.waiting[w].conditions.contains_key(q));
                assert(b.finished.contains_key(q));
            } else if b.finished.contains_key(w) {
                assert(!m.finished.contains_key(w));
                let q = choose|q: usize| blocked_by(m.waiting[w].conditions, b.finished, q);
                assert(a.waiting[w].conditions.contains_key(q));
            }
        }
    }
}

/// Enqueuing a process that the scheduler does not know, behind
/// predecessors that it knows, keeps the scheduler's invariant.
pub proof fn lemma_enqueue_keeps_wf<Cmd, State>(
    a: MachineView<Cmd, State>,
    id: usize,
    cmd: Cmd,
    block_for: Map<usize, Condition>,
)
    requires
        a.wf(),
        !a.knows(id),
        forall|q: usize| block_for.contains_key(q) ==> a.knows(q),
    ensures
        a.enqueue(id, cmd, block_for).wf(),
{
    let b = a.enqueue(id, cmd, block_for);
    let rest = a.remaining(block_for);
    if a.rejects(block_for) {
    } else if rest.is_empty() {
        assert forall|w: usize, q: usize|
            #![trigger waits_on(b.waiting, w, q)]
            waits_on(b.waiting, w, q) implies b.pending(q) by {
            assert(waits_on(a.waiting, w, q));
            assert(a.pending(q));
        }
    } else {
        assert forall|w: usize|
            #![trigger b.waiting.contains_key(w)]
            b.waiting.contains_key(w) implies exists|q: usize| waits_on(b.waiting, w, q) by {
            if w == id {
                assert(!rest.dom().is_empty());
                let q = choose|q: usize| rest.dom().contains(q);
                assert(waits_on(b.waiting, w, q));
            } else {
                let q = choose|q: usize| waits_on(a.waiting, w, q);
                assert(waits_on(b.waiting, w, q));
            }
        }
        assert forall|q: usize, i: int|
            b.wakeups.contains_key(q) && 0 <= i < b.wakeups[q].len() implies {
            let entry = #[trigger] b.wakeups[q][i];
            waits_on(b.waiting, entry.1, q) && b.waiting[entry.1].conditions[q] == entry.0
        } by {
            if a.wakeups.contains_key(q) && i < a.wakeups[q].len() {
                let entry = a.wakeups[q][i];
                assert(waits_on(a.waiting, entry.1, q));
            }
        }
        assert forall|q: usize| #![trigger b.wakeups[q]] b.wakeups.contains_key(q) implies distinct_dependents(
            b.wakeups[q],
        ) by {
            if a.wakeups.contains_key(q) {
                assert(distinct_dependents(a.wakeups[q]));
                assert forall|i: int| 0 <= i < a.wakeups[q].len() implies (
                #[trigger] a.wakeups[q][i]).1 != id by {
                    assert(waits_on(a.waiting, a.wakeups[q][i].1, q));
                }
            }
        }
        assert forall|w: usize, q: usize|
            #![trigger waits_on(b.waiting, w, q)]
            waits_on(b.waiting, w, q) implies {
            &&& b.pending(q)
            &&& b.wakeups.contains_key(q)
            &&& b.wakeups[q].contains((b.waiting[w].conditions[q], w))
        } by {
            if w == id {
                assert(a.knows(q));
                let list = b.wakeups[q];
                assert(list[list.len() - 1] == (rest[q], id));
            } else {
                assert(waits_on(a.waiting, w, q));
                let e = (a.waiting[w].conditions[q], w);
                assert(a.wakeups[q].contains(e));
                let k = choose|k: int| 0 <= k < a.wakeups[q].len() && a.wakeups[q][k] == e;
                assert(b.wakeups[q][k] == e);
            }
        }
    }
}

/// A process enqueued behind predecessors that have all finished with
/// outcomes that pass their gates is started at once: the one task is
/// `Start`, the process is ready, and nothing else changes.
pub proof fn lemma_enqueue_all_cleared<Cmd, State>(
    a: MachineView<Cmd, State>,
    id: usize,
    cmd: Cmd,
    block_for: Map<usize, Condition>,
)
    requires
        a.wf(),
        !a.knows(id),
        cleared(block_for, a.finished),
    ensures
        a.enqueue_tasks(id, cmd, block_for) == seq![Task::Start(id, cmd)],
        a.enqueue(id, cmd, block_for) == (MachineView { to_run: a.to_run.insert(id), ..a }),
        a.enqueue(id, cmd, block_for).wf(),
{
    assert(a.remaining(block_for) =~= Map::empty());
    lemma_enqueue_keeps_wf(a, id, cmd, block_for);
}

/// `q` is the predecessor of one of the first `n` gates.
pub open spec fn among(gates: Seq<(usize, Condition)>, n: int, q: usize) -> bool {
    exists|k: int| 0 <= k < n && (#[trigger] gates[k]).0 == q
}

proof fn lemma_among_step(gates: Seq<(usize, Condition)>, n: int, q: usize)
    requires
        0 <= n < gates.len(),
    ensures
        among(gates, n + 1, q) == (among(gates, n, q) || gates[n].0 == q),
{
    if among(gates, n, q) {
        let k = choose|k: int| 0 <= k < n && (#[trigger] gates[k]).0 == q;
        assert(0 <= k < n + 1 && gates[k].0 == q);
    }
    if gates[n].0 == q {
        assert(0 <= n < n + 1 && gates[n].0 == q);
    }
}

/// The entries of a wake-up list that do not name `w`.
pub open spec fn not_about(w: usize) -> spec_fn((Condition, usize)) -> bool {
    |e: (Condition, usize)| e.1 != w
}

impl<Cmd, State> MachineView<Cmd, State> {
    /// The state in which the waiting process `w` has been given up: it is
    /// recorded as failed, and it is taken out of the wake-up lists of its
    /// predecessors.
    pub open spec fn give_up(self, w: usize) -> Self {
        MachineView {
            finished: self.finished.insert(w, ExitStatus::Failure),
            waiting: self.waiting.remove(w),
            wakeups: Map::new(
                |q: usize| self.wakeups.contains_key(q),
                |q: usize|
                    if self.waiting[w].conditions.contains_key(q) {
                        self.wakeups[q].filter(not_about(w))
                    } else {
                        self.wakeups[q]
                    },
            ),
            ..self
        }
    }

    /// The state in which the last gate of the waiting process `w` has
    /// cleared: it is ready.
    pub open spec fn release(self, w: usize) -> Self {
        MachineView { to_run: self.to_run.insert(w), waiting: self.waiting.remove(w), ..self }
    }

    /// The state in which what the waiting process `w` asked of `pid` has
    /// cleared and others are left.
    pub open spec fn clear_gate(self, w: usize, pid: usize) -> Self {
        MachineView {
            waiting: self.waiting.insert(
                w,
                Gate {
                    cmd: self.waiting[w].cmd,
                    conditions: self.waiting[w].conditions.remove(pid),
                },
            ),
            ..self
        }
    }

    /// Works off the wake-up list `list` of `pid`, which has finished with
    /// `status`, from its entry `i` on, and gives the state it leaves and
    /// the tasks that come of it, in order.
    ///
    /// An entry for a process that no longer waits is passed over. A
    /// process whose gate on `pid` fails is given up: its task is
    /// `ConditionFailed`, and its own wake-up list is worked off at once,
    /// before the next entry of `list`. A process whose gate clears is
    /// released with the task `Start` where it was its last gate.
    ///
    /// `depth` bounds how deep giving up may cascade; the number of waiting
    /// processes is always enough.
    pub open spec fn settle(
        self,
        pid: usize,
        status: ExitStatus,
        list: Seq<(Condition, usize)>,
        i: int,
        depth: nat,
    ) -> (Self, Seq<Task<usize, Cmd>>)
        decreases depth, 0int, list.len() - i,
    {
        if i < 0 || i >= list.len() {
            (self, Seq::empty())
        } else {
            let cond = list[i].0;
            let w = list[i].1;
            if !self.waiting.contains_key(w) {
                self.settle(pid, status, list, i + 1, depth)
            } else if satisfies(cond, status) {
                if self.waiting[w].conditions.remove(pid) =~= Map::empty() {
                    let rest = self.release(w).settle(pid, status, list, i + 1, depth);
                    (rest.0, seq![Task::Start(w, self.waiting[w].cmd)] + rest.1)
                } else {
                    self.clear_gate(w, pid).settle(pid, status, list, i + 1, depth)
                }
            } else if depth == 0 {
                (self.give_up(w), seq![Task::ConditionFailed(w, self.waiting[w].cmd)])
            } else {
                let inner = self.give_up(w).resolve(w, ExitStatus::Failure, (depth - 1) as nat);
                let rest = inner.0.settle(pid, status, list, i + 1, depth);
                (rest.0, seq![Task::ConditionFailed(w, self.waiting[w].cmd)] + inner.1 + rest.1)
            }
        }
    }

    /// Resolves the dependents of `pid`, which is recorded as finished with
    /// `status`: takes its wake-up list off the books and works it off.
    pub open spec fn resolve(self, pid: usize, status: ExitStatus, depth: nat) -> (
        Self,
        Seq<Task<usize, Cmd>>,
    )
        decreases depth, 1int, 0int,
    {
        if self.wakeups.contains_key(pid) {
            (MachineView { wakeups: self.wakeups.remove(pid), ..self }).settle(
                pid,
                status,
                self.wakeups[pid],
                0,
                depth,
            )
        } else {
            (self, Seq::empty())
        }
    }

    /// The state after `pid`, ready or running so far, has ended with
    /// `status`, and the tasks that its end gives, in order.
    pub open spec fn complete(self, pid: usize, status: ExitStatus) -> (Self, Seq<Task<usize, Cmd>>) {
        self.record(pid, status).resolve(pid, status, self.waiting.dom().len())
    }
}

/// `after` is `before` without the entries that name `w`.
pub open spec fn erased(
    before: Seq<(Condition, usize)>,
    after: Seq<(Condition, usize)>,
    w: usize,
) -> bool {
    &&& forall|k: int|
        0 <= k < after.len() ==> (#[trigger] after[k]).1 != w && before.contains(after[k])
    &&& forall|k: int|
        0 <= k < before.len() && (#[trigger] before[k]).1 != w ==> after.contains(before[k])
    &&& forall|i: int, j: int|
        0 <= i < j < after.len() ==> (#[trigger] after[i]).1 != (#[trigger] after[j]).1
}

/// No entry of the list names a process twice.
pub open spec fn distinct_dependents(list: Seq<(Condition, usize)>) -> bool {
    forall|i: int, j: int|
        0 <= i < j < list.len() ==> (#[trigger] list[i]).1 != (#[trigger] list[j]).1
}

/// A wake-up list without its entries for `w`, the others in their order.
fn without_dependent(list: &Vec<(Condition, usize)>, w: usize) -> (kept: Vec<(Condition, usize)>)
    requires
        distinct_dependents(list@),
    ensures
        erased(list@, kept@, w),
        kept@ == list@.filter(not_about(w)),
{
    let mut kept: Vec<(Condition, usize)> = Vec::new();
    let mut i: usize = 0;
    proof {
        assert(list@.take(0).filter(not_about(w)) =~= Seq::empty()) by {
            reveal(Seq::filter);
        }
    }
    while i < list.len()
        invariant
            0 <= i <= list.len(),
            distinct_dependents(list@),
            kept@ == list@.take(i as int).filter(not_about(w)),
            forall|k: int|
                0 <= k < kept@.len() ==> (#[trigger] kept@[k]).1 != w && exists|j: int|
                    0 <= j < i && list@[j] == kept@[k],
            forall|j: int|
                0 <= j < i && (#[trigger] list@[j]).1 != w ==> kept@.contains(list@[j]),
            distinct_dependents(kept@),
        decreases list.len() - i,
    {
        let entry = list[i];
        proof {
            assert(list@.take(i + 1).drop_last() =~= list@.take(i as int));
            assert(list@.take(i + 1).last() == entry);
            reveal(Seq::filter);
        }
        if entry.1 != w {
            let ghost before = kept@;
            kept.push(entry);
            assert forall|j: int|
                0 <= j < i + 1 && (#[trigger] list@[j]).1 != w implies kept@.contains(
                list@[j],
            ) by {
                if j < i {
                    let k = choose|k: int| 0 <= k < before.len() && before[k] == list@[j];
                    assert(kept@[k] == list@[j]);
                } else {
                    assert(kept@[before.len() as int] == list@[j]);
                }
            }
            assert forall|a: int, b: int| 0 <= a < b < kept@.len() implies (#[trigger] kept@[a]).1
                != (#[trigger] kept@[b]).1 by {
                if b == before.len() {
                    assert(kept@[a] == before[a]);
                    let j = choose|j: int| 0 <= j < i && list@[j] == before[a];
                    assert(list@[j].1 != list@[i as int].1);
                } else {
                    assert(kept@[a] == before[a] && kept@[b] == before[b]);
                }
            }
            assert forall|k: int| 0 <= k < kept@.len() implies (#[trigger] kept@[k]).1 != w
                && exists|j: int| 0 <= j < i + 1 && list@[j] == kept@[k] by {
                if k < before.len() {
                    assert(kept@[k] == before[k]);
                    let j = choose|j: int| 0 <= j < i && list@[j] == before[k];
                    assert(list@[j] == kept@[k]);
                } else {
                    assert(list@[i as int] == kept@[k]);
                }
            }
        }
        i += 1;
    }
    assert forall|k: int| 0 <= k < kept@.len() implies (#[trigger] kept@[k]).1 != w
        && list@.contains(kept@[k]) by {
        let j = choose|j: int| 0 <= j < i && list@[j] == kept@[k];
        assert(list@[j] == kept@[k]);
    }
    assert(list@.take(i as int) =~= list@);
    kept
}

impl<Cmd, State> View for Machine<Cmd, State> {
    type V = MachineView<Cmd, State>;

    closed spec fn view(&self) -> MachineView<Cmd, State> {
        MachineView {
            finished: self.finished@,
            to_run: self.to_run@,
            running: self.running@,
            waiting: Map::new(
                |w: usize| self.waiting_on@.contains_key(w),
                |w: usize|
                    Gate {
                        cmd: self.waiting_on@[w].cmd,
                        conditions: self.waiting_on@[w].conditions@,
                    },
            ),
            wakeups: Map::new(
                |q: usize| self.check_on_completed@.contains_key(q),
                |q: usize| self.check_on_completed@[q]@,
            ),
        }
    }
}

impl<Cmd, State> Machine<Cmd, State> {
    /// A scheduler that knows no process.
    pub fn new() -> (m: Machine<Cmd, State>)
        ensures
            m@ =~= MachineView::empty(),
            m@.wf(),
    {
        let m = Machine {
            finished: HashMap::new(),
            to_run: HashSet::new(),
            running: HashMap::new(),
            check_on_completed: HashMap::new(),
            waiting_on: HashMap::new(),
        };
        assert(m@.waiting =~= Map::empty());
        assert(m@.wakeups =~= Map::empty());
        m
    }

    /// The set that a process is in.
    pub fn place(&self, pid: usize) -> (place: Place)
        requires
            self@.wf(),
        ensures
            place == self@.place(pid),
    {
        if self.finished.contains_key(&pid) {
            Place::Finished
        } else if self.to_run.contains(&pid) {
            Place::Ready
        } else if self.running.contains_key(&pid) {
            Place::Running
        } else if self.waiting_on.contains_key(&pid) {
            Place::Waiting
        } else {
            Place::Unknown
        }
    }

    /// Where a started process stands: its driver state while it runs, its
    /// outcome once it has finished.
    pub fn status<'a>(&'a self, pid: usize) -> (status: Status<'a, State>)
        requires
            self@.running.contains_key(pid) || self@.finished.contains_key(pid),
        ensures
            match status {
                Status::Running(state) => self@.running.contains_key(pid) && *state
                    == self@.running[pid],
                Status::Exited(exit) => !self@.running.contains_key(pid)
                    && self@.finished.contains_key(pid) && exit == self@.finished[pid],
            },
    {
        match self.running.get(&pid) {
            Some(state) => Status::Running(state),
            None => Status::Exited(*self.finished.get(&pid).unwrap()),
        }
    }

    /// Takes in the process `new_pid`, which is to run `cmd` once each of the
    /// predecessors in `block_for` has finished with an outcome that passes
    /// its gate.
    ///
    /// Where a predecessor has already finished with an outcome that fails
    /// its gate, the process is turned away: the one task is
    /// `ConditionFailed`, and the scheduler does not remember the process.
    /// Where every predecessor has already passed its gate, the process is
    /// ready and the one task is `Start`. Otherwise the process waits and
    /// there is no task.
    pub fn enqueue(&mut self, new_pid: usize, cmd: Cmd, block_for: HashMap<usize, Condition>) -> (tasks:
        Vec<Task<usize, Cmd>>)
        requires
            old(self)@.wf(),
            !old(self)@.knows(new_pid),
            forall|q: usize| block_for@.contains_key(q) ==> old(self)@.knows(q),
        ensures
            final(self)@.wf(),
            final(self)@ == old(self)@.enqueue(new_pid, cmd, block_for@),
            tasks@ == old(self)@.enqueue_tasks(new_pid, cmd, block_for@),
            cleared(block_for@, old(self)@.finished) ==> tasks@ == seq![Task::Start(new_pid, cmd)],
    {
        let ghost a = self@;
        proof {
            lemma_enqueue_keeps_wf(a, new_pid, cmd, block_for@);
        }
        let gates = pairs_of(&block_for);
        let mut still: HashMap<usize, Condition> = HashMap::new();
        let mut i: usize = 0;
        while i < gates.len()
            invariant
                0 <= i <= gates.len(),
                self@ == a,
                a.wf(),
                forall|k: int|
                    0 <= k < gates@.len() ==> block_for@.contains_key((#[trigger] gates@[k]).0)
                        && block_for@[gates@[k].0] == gates@[k].1,
                forall|k: int|
                    0 <= k < i ==> !blocked_by(block_for@, a.finished, (#[trigger] gates@[k]).0),
                forall|q: usize|
                    still@.contains_key(q) <==> !a.finished.contains_key(q) && among(gates@, i as int, q),
                forall|q: usize| still@.contains_key(q) ==> still@[q] == block_for@[q],
            decreases gates.len() - i,
        {
            let (q, cond) = gates[i];
            proof {
                assert(gates@[i as int] == (q, cond));
                assert forall|p: usize| among(gates@, i + 1, p) == (among(gates@, i as int, p)
                    || p == q) by {
                    lemma_among_step(gates@, i as int, p);
                }
            }
            match self.finished.get(&q) {
                Some(outcome) => {
                    if !condition_holds(cond, *outcome) {
                        let tasks = vec![Task::ConditionFailed(new_pid, cmd)];
                        proof {
                            assert(blocked_by(block_for@, a.finished, q));
                            assert(a.rejects(block_for@));
                            assert(tasks@ =~= seq![Task::ConditionFailed(new_pid, cmd)]);
                            if cleared(block_for@, a.finished) {
                                assert(block_for@.contains_key(q));
                            }
                        }
                        return tasks;
                    }
                },
                None => {
                    still.insert(q, cond);
                },
            }
            i += 1;
        }
        proof {
            assert(!a.rejects(block_for@)) by {
                if a.rejects(block_for@) {
                    let q = choose|q: usize| blocked_by(block_for@, a.finished, q);
                    let k = choose|k: int| 0 <= k < gates@.len() && (#[trigger] gates@[k]).0 == q;
                    assert(!blocked_by(block_for@, a.finished, gates@[k].0));
                }
            }
            assert forall|q: usize| still@.contains_key(q) == a.remaining(block_for@).contains_key(
                q,
            ) by {
                if a.remaining(block_for@).contains_key(q) {
                    let k = choose|k: int| 0 <= k < gates@.len() && (#[trigger] gates@[k]).0 == q;
                    assert(0 <= k < i && gates@[k].0 == q);
                }
                if still@.contains_key(q) {
                    let k = choose|k: int| 0 <= k < i && (#[trigger] gates@[k]).0 == q;
                    assert(block_for@.contains_key(gates@[k].0));
                }
            }
            assert(still@ =~= a.remaining(block_for@));
            if cleared(block_for@, a.finished) {
                assert(a.remaining(block_for@) =~= Map::empty());
            }
        }
        if still.is_empty() {
            self.to_run.insert(new_pid);
            let tasks = vec![Task::Start(new_pid, cmd)];
            proof {
                assert(tasks@ =~= seq![Task::Start(new_pid, cmd)]);
                assert(self@.waiting =~= a.waiting);
                assert(self@.wakeups =~= a.wakeups);
                assert(self@ =~= a.enqueue(new_pid, cmd, block_for@));
            }
            tasks
        } else {
            let rest = pairs_of(&still);
            let ghost base = a.wakeups;
            let mut j: usize = 0;
            while j < rest.len()
                invariant
                    0 <= j <= rest.len(),
                    self.finished == old(self).finished,
                    self.to_run == old(self).to_run,
                    self.running == old(self).running,
                    self.waiting_on == old(self).waiting_on,
                    base == old(self)@.wakeups,
                    forall|k: int|
                        0 <= k < rest@.len() ==> still@.contains_key((#[trigger] rest@[k]).0)
                            && still@[rest@[k].0] == rest@[k].1,
                    forall|x: int, y: int|
                        0 <= x < y < rest@.len() ==> (#[trigger] rest@[x]).0 != (
                        #[trigger] rest@[y]).0,
                    forall|q: usize|
                        self@.wakeups.contains_key(q) <==> base.contains_key(q) || among(
                            rest@,
                            j as int,
                            q,
                        ),
                    forall|q: usize|
                        #![trigger self@.wakeups[q]]
                        self@.wakeups.contains_key(q) ==> self@.wakeups[q] == {
                            let start = if base.contains_key(q) {
                                base[q]
                            } else {
                                Seq::empty()
                            };
                            if among(rest@, j as int, q) {
                                start.push((still@[q], new_pid))
                            } else {
                                start
                            }
                        },
                decreases rest.len() - j,
            {
                let (q, cond) = rest[j];
                let ghost lists = self@.wakeups;
                proof {
                    assert(rest@[j as int] == (q, cond));
                    assert forall|p: usize| among(rest@, j + 1, p) == (among(rest@, j as int, p)
                        || p == q) by {
                        lemma_among_step(rest@, j as int, p);
                    }
                    if among(rest@, j as int, q) {
                        let k = choose|k: int| 0 <= k < j && (#[trigger] rest@[k]).0 == q;
                        assert(rest@[k].0 != rest@[j as int].0);
                    }
                }
                let mut list = match self.check_on_completed.remove(&q) {
                    Some(list) => list,
                    None => Vec::new(),
                };
                let ghost start = list@;
                list.push((cond, new_pid));
                self.check_on_completed.insert(q, list);
                proof {
                    let now = self@.wakeups;
                    assert(still@[q] == cond);
                    assert(start == if lists.contains_key(q) {
                        lists[q]
                    } else {
                        Seq::empty()
                    });
                    assert(now[q] == start.push((cond, new_pid)));
                    assert forall|p: usize| now.contains_key(p) <==> base.contains_key(p) || among(
                        rest@,
                        j + 1,
                        p,
                    ) by {
                        assert(now.contains_key(p) == (lists.contains_key(p) || p == q));
                    }
                    assert forall|p: usize| #![trigger now[p]] now.contains_key(p) implies now[p] == {
                        let start = if base.contains_key(p) {
                            base[p]
                        } else {
                            Seq::empty()
                        };
                        if among(rest@, j + 1, p) {
                            start.push((still@[p], new_pid))
                        } else {
                            start
                        }
                    } by {
                        if p != q {
                            assert(lists.contains_key(p));
                            assert(now[p] == lists[p]);
                        } else {
                            assert(lists.contains_key(q) == base.contains_key(q));
                        }
                    }
                }
                j += 1;
            }
            self.waiting_on.insert(new_pid, Waiting { cmd, conditions: still });
            proof {
                let b = self@;
                let want = a.enqueue(new_pid, cmd, block_for@);
                assert(b.waiting =~= want.waiting);
                assert forall|q: usize| still@.contains_key(q) == among(rest@, j as int, q) by {
                    if still@.contains_key(q) {
                        let k = choose|k: int| 0 <= k < rest@.len() && (#[trigger] rest@[k]).0 == q;
                        assert(0 <= k < j && rest@[k].0 == q);
                    }
                    if among(rest@, j as int, q) {
                        let k = choose|k: int| 0 <= k < j && (#[trigger] rest@[k]).0 == q;
                        assert(still@.contains_key(rest@[k].0));
                    }
                }
                assert(b.wakeups =~= want.wakeups);
                assert(b =~= want);
            }
            Vec::new()
        }
    }

    /// Records that a ready process has been started.
    pub fn start(&mut self, pid: usize, state: State)
        requires
            old(self)@.wf(),
            old(self)@.to_run.contains(pid),
        ensures
            final(self)@.wf(),
            final(self)@.to_run == old(self)@.to_run.remove(pid),
            final(self)@.running == old(self)@.running.insert(pid, state),
            final(self)@.finished == old(self)@.finished,
            final(self)@.waiting == old(self)@.waiting,
            final(self)@.wakeups == old(self)@.wakeups,
    {
        self.to_run.remove(&pid);
        self.running.insert(pid, state);
        proof {
            let a = old(self)@;
            let b = self@;
            assert(b.waiting =~= a.waiting);
            assert(b.wakeups =~= a.wakeups);
        }
    }

    /// Records that the ready process `pid` has ended at once with `status`,
    /// without ever running, and resolves its dependents.
    pub fn start_completed(&mut self, pid: usize, status: ExitStatus) -> (tasks: Vec<
        Task<usize, Cmd>,
    >)
        requires
            old(self)@.wf(),
            old(self)@.to_run.contains(pid),
        ensures
            final(self)@.wf(),
            final(self)@ == old(self)@.complete(pid, status).0,
            tasks@ == old(self)@.complete(pid, status).1,
            advances(old(self)@.record(pid, status), final(self)@, pid),
            tasks_match(old(self)@.record(pid, status), final(self)@, tasks@),
            newly_ready(old(self)@, final(self)@),
    {
        self.to_run.remove(&pid);
        self.finished.insert(pid, status);
        proof {
            let a = old(self)@;
            let m = self@;
            assert(m =~= a.record(pid, status));
            lemma_recorded(a, pid, status);
        }
        let ghost depth = old(self)@.waiting.dom().len();
        proof {
            assert(self.waiting_on@.dom() =~= old(self)@.waiting.dom());
        }
        let tasks = self.resolve_tasks(pid, status, Ghost(Set::empty()), Ghost(depth));
        proof {
            lemma_newly_ready(old(self)@, self@, pid, status);
        }
        tasks
    }

    /// Records that the running process `pid` has ended with `status`, and
    /// resolves its dependents.
    pub fn completed(&mut self, pid: usize, status: ExitStatus) -> (tasks: Vec<Task<usize, Cmd>>)
        requires
            old(self)@.wf(),
            old(self)@.running.contains_key(pid),
        ensures
            final(self)@.wf(),
            final(self)@ == old(self)@.complete(pid, status).0,
            tasks@ == old(self)@.complete(pid, status).1,
            advances(old(self)@.record(pid, status), final(self)@, pid),
            tasks_match(old(self)@.record(pid, status), final(self)@, tasks@),
            newly_ready(old(self)@, final(self)@),
    {
        self.running.remove(&pid);
        self.finished.insert(pid, status);
        proof {
            let a = old(self)@;
            let m = self@;
            assert(m =~= a.record(pid, status));
            lemma_recorded(a, pid, status);
        }
        let ghost depth = old(self)@.waiting.dom().len();
        proof {
            assert(self.waiting_on@.dom() =~= old(self)@.waiting.dom());
        }
        let tasks = self.resolve_tasks(pid, status, Ghost(Set::empty()), Ghost(depth));
        proof {
            lemma_newly_ready(old(self)@, self@, pid, status);
        }
        tasks
    }

    /// Takes `w` out of the wake-up lists of the predecessors in `conditions`.
    fn forget_dependent(&mut self, conditions: &HashMap<usize, Condition>, w: usize)
        requires
            forall|q: usize|
                #![trigger old(self).check_on_completed@[q]]
                old(self).check_on_completed@.contains_key(q) ==> distinct_dependents(
                    old(self).check_on_completed@[q]@,
                ),
        ensures
            final(self).finished == old(self).finished,
            final(self).to_run == old(self).to_run,
            final(self).running == old(self).running,
            final(self).waiting_on == old(self).waiting_on,
            forall|q: usize|
                final(self).check_on_completed@.contains_key(q) == old(self).check_on_completed@.contains_key(q),
            forall|q: usize|
                #![trigger final(self).check_on_completed@[q]]
                old(self).check_on_completed@.contains_key(q) ==> if conditions@.contains_key(q) {
                    erased(
                        old(self).check_on_completed@[q]@,
                        final(self).check_on_completed@[q]@,
                        w,
                    ) && final(self).check_on_completed@[q]@ == old(self).check_on_completed@[q]@.filter(not_about(w))
                } else {
                    final(self).check_on_completed@[q]@ == old(self).check_on_completed@[q]@
                },
    {
        let gates = pairs_of(conditions);
        let mut i: usize = 0;
        while i < gates.len()
            invariant
                0 <= i <= gates.len(),
                self.finished == old(self).finished,
                self.to_run == old(self).to_run,
                self.running == old(self).running,
                self.waiting_on == old(self).waiting_on,
                forall|k: int|
                    0 <= k < gates@.len() ==> conditions@.contains_key((#[trigger] gates@[k]).0),
                forall|k: usize|
                    conditions@.contains_key(k) ==> exists|j: int|
                        0 <= j < gates@.len() && (#[trigger] gates@[j]).0 == k,
                forall|a: int, b: int|
                    0 <= a < b < gates@.len() ==> (#[trigger] gates@[a]).0 != (
                    #[trigger] gates@[b]).0,
                forall|q: usize|
                    self.check_on_completed@.contains_key(q) == old(self).check_on_completed@.contains_key(q),
                forall|q: usize|
                    #![trigger self.check_on_completed@[q]]
                    old(self).check_on_completed@.contains_key(q) ==> if exists|j: int|
                        0 <= j < i && (#[trigger] gates@[j]).0 == q {
                        erased(old(self).check_on_completed@[q]@, self.check_on_completed@[q]@, w)
                            && self.check_on_completed@[q]@ == old(self).check_on_completed@[q]@.filter(not_about(w))
                    } else {
                        self.check_on_completed@[q]@ == old(self).check_on_completed@[q]@
                    },
                forall|q: usize|
                    #![trigger old(self).check_on_completed@[q]]
                    old(self).check_on_completed@.contains_key(q) ==> distinct_dependents(
                        old(self).check_on_completed@[q]@,
                    ),
            decreases gates.len() - i,
        {
            let q = gates[i].0;
            let ghost before = self.check_on_completed@;
            match self.check_on_completed.remove(&q) {
                Some(list) => {
                    assert(!exists|j: int| 0 <= j < i && (#[trigger] gates@[j]).0 == q);
                    assert(list@ == old(self).check_on_completed@[q]@);
                    let kept = without_dependent(&list, w);
                    self.check_on_completed.insert(q, kept);
                    assert forall|p: usize|
                        #![trigger self.check_on_completed@[p]]
                        old(self).check_on_completed@.contains_key(p) implies if exists|j: int|
                        0 <= j < i + 1 && (#[trigger] gates@[j]).0 == p {
                        erased(old(self).check_on_completed@[p]@, self.check_on_completed@[p]@, w)
                            && self.check_on_completed@[p]@ == old(self).check_on_completed@[p]@.filter(not_about(w))
                    } else {
                        self.check_on_completed@[p]@ == old(self).check_on_completed@[p]@
                    } by {
                        if p == q {
                            assert(gates@[i as int].0 == p);
                        } else {
                            assert(self.check_on_completed@[p] == before[p]);
                            if exists|j: int| 0 <= j < i + 1 && (#[trigger] gates@[j]).0 == p {
                                let j = choose|j: int| 0 <= j < i + 1 && (#[trigger] gates@[j]).0 == p;
                                assert(j < i);
                            }
                        }
                    }
                },
                None => {
                    assert(self.check_on_completed@ =~= before);
                },
            }
            i += 1;
        }
        assert forall|q: usize|
            #![trigger self.check_on_completed@[q]]
            old(self).check_on_completed@.contains_key(q) implies if conditions@.contains_key(q) {
            erased(old(self).check_on_completed@[q]@, self.check_on_completed@[q]@, w)
                && self.check_on_completed@[q]@ == old(self).check_on_completed@[q]@.filter(
                not_about(w),
            )
        } else {
            self.check_on_completed@[q]@ == old(self).check_on_completed@[q]@
        } by {
            if conditions@.contains_key(q) {
                let j = choose|j: int| 0 <= j < gates@.len() && (#[trigger] gates@[j]).0 == q;
                assert(0 <= j < i && gates@[j].0 == q);
            } else {
                if exists|j: int| 0 <= j < i && (#[trigger] gates@[j]).0 == q {
                    let j = choose|j: int| 0 <= j < i && (#[trigger] gates@[j]).0 == q;
                    assert(conditions@.contains_key(gates@[j].0));
                }
            }
        }
    }

    /// Works off the wake-up list of `pid`, which has just been recorded as
    /// finished with `status`, in the order of the list. A dependent whose
    /// gate on `pid` fails is given up, and its own dependents are resolved
    /// before the next entry is looked at. A dependent whose last gate clears
    /// is released.
    fn resolve_tasks(
        &mut self,
        pid: usize,
        status: ExitStatus,
        Ghost(draining): Ghost<Set<usize>>,
        Ghost(depth): Ghost<nat>,
    ) -> (tasks: Vec<Task<usize, Cmd>>)
        requires
            old(self)@.consistent(draining.insert(pid)),
            listed(old(self)@.waiting, old(self)@.wakeups, pid),
            old(self)@.finished.contains_key(pid),
            old(self)@.finished[pid] == status,
            depth >= old(self).waiting_on@.len(),
        ensures
            final(self)@ == old(self)@.resolve(pid, status, depth).0,
            tasks@ == old(self)@.resolve(pid, status, depth).1,
            final(self)@.consistent(draining),
            advances(old(self)@, final(self)@, pid),
            tasks_match(old(self)@, final(self)@, tasks@),
            final(self).waiting_on@.len() <= old(self).waiting_on@.len(),
            forall|q: usize|
                final(self)@.wakeups.contains_key(q) ==> q != pid && old(self)@.wakeups.contains_key(q),
        decreases old(self).waiting_on@.len(),
    {
        let mut tasks: Vec<Task<usize, Cmd>> = Vec::new();
        let ghost entry = self@;
        let blocked: Vec<(Condition, usize)> = match self.check_on_completed.remove(&pid) {
            Some(list) => list,
            None => Vec::new(),
        };
        let ghost whole = entry.resolve(pid, status, depth);
        proof {
            assert(self@.waiting =~= entry.waiting);
            assert(self@.wakeups =~= entry.wakeups.remove(pid));
            if entry.wakeups.contains_key(pid) {
                assert(blocked@ == entry.wakeups[pid]);
                assert(self@ =~= (MachineView { wakeups: entry.wakeups.remove(pid), ..entry }));
            } else {
                assert(self@ =~= entry);
            }
            assert(tasks@ + self@.settle(pid, status, blocked@, 0, depth).1 =~= self@.settle(
                pid,
                status,
                blocked@,
                0,
                depth,
            ).1);
            assert forall|w: usize|
                #![trigger waits_on(self@.waiting, w, pid)]
                waits_on(self@.waiting, w, pid) implies exists|j: int|
                0 <= j < blocked@.len() && #[trigger] blocked@[j] == (
                    self@.waiting[w].conditions[pid],
                    w,
                ) by {
                assert(waits_on(entry.waiting, w, pid));
                assert(entry.wakeups[pid].contains((entry.waiting[w].conditions[pid], w)));
            }
        }
        let mut i: usize = 0;
        while i < blocked.len()
            invariant
                0 <= i <= blocked.len(),
                entry == old(self)@,
                self@.consistent(draining.insert(pid)),
                !self@.wakeups.contains_key(pid),
                self@.finished.contains_key(pid),
                self@.finished[pid] == status,
                distinct_dependents(blocked@),
                forall|w: usize|
                    #![trigger waits_on(self@.waiting, w, pid)]
                    waits_on(self@.waiting, w, pid) ==> exists|j: int|
                        i <= j < blocked@.len() && #[trigger] blocked@[j] == (
                            self@.waiting[w].conditions[pid],
                            w,
                        ),
                forall|j: int|
                    i <= j < blocked@.len() && self@.waiting.contains_key((#[trigger] blocked@[j]).1)
                        ==> waits_on(self@.waiting, blocked@[j].1, pid)
                        && self@.waiting[blocked@[j].1].conditions[pid] == blocked@[j].0,
                advances(entry, self@, pid),
                tasks_match(entry, self@, tasks@),
                self.waiting_on@.len() <= old(self).waiting_on@.len(),
                forall|q: usize| self@.wakeups.contains_key(q) ==> entry.wakeups.contains_key(q),
                depth >= self.waiting_on@.len(),
                whole == entry.resolve(pid, status, depth),
                whole.0 == self@.settle(pid, status, blocked@, i as int, depth).0,
                whole.1 == tasks@ + self@.settle(pid, status, blocked@, i as int, depth).1,
            decreases blocked.len() - i,
        {
            let (cond, w) = blocked[i];
            let ghost cur = self@;
            let ghost done = tasks@;
            let ghost old_waiting = self.waiting_on@;
            let ghost later = draining.insert(pid);
            assert(blocked@[i as int] == (cond, w));
            match self.waiting_on.remove(&w) {
                None => {
                    assert(self.waiting_on@ =~= old_waiting);
                    assert(self@.waiting =~= cur.waiting);
                    assert(self@ =~= cur);
                    assert(narrowed(cur.waiting, self@.waiting, pid, w));
                },
                Some(waiting) => {
                    let Waiting { cmd, conditions } = waiting;
                    assert(waits_on(cur.waiting, w, pid));
                    assert(cur.waiting[w].conditions == conditions@);
                    assert(conditions@[pid] == cond);
                    if condition_holds(cond, status) {
                        let mut conditions = conditions;
                        conditions.remove(&pid);
                        if conditions.is_empty() {
                            self.to_run.insert(w);
                            tasks.push(Task::Start(w, cmd));
                            proof {
                                assert(self@.waiting =~= cur.waiting.remove(w));
                                assert(self@.wakeups =~= cur.wakeups);
                                assert forall|q: usize|
                                    cur.waiting[w].conditions.contains_key(q) implies q == pid by {
                                    if q != pid {
                                        assert(conditions@.contains_key(q));
                                    }
                                }
                                assert(self.waiting_on@.dom() =~= old_waiting.dom().remove(w));
                                Self::lemma_released(cur, self@, pid, status, w, later);
                                assert(narrowed(cur.waiting, self@.waiting, pid, w));
                                assert(cur.waiting[w].conditions.remove(pid) =~= Map::empty());
                                assert(self@ =~= cur.release(w));
                                let step = seq![Task::Start(w, cmd)];
                                assert(tasks@ =~= done + step);
                                let rest = self@.settle(pid, status, blocked@, i + 1, depth);
                                assert(whole.1 =~= tasks@ + rest.1) by {
                                    assert(done + (step + rest.1) =~= (done + step) + rest.1);
                                }
                                assert(step[0] == Task::Start(w, cmd));
                                assert(tasks_match(cur, self@, step));
                                lemma_advances_twice(entry, cur, self@, pid, pid, pid);
                                lemma_tasks_twice(entry, cur, self@, pid, pid, done, step);
                            }
                        } else {
                            self.waiting_on.insert(w, Waiting { cmd, conditions });
                            proof {
                                assert(self@.waiting =~= cur.waiting.insert(
                                    w,
                                    Gate {
                                        cmd: cur.waiting[w].cmd,
                                        conditions: cur.waiting[w].conditions.remove(pid),
                                    },
                                ));
                                assert(self@.wakeups =~= cur.wakeups);
                                assert(self.waiting_on@.dom() =~= old_waiting.dom());
                                assert(conditions@ =~= cur.waiting[w].conditions.remove(pid));
                                assert(!conditions@.dom().is_empty());
                                let other = choose|q: usize| conditions@.dom().contains(q);
                                assert(other != pid && cur.waiting[w].conditions.contains_key(other));
                                Self::lemma_gate_cleared(cur, self@, pid, status, w, later);
                                assert(narrowed(cur.waiting, self@.waiting, pid, w));
                                assert(!(cur.waiting[w].conditions.remove(pid) =~= Map::empty())) by {
                                    assert(cur.waiting[w].conditions.remove(pid).contains_key(other));
                                }
                                assert(self@ =~= cur.clear_gate(w, pid));
                                let step = Seq::<Task<usize, Cmd>>::empty();
                                assert(tasks@ =~= done + step);
                                assert(tasks_match(cur, self@, step));
                                lemma_advances_twice(entry, cur, self@, pid, pid, pid);
                                lemma_tasks_twice(entry, cur, self@, pid, pid, done, step);
                            }
                        }
                    } else {
                        self.finished.insert(w, ExitStatus::Failure);
                        proof {
                            assert(self@.wakeups == cur.wakeups);
                            assert forall|q: usize|
                                #![trigger self.check_on_completed@[q]]
                                self.check_on_completed@.contains_key(
                                    q,
                                ) implies distinct_dependents(self.check_on_completed@[q]@) by {
                                assert(cur.wakeups.contains_key(q));
                                assert(distinct_dependents(cur.wakeups[q]));
                            }
                        }
                        self.forget_dependent(&conditions, w);
                        tasks.push(Task::ConditionFailed(w, cmd));
                        let ghost mid = self@;
                        let ghost failed = tasks@;
                        proof {
                            assert(mid.waiting =~= cur.waiting.remove(w));
                            assert(self.waiting_on@.dom() =~= old_waiting.dom().remove(w));
                            assert(depth > 0);
                            assert forall|q: usize|
                                #![trigger mid.wakeups[q]]
                                cur.wakeups.contains_key(q) implies if cur.waiting[w].conditions.contains_key(
                                q,
                            ) {
                                erased(cur.wakeups[q], mid.wakeups[q], w)
                            } else {
                                mid.wakeups[q] == cur.wakeups[q]
                            } by {
                                assert(mid.wakeups[q] == self.check_on_completed@[q]@);
                            }
                            Self::lemma_given_up(cur, mid, pid, status, w, later);
                            assert(mid.wakeups =~= cur.give_up(w).wakeups);
                            assert(mid =~= cur.give_up(w));
                            let step = seq![Task::ConditionFailed(w, cmd)];
                            assert(tasks@ =~= done + step);
                            assert(step[0] == Task::ConditionFailed(w, cmd));
                            assert(tasks_match(cur, mid, step));
                            lemma_advances_twice(entry, cur, mid, pid, pid, pid);
                            lemma_tasks_twice(entry, cur, mid, pid, pid, done, step);
                        }
                        let mut more = self.resolve_tasks(
                            w,
                            ExitStatus::Failure,
                            Ghost(draining.insert(pid)),
                            Ghost((depth - 1) as nat),
                        );
                        let ghost rest = more@;
                        tasks.append(&mut more);
                        proof {
                            assert(tasks@ =~= failed + rest);
                            let after = self@.settle(pid, status, blocked@, i + 1, depth);
                            assert(whole.1 =~= tasks@ + after.1) by {
                                let one = seq![Task::ConditionFailed(w, cmd)];
                                assert(done + (one + rest + after.1) =~= (done + one + rest)
                                    + after.1);
                            }
                            assert(entry.waiting.contains_key(w));
                            lemma_advances_twice(entry, mid, self@, pid, w, pid);
                            lemma_tasks_twice(entry, mid, self@, pid, w, failed, rest);
                            let next = self@;
                            assert forall|v: usize, q: usize|
                                #![trigger waits_on(next.waiting, v, q)]
                                waits_on(next.waiting, v, q) implies waits_on(cur.waiting, v, q)
                                && cur.waiting[v].conditions[q] == next.waiting[v].conditions[q] by {
                                assert(still_waiting(mid, next, v, w));
                            }
                            assert forall|v: usize|
                                #![trigger next.waiting.contains_key(v)]
                                next.waiting.contains_key(v) && v != w && waits_on(
                                    cur.waiting,
                                    v,
                                    pid,
                                ) implies waits_on(next.waiting, v, pid) by {
                                assert(still_waiting(mid, next, v, w));
                                assert(mid.finished.contains_key(pid));
                            }
                            assert(narrowed(cur.waiting, next.waiting, pid, w));
                        }
                    }
                },
            }
            proof {
                let next = self@;
                assert forall|v: usize|
                    #![trigger waits_on(next.waiting, v, pid)]
                    waits_on(next.waiting, v, pid) implies exists|j: int|
                    i + 1 <= j < blocked@.len() && #[trigger] blocked@[j] == (
                        next.waiting[v].conditions[pid],
                        v,
                    ) by {
                    assert(waits_on(cur.waiting, v, pid));
                    let j = choose|j: int|
                        i <= j < blocked@.len() && #[trigger] blocked@[j] == (
                            cur.waiting[v].conditions[pid],
                            v,
                        );
                    assert(j != i);
                }
                assert forall|j: int|
                    i + 1 <= j < blocked@.len() && next.waiting.contains_key(
                        (#[trigger] blocked@[j]).1,
                    ) implies waits_on(next.waiting, blocked@[j].1, pid)
                    && next.waiting[blocked@[j].1].conditions[pid] == blocked@[j].0 by {
                    let v = blocked@[j].1;
                    assert(blocked@[i as int].1 != blocked@[j].1);
                    if !cur.waiting.contains_key(v) {
                        let q = choose|q: usize| waits_on(next.waiting, v, q);
                        assert(waits_on(cur.waiting, v, q));
                    }
                    assert(waits_on(next.waiting, v, pid));
                }
            }
            i += 1;
        }
        tasks
    }

    /// The step that releases `w`, whose only gate left was the one on `pid`.
    proof fn lemma_released(
        cur: MachineView<Cmd, State>,
        next: MachineView<Cmd, State>,
        pid: usize,
        status: ExitStatus,
        w: usize,
        draining: Set<usize>,
    )
        requires
            cur.consistent(draining),
            draining.contains(pid),
            !cur.wakeups.contains_key(pid),
            waits_on(cur.waiting, w, pid),
            forall|q: usize| cur.waiting[w].conditions.contains_key(q) ==> q == pid,
            cur.finished[pid] == status,
            satisfies(cur.waiting[w].conditions[pid], status),
            next.finished == cur.finished,
            next.running == cur.running,
            next.to_run == cur.to_run.insert(w),
            next.waiting == cur.waiting.remove(w),
            next.wakeups == cur.wakeups,
        ensures
            next.consistent(draining),
            advances(cur, next, pid),
    {
        assert forall|v: usize|
            #![trigger next.waiting.contains_key(v)]
            next.waiting.contains_key(v) implies still_waiting(cur, next, v, pid) by {}
        assert forall|v: usize|
            #![trigger next.waiting.contains_key(v)]
            next.waiting.contains_key(v) implies exists|q: usize|
            waits_on(next.waiting, v, q) by {
            assert(cur.waiting.contains_key(v));
            let q = choose|q: usize| waits_on(cur.waiting, v, q);
            assert(waits_on(next.waiting, v, q));
        }
        assert forall|q: usize, i: int|
            next.wakeups.contains_key(q) && 0 <= i < next.wakeups[q].len() implies {
            let entry = #[trigger] next.wakeups[q][i];
            waits_on(next.waiting, entry.1, q) && next.waiting[entry.1].conditions[q] == entry.0
        } by {
            let entry = cur.wakeups[q][i];
            assert(waits_on(cur.waiting, entry.1, q));
        }
        assert forall|v: usize, q: usize|
            #![trigger waits_on(next.waiting, v, q)]
            waits_on(next.waiting, v, q) && !draining.contains(q) implies {
            &&& next.pending(q)
            &&& next.wakeups.contains_key(q)
            &&& next.wakeups[q].contains((next.waiting[v].conditions[q], v))
        } by {
            assert(waits_on(cur.waiting, v, q));
        }
    }

    /// The step that clears what `w` asked of `pid` and leaves `w` waiting.
    proof fn lemma_gate_cleared(
        cur: MachineView<Cmd, State>,
        next: MachineView<Cmd, State>,
        pid: usize,
        status: ExitStatus,
        w: usize,
        draining: Set<usize>,
    )
        requires
            cur.consistent(draining),
            draining.contains(pid),
            !cur.wakeups.contains_key(pid),
            waits_on(cur.waiting, w, pid),
            exists|q: usize| q != pid && cur.waiting[w].conditions.contains_key(q),
            cur.finished[pid] == status,
            satisfies(cur.waiting[w].conditions[pid], status),
            next.finished == cur.finished,
            next.running == cur.running,
            next.to_run == cur.to_run,
            next.waiting == cur.waiting.insert(
                w,
                Gate { cmd: cur.waiting[w].cmd, conditions: cur.waiting[w].conditions.remove(pid) },
            ),
            next.wakeups == cur.wakeups,
        ensures
            next.consistent(draining),
            advances(cur, next, pid),
    {
        assert forall|v: usize|
            #![trigger next.waiting.contains_key(v)]
            next.waiting.contains_key(v) implies still_waiting(cur, next, v, pid) by {}
        assert forall|v: usize|
            #![trigger next.waiting.contains_key(v)]
            next.waiting.contains_key(v) implies exists|q: usize|
            waits_on(next.waiting, v, q) by {
            if v == w {
                let q = choose|q: usize| q != pid && cur.waiting[w].conditions.contains_key(q);
                assert(waits_on(next.waiting, v, q));
            } else {
                let q = choose|q: usize| waits_on(cur.waiting, v, q);
                assert(waits_on(next.waiting, v, q));
            }
        }
        assert forall|q: usize, i: int|
            next.wakeups.contains_key(q) && 0 <= i < next.wakeups[q].len() implies {
            let entry = #[trigger] next.wakeups[q][i];
            waits_on(next.waiting, entry.1, q) && next.waiting[entry.1].conditions[q] == entry.0
        } by {
            let entry = cur.wakeups[q][i];
            assert(waits_on(cur.waiting, entry.1, q));
        }
        assert forall|v: usize, q: usize|
            #![trigger waits_on(next.waiting, v, q)]
            waits_on(next.waiting, v, q) && !draining.contains(q) implies {
            &&& next.pending(q)
            &&& next.wakeups.contains_key(q)
            &&& next.wakeups[q].contains((next.waiting[v].conditions[q], v))
        } by {
            assert(waits_on(cur.waiting, v, q));
        }
    }

    /// The step that gives up `w`, whose gate on `pid` has failed, and takes
    /// `w` out of the wake-up lists of its other predecessors.
    proof fn lemma_given_up(
        cur: MachineView<Cmd, State>,
        next: MachineView<Cmd, State>,
        pid: usize,
        status: ExitStatus,
        w: usize,
        draining: Set<usize>,
    )
        requires
            cur.consistent(draining),
            draining.contains(pid),
            !cur.wakeups.contains_key(pid),
            waits_on(cur.waiting, w, pid),
            cur.finished[pid] == status,
            !satisfies(cur.waiting[w].conditions[pid], status),
            next.finished == cur.finished.insert(w, ExitStatus::Failure),
            next.running == cur.running,
            next.to_run == cur.to_run,
            next.waiting == cur.waiting.remove(w),
            forall|q: usize| next.wakeups.contains_key(q) == cur.wakeups.contains_key(q),
            forall|q: usize|
                #![trigger next.wakeups[q]]
                cur.wakeups.contains_key(q) ==> if cur.waiting[w].conditions.contains_key(q) {
                    erased(cur.wakeups[q], next.wakeups[q], w)
                } else {
                    next.wakeups[q] == cur.wakeups[q]
                },
        ensures
            next.consistent(draining.insert(w)),
            listed(next.waiting, next.wakeups, w),
            advances(cur, next, pid),
    {
        assert(blocked_by(cur.waiting[w].conditions, next.finished, pid));
        assert forall|v: usize|
            #![trigger next.waiting.contains_key(v)]
            next.waiting.contains_key(v) implies still_waiting(cur, next, v, pid) by {}
        assert forall|v: usize|
            #![trigger next.waiting.contains_key(v)]
            next.waiting.contains_key(v) implies exists|q: usize|
            waits_on(next.waiting, v, q) by {
            let q = choose|q: usize| waits_on(cur.waiting, v, q);
            assert(waits_on(next.waiting, v, q));
        }
        assert forall|q: usize, i: int|
            next.wakeups.contains_key(q) && 0 <= i < next.wakeups[q].len() implies {
            let entry = #[trigger] next.wakeups[q][i];
            waits_on(next.waiting, entry.1, q) && next.waiting[entry.1].conditions[q] == entry.0
        } by {
            let entry = next.wakeups[q][i];
            if cur.waiting[w].conditions.contains_key(q) {
                assert(cur.wakeups[q].contains(entry));
                let k = choose|k: int| 0 <= k < cur.wakeups[q].len() && cur.wakeups[q][k] == entry;
                assert(waits_on(cur.waiting, cur.wakeups[q][k].1, q));
            } else {
                assert(entry == cur.wakeups[q][i]);
                assert(waits_on(cur.waiting, cur.wakeups[q][i].1, q));
            }
        }
        assert forall|q: usize| #![trigger next.wakeups[q]] next.wakeups.contains_key(q) implies distinct_dependents(next.wakeups[q]) by {
            assert(distinct_dependents(cur.wakeups[q]));
        }
        assert forall|v: usize, q: usize|
            #![trigger waits_on(next.waiting, v, q)]
            waits_on(next.waiting, v, q) && (!draining.insert(w).contains(q) || q == w) implies {
            &&& q != w ==> next.pending(q)
            &&& next.wakeups.contains_key(q)
            &&& next.wakeups[q].contains((next.waiting[v].conditions[q], v))
        } by {
            assert(waits_on(cur.waiting, v, q));
            assert(!draining.contains(q));
            let e = (cur.waiting[v].conditions[q], v);
            assert(cur.wakeups[q].contains(e));
            let k = choose|k: int| 0 <= k < cur.wakeups[q].len() && cur.wakeups[q][k] == e;
            if cur.waiting[w].conditions.contains_key(q) {
                assert(cur.wakeups[q][k].1 != w);
                assert(next.wakeups[q].contains(cur.wakeups[q][k]));
            } else {
                assert(next.wakeups[q][k] == e);
            }
        }
    }
}

} // verus!
