//! The decisions of the execution engine.
//!
//! The engine owns the scheduler, the pipe registry and the table of edits
//! that wait for the frontend. It is driven by one event at a time and
//! answers each event with the actions that the event calls for. Spawning
//! processes, touching files and talking to the frontend are the driver's
//! part: it performs the actions in the order given and reports what came of
//! a `Run` before it takes the next event from its mailbox.

use std::collections::HashMap;
use vstd::prelude::*;
use crate::ids::Ids;
use crate::machine::{
    advances, newly_ready, tasks_match, Machine, MachineView, Place, Status, Task,
};
use crate::protocol::{
    Command, CommandView, Condition, ExitStatus, GenericPipe, PipeMessage, ProcessId, ReadPipe,
    WritePipe, WritePipes,
};
use crate::registry::{claim, step, Ends, PipeError, PipeOp, Registry, Source};

verus! {

broadcast use vstd::std_specs::hash::group_hash_axioms;

/// A command together with the pipes that are its stdio.
pub struct RunCmd {
    pub cmd: Command,
    pub pipes: WritePipes,
}

/// What the engine keeps for a process that has been started.
#[derive(Clone, Copy, Debug, PartialEq, Eq, Structural)]
pub enum ProcessState {
    /// A child of the operating system, which the driver can kill and whose
    /// exit the driver reports.
    Running,
    /// An edit that waits for the frontend's answer.
    AwaitingEdit,
}

/// How an end of a pipe was claimed for a process's stdio.
pub type Claimed = Result<Source, PipeError>;

/// The three claims that go with spawning a program.
#[derive(Clone, Copy, Debug, PartialEq, Eq)]
pub struct Stdio {
    pub stdin: Claimed,
    pub stdout: Claimed,
    pub stderr: Claimed,
}

/// The claims on the two outputs of a process.
#[derive(Clone, Copy, Debug, PartialEq, Eq)]
pub struct Outputs {
    pub stdout: Claimed,
    pub stderr: Claimed,
}

/// How a directory built-in went, as the driver found it. A text that
/// says why something failed is the driver's to word.
#[derive(Clone, Debug, PartialEq)]
pub enum Builtin {
    /// The working directory has been changed.
    Changed,
    /// The working directory could not be changed, for this reason.
    NotChanged(Vec<u8>),
    /// The working directory is this path.
    Directory(Vec<u8>),
    /// The working directory could not be told, for this reason.
    NoDirectory(Vec<u8>),
}

pub ghost enum BuiltinView {
    Changed,
    NotChanged(Seq<u8>),
    Directory(Seq<u8>),
    NoDirectory(Seq<u8>),
}

impl View for Builtin {
    type V = BuiltinView;

    open spec fn view(&self) -> BuiltinView {
        match self {
            Builtin::Changed => BuiltinView::Changed,
            Builtin::NotChanged(why) => BuiltinView::NotChanged(why@),
            Builtin::Directory(path) => BuiltinView::Directory(path@),
            Builtin::NoDirectory(why) => BuiltinView::NoDirectory(why@),
        }
    }
}

/// The bytes of `Success: ()`.
pub open spec fn success_text() -> Seq<u8> {
    seq![0x53u8, 0x75u8, 0x63u8, 0x63u8, 0x65u8, 0x73u8, 0x73u8, 0x3au8, 0x20u8, 0x28u8, 0x29u8]
}

/// The bytes of `Error: `.
pub open spec fn error_prefix() -> Seq<u8> {
    seq![0x45u8, 0x72u8, 0x72u8, 0x6fu8, 0x72u8, 0x3au8, 0x20u8]
}

impl BuiltinView {
    /// The exit code of the built-in: 0 where it did what it was asked.
    pub open spec fn exit_code(self) -> i64 {
        match self {
            BuiltinView::Changed => 0,
            BuiltinView::Directory(_) => 0,
            BuiltinView::NotChanged(_) => 1,
            BuiltinView::NoDirectory(_) => 1,
        }
    }

    /// What goes to the process's stdout: the result of a change of
    /// directory, good or bad, and the directory that was asked for with a
    /// newline behind it.
    pub open spec fn out(self) -> Seq<u8> {
        match self {
            BuiltinView::Changed => success_text(),
            BuiltinView::NotChanged(why) => error_prefix() + why,
            BuiltinView::Directory(path) => path.push(10u8),
            BuiltinView::NoDirectory(_) => Seq::empty(),
        }
    }

    /// What goes to the process's stderr: why the directory could not be
    /// told.
    pub open spec fn err(self) -> Seq<u8> {
        match self {
            BuiltinView::NoDirectory(why) => error_prefix() + why,
            _ => Seq::empty(),
        }
    }
}

fn error_text(why: Vec<u8>) -> (text: Vec<u8>)
    ensures
        text@ == error_prefix() + why@,
{
    let mut text: Vec<u8> = vec![0x45u8, 0x72u8, 0x72u8, 0x6fu8, 0x72u8, 0x3au8, 0x20u8];
    assert(text@ =~= error_prefix());
    let mut why = why;
    text.append(&mut why);
    text
}

impl Builtin {
    /// The exit code of the built-in.
    pub fn exit_code(&self) -> (code: i64)
        ensures
            code == self@.exit_code(),
    {
        match self {
            Builtin::Changed => 0,
            Builtin::Directory(_) => 0,
            Builtin::NotChanged(_) => 1,
            Builtin::NoDirectory(_) => 1,
        }
    }

    /// What the built-in writes to its stdout and to its stderr.
    pub fn texts(self) -> (texts: (Vec<u8>, Vec<u8>))
        ensures
            texts.0@ == self@.out(),
            texts.1@ == self@.err(),
    {
        match self {
            Builtin::Changed => {
                let out: Vec<u8> = vec![
                    0x53u8,
                    0x75u8,
                    0x63u8,
                    0x63u8,
                    0x65u8,
                    0x73u8,
                    0x73u8,
                    0x3au8,
                    0x20u8,
                    0x28u8,
                    0x29u8,
                ];
                assert(out@ =~= success_text());
                (out, Vec::new())
            },
            Builtin::NotChanged(why) => (error_text(why), Vec::new()),
            Builtin::Directory(path) => {
                let mut out = path;
                out.push(10u8);
                (out, Vec::new())
            },
            Builtin::NoDirectory(why) => (Vec::new(), error_text(why)),
        }
    }
}

/// What the driver is to do.
#[derive(Debug, PartialEq)]
pub enum Action {
    /// Run the command of a process. For an external program `stdio` holds
    /// the claims on its pipes, and the driver answers with `spawned` or
    /// `run_failed`. For a directory built-in the driver answers with
    /// `builtin_done`, for an edit with `edit_loaded` or `run_failed`.
    Run { pid: ProcessId, cmd: Command, pipes: WritePipes, stdio: Option<Stdio> },
    /// Write `out` to the process's stdout and `err` to its stderr, then
    /// close both. `ends` holds the claims on the two pipes; it is `None`
    /// where the driver already holds the ends, claimed when the process
    /// was to be spawned.
    Output { pipes: WritePipes, ends: Option<Outputs>, out: Vec<u8>, err: Vec<u8> },
    /// Tell the frontend that a process is done.
    Report { pid: ProcessId, exit_code: i64 },
    /// Ask the frontend to edit a file's contents.
    RequestEdit { pid: ProcessId, edit_id: usize, name: String, data: Vec<u8> },
    /// Replace a file's contents.
    StoreFile { path: String, data: Vec<u8> },
    /// Kill the child of a process.
    Kill { pid: ProcessId },
    /// Stream what can be read from a pipe to the frontend.
    StartReading { pipe: GenericPipe, source: Claimed },
}

#[allow(inconsistent_fields)]
pub ghost enum ActionView {
    Run { pid: ProcessId, cmd: CommandView, pipes: WritePipes, stdio: Option<Stdio> },
    Output { pipes: WritePipes, ends: Option<Outputs>, out: Seq<u8>, err: Seq<u8> },
    Report { pid: ProcessId, exit_code: i64 },
    RequestEdit { pid: ProcessId, edit_id: usize, name: Seq<char>, data: Seq<u8> },
    StoreFile { path: Seq<char>, data: Seq<u8> },
    Kill { pid: ProcessId },
    StartReading { pipe: GenericPipe, source: Claimed },
}

impl View for Action {
    type V = ActionView;

    open spec fn view(&self) -> ActionView {
        match self {
            Action::Run { pid, cmd, pipes, stdio } => ActionView::Run {
                pid: *pid,
                cmd: cmd@,
                pipes: *pipes,
                stdio: *stdio,
            },
            Action::Output { pipes, ends, out, err } => ActionView::Output {
                pipes: *pipes,
                ends: *ends,
                out: out@,
                err: err@,
            },
            Action::Report { pid, exit_code } => ActionView::Report {
                pid: *pid,
                exit_code: *exit_code,
            },
            Action::RequestEdit { pid, edit_id, name, data } => ActionView::RequestEdit {
                pid: *pid,
                edit_id: *edit_id,
                name: name@,
                data: data@,
            },
            Action::StoreFile { path, data } => ActionView::StoreFile { path: path@, data: data@ },
            Action::Kill { pid } => ActionView::Kill { pid: *pid },
            Action::StartReading { pipe, source } => ActionView::StartReading {
                pipe: *pipe,
                source: *source,
            },
        }
    }
}

/// The mathematical values of a list of actions.
pub open spec fn views(actions: Seq<Action>) -> Seq<ActionView> {
    actions.map_values(|a: Action| a@)
}

/// The claim on the end that a request names, as the registry decides it.
pub open spec fn claim_of(pipes: Map<usize, Ends>, op: PipeOp) -> Claimed {
    claim(pipes, op.claim())
}

/// The registry after the stdio of a program has been claimed: stdin first,
/// then stdout, then stderr.
pub open spec fn after_stdio(pipes: Map<usize, Ends>, stdio: WritePipes) -> Map<usize, Ends> {
    step(
        step(step(pipes, PipeOp::ReadEnd(stdio.stdin.0)), PipeOp::WriteEnd(stdio.stdout.0)),
        PipeOp::WriteEnd(stdio.stderr.0),
    )
}

/// The claims on the stdio of a program.
pub open spec fn stdio_of(pipes: Map<usize, Ends>, stdio: WritePipes) -> Stdio {
    let first = step(pipes, PipeOp::ReadEnd(stdio.stdin.0));
    let second = step(first, PipeOp::WriteEnd(stdio.stdout.0));
    Stdio {
        stdin: claim_of(pipes, PipeOp::ReadEnd(stdio.stdin.0)),
        stdout: claim_of(first, PipeOp::WriteEnd(stdio.stdout.0)),
        stderr: claim_of(second, PipeOp::WriteEnd(stdio.stderr.0)),
    }
}

/// The registry after one task has been turned into its action.
pub open spec fn pipes_after_task(pipes: Map<usize, Ends>, task: Task<usize, RunCmd>) -> Map<
    usize,
    Ends,
> {
    match task {
        Task::Start(_, run) => if run.cmd is Unknown {
            after_stdio(pipes, run.pipes)
        } else {
            pipes
        },
        Task::ConditionFailed(_, _) => pipes,
    }
}

/// The action that a task calls for: to run the command of a process that
/// is to start, and to report exit code 1 for a process that was given up.
pub open spec fn action_of(pipes: Map<usize, Ends>, task: Task<usize, RunCmd>) -> ActionView {
    match task {
        Task::Start(pid, run) => ActionView::Run {
            pid: ProcessId(pid),
            cmd: run.cmd@,
            pipes: run.pipes,
            stdio: if run.cmd is Unknown {
                Some(stdio_of(pipes, run.pipes))
            } else {
                None
            },
        },
        Task::ConditionFailed(pid, _) => ActionView::Report { pid: ProcessId(pid), exit_code: 1 },
    }
}

/// The registry after a list of tasks has been turned into actions.
pub open spec fn pipes_after(pipes: Map<usize, Ends>, tasks: Seq<Task<usize, RunCmd>>) -> Map<
    usize,
    Ends,
>
    decreases tasks.len(),
{
    if tasks.len() == 0 {
        pipes
    } else {
        pipes_after_task(pipes_after(pipes, tasks.drop_last()), tasks.last())
    }
}

/// The actions that a list of tasks calls for, one for each task, in order.
pub open spec fn actions_of(pipes: Map<usize, Ends>, tasks: Seq<Task<usize, RunCmd>>) -> Seq<
    ActionView,
>
    decreases tasks.len(),
{
    if tasks.len() == 0 {
        Seq::empty()
    } else {
        actions_of(pipes, tasks.drop_last()).push(
            action_of(pipes_after(pipes, tasks.drop_last()), tasks.last()),
        )
    }
}

/// The action that writes to the outputs of a process. Where the driver
/// holds the ends already, nothing is claimed; else stdout is claimed
/// first, then stderr.
pub open spec fn output_of(
    pipes: Map<usize, Ends>,
    stdio: WritePipes,
    held: bool,
    out: Seq<u8>,
    err: Seq<u8>,
) -> ActionView {
    ActionView::Output {
        pipes: stdio,
        ends: if held {
            None
        } else {
            Some(
                Outputs {
                    stdout: claim_of(pipes, PipeOp::WriteEnd(stdio.stdout.0)),
                    stderr: claim_of(
                        step(pipes, PipeOp::WriteEnd(stdio.stdout.0)),
                        PipeOp::WriteEnd(stdio.stderr.0),
                    ),
                },
            )
        },
        out,
        err,
    }
}

/// The registry after the outputs of a process have been written to.
pub open spec fn after_output(pipes: Map<usize, Ends>, stdio: WritePipes, held: bool) -> Map<
    usize,
    Ends,
> {
    if held {
        pipes
    } else {
        step(step(pipes, PipeOp::WriteEnd(stdio.stdout.0)), PipeOp::WriteEnd(stdio.stderr.0))
    }
}

/// The mathematical state of an [`Engine`].
pub ghost struct EngineView {
    pub machine: MachineView<RunCmd, ProcessState>,
    pub pipes: Map<usize, Ends>,
    /// The id that the next edit gets.
    pub next_edit: nat,
    /// The edits that wait for the frontend: for each id the process and
    /// the file's path.
    pub edits: Map<usize, (ProcessId, Seq<char>)>,
}

impl EngineView {
    /// The scheduler is consistent, and every edit that waits belongs to a
    /// process that waits for it, each process to one edit.
    pub open spec fn wf(self) -> bool {
        &&& self.machine.wf()
        &&& forall|e: usize|
            #![trigger self.edits.contains_key(e)]
            self.edits.contains_key(e) ==> e < self.next_edit && self.awaits(self.edits[e].0.0)
        &&& forall|e: usize, f: usize|
            #![trigger self.edits[e], self.edits[f]]
            self.edits.contains_key(e) && self.edits.contains_key(f) && e != f ==> self.edits[e].0
                != self.edits[f].0
    }

    /// The process waits for an edit.
    pub open spec fn awaits(self, pid: usize) -> bool {
        self.machine.running.contains_key(pid) && self.machine.running[pid]
            == ProcessState::AwaitingEdit
    }

    /// The process is a child of the operating system.
    pub open spec fn has_child(self, pid: usize) -> bool {
        self.machine.running.contains_key(pid) && self.machine.running[pid]
            == ProcessState::Running
    }
}

/// The process has been started or has finished.
pub open spec fn begun(m: MachineView<RunCmd, ProcessState>, pid: usize) -> bool {
    m.running.contains_key(pid) || m.finished.contains_key(pid)
}

/// The process that an action starts or asks the frontend to edit for.
pub open spec fn opens(a: ActionView) -> Option<ProcessId> {
    match a {
        ActionView::Run { pid, .. } => Some(pid),
        ActionView::RequestEdit { pid, .. } => Some(pid),
        _ => None,
    }
}

/// No action starts, or asks for an edit for, a process that had already
/// been started before the event; and what has begun stays begun.
pub open spec fn quiet(
    before: MachineView<RunCmd, ProcessState>,
    after: MachineView<RunCmd, ProcessState>,
    actions: Seq<ActionView>,
) -> bool {
    &&& forall|i: int|
        0 <= i < actions.len() ==> (opens(#[trigger] actions[i]) matches Some(pid) ==> !begun(
            before,
            pid.0,
        ))
    &&& forall|pid: usize| #![trigger begun(after, pid)] begun(before, pid) ==> begun(after, pid)
}

/// The process that an action names.
pub open spec fn names(a: ActionView) -> Option<ProcessId> {
    match a {
        ActionView::Run { pid, .. } => Some(pid),
        ActionView::Report { pid, .. } => Some(pid),
        ActionView::RequestEdit { pid, .. } => Some(pid),
        ActionView::Kill { pid } => Some(pid),
        _ => None,
    }
}

/// No action names a process that had finished before the event, and what
/// has finished stays finished.
pub open spec fn silent(
    before: MachineView<RunCmd, ProcessState>,
    after: MachineView<RunCmd, ProcessState>,
    actions: Seq<ActionView>,
) -> bool {
    &&& forall|i: int|
        0 <= i < actions.len() ==> (names(#[trigger] actions[i]) matches Some(pid)
            ==> !before.finished.contains_key(pid.0))
    &&& forall|pid: usize|
        #![trigger after.finished.contains_key(pid)]
        before.finished.contains_key(pid) ==> after.finished.contains_key(pid)
}

/// Once a process has finished, no later event names it. `states` are the
/// scheduler's states before and after each event of a run, `actions` what
/// each event called for; every event of the engine is silent. Then a
/// process that has finished before event `i` is named by no action of
/// event `i` or of any later event `j`: it is not run, not asked to edit,
/// not killed and not reported again.
pub proof fn lemma_finished_is_never_named(
    states: Seq<MachineView<RunCmd, ProcessState>>,
    actions: Seq<Seq<ActionView>>,
    i: int,
    j: int,
    pid: usize,
)
    requires
        states.len() == actions.len() + 1,
        forall|k: int|
            0 <= k < actions.len() ==> silent(states[k], states[k + 1], #[trigger] actions[k]),
        0 <= i <= j < actions.len(),
        states[i].finished.contains_key(pid),
    ensures
        states[j].finished.contains_key(pid),
        forall|n: int|
            0 <= n < actions[j].len() ==> names(#[trigger] actions[j][n]) != Some(ProcessId(pid)),
    decreases j - i,
{
    if i < j {
        lemma_finished_is_never_named(states, actions, i, j - 1, pid);
        assert(silent(states[j - 1], states[j], actions[j - 1]));
    }
    assert(silent(states[j], states[j + 1], actions[j]));
}

/// The execution engine.
pub struct Engine {
    machine: Machine<RunCmd, ProcessState>,
    pipes: Registry,
    edit_ids: Ids,
    waiting_edits: HashMap<usize, (ProcessId, String)>,
}

impl View for Engine {
    type V = EngineView;

    closed spec fn view(&self) -> EngineView {
        EngineView {
            machine: self.machine@,
            pipes: self.pipes@,
            next_edit: self.edit_ids@,
            edits: Map::new(
                |e: usize| self.waiting_edits@.contains_key(e),
                |e: usize| (self.waiting_edits@[e].0, self.waiting_edits@[e].1@),
            ),
        }
    }
}

impl Engine {
    /// An engine that knows no process, no pipe and no edit.
    pub fn new() -> (e: Engine)
        ensures
            e@.wf(),
            e@.machine == MachineView::<RunCmd, ProcessState>::empty(),
            e@.pipes == Map::<usize, Ends>::empty(),
            e@.next_edit == 0,
            e@.edits == Map::<usize, (ProcessId, Seq<char>)>::empty(),
    {
        let e = Engine {
            machine: Machine::new(),
            pipes: Registry::new(),
            edit_ids: Ids::new(),
            waiting_edits: HashMap::new(),
        };
        assert(e@.edits =~= Map::empty());
        e
    }

    /// The set of the scheduler that a process is in.
    pub fn place(&self, pid: ProcessId) -> (place: Place)
        requires
            self@.wf(),
        ensures
            place == self@.machine.place(pid.0),
    {
        self.machine.place(pid.0)
    }

    /// True when the edit waits for the frontend's answer.
    pub fn awaits_edit(&self, edit_id: usize) -> (waits: bool)
        ensures
            waits == self@.edits.contains_key(edit_id),
    {
        self.waiting_edits.contains_key(&edit_id)
    }

    /// True when no edit id is left.
    pub fn edits_exhausted(&self) -> (done: bool)
        ensures
            done == (self@.next_edit >= usize::MAX),
    {
        self.edit_ids.is_exhausted()
    }

    /// Where a started process stands.
    pub fn status(&self, pid: ProcessId) -> (status: Status<'_, ProcessState>)
        requires
            begun(self@.machine, pid.0),
        ensures
            match status {
                Status::Running(state) => self@.machine.running.contains_key(pid.0) && *state
                    == self@.machine.running[pid.0],
                Status::Exited(exit) => !self@.machine.running.contains_key(pid.0)
                    && self@.machine.finished.contains_key(pid.0) && exit
                    == self@.machine.finished[pid.0],
            },
    {
        self.machine.status(pid.0)
    }

    /// Claims the stdio of a program: stdin, stdout, stderr, in this order.
    fn claim_stdio(&mut self, stdio: WritePipes) -> (claims: Stdio)
        ensures
            claims == stdio_of(old(self)@.pipes, stdio),
            final(self)@.pipes == after_stdio(old(self)@.pipes, stdio),
            final(self)@.machine == old(self)@.machine,
            final(self)@.next_edit == old(self)@.next_edit,
            final(self)@.edits == old(self)@.edits,
    {
        let stdin = self.pipes.read_end(stdio.stdin);
        let stdout = self.pipes.write_end(stdio.stdout);
        let stderr = self.pipes.write_end(stdio.stderr);
        Stdio { stdin, stdout, stderr }
    }

    /// The action that writes `out` and `err` to the outputs of a process,
    /// whose writing ends it claims unless the driver holds them.
    fn output(&mut self, stdio: WritePipes, held: bool, out: Vec<u8>, err: Vec<u8>) -> (action:
        Action)
        ensures
            action@ == output_of(old(self)@.pipes, stdio, held, out@, err@),
            final(self)@.pipes == after_output(old(self)@.pipes, stdio, held),
            final(self)@.machine == old(self)@.machine,
            final(self)@.next_edit == old(self)@.next_edit,
            final(self)@.edits == old(self)@.edits,
    {
        if held {
            Action::Output { pipes: stdio, ends: None, out, err }
        } else {
            let stdout = self.pipes.write_end(stdio.stdout);
            let stderr = self.pipes.write_end(stdio.stderr);
            Action::Output { pipes: stdio, ends: Some(Outputs { stdout, stderr }), out, err }
        }
    }

    /// Turns the scheduler's tasks into actions, in order, and appends them
    /// to `actions`.
    fn process_tasks(&mut self, tasks: Vec<Task<usize, RunCmd>>, actions: &mut Vec<Action>)
        ensures
            views(final(actions)@) == views(old(actions)@) + actions_of(old(self)@.pipes, tasks@),
            final(self)@.pipes == pipes_after(old(self)@.pipes, tasks@),
            final(self)@.machine == old(self)@.machine,
            final(self)@.next_edit == old(self)@.next_edit,
            final(self)@.edits == old(self)@.edits,
    {
        let ghost start = self@.pipes;
        let ghost had = views(actions@);
        let ghost all = tasks@;
        for task in it: tasks
            invariant
                it.seq() == all,
                start == old(self)@.pipes,
                had == views(old(actions)@),
                self@.machine == old(self)@.machine,
                self@.next_edit == old(self)@.next_edit,
                self@.edits == old(self)@.edits,
                self@.pipes == pipes_after(start, all.take(it.index())),
                views(actions@) == had + actions_of(start, all.take(it.index())),
        {
            let ghost n = it.index();
            let ghost before = views(actions@);
            let ghost pipes = self@.pipes;
            proof {
                assert(all.take(n + 1).drop_last() =~= all.take(n));
                assert(all.take(n + 1).last() == task);
            }
            match task {
                Task::Start(pid, run) => {
                    let RunCmd { cmd, pipes } = run;
                    let stdio = match cmd {
                        Command::Unknown(_, _) => Some(self.claim_stdio(pipes)),
                        _ => None,
                    };
                    actions.push(Action::Run { pid: ProcessId(pid), cmd, pipes, stdio });
                },
                Task::ConditionFailed(pid, _) => {
                    actions.push(Action::Report { pid: ProcessId(pid), exit_code: 1 });
                },
            }
            proof {
                assert(views(actions@) =~= before.push(action_of(pipes, task)));
                assert(views(actions@) =~= had + actions_of(start, all.take(n + 1)));
            }
        }
        proof {
            assert(all.take(all.len() as int) =~= all);
        }
    }

    /// Takes in a process that is to run once its predecessors have passed
    /// their conditions. The scheduler decides whether it starts now, waits,
    /// or is turned away; a process that is turned away is reported with
    /// exit code 1 and never runs.
    pub fn enqueue(&mut self, pid: ProcessId, cmd: RunCmd, block_for: HashMap<usize, Condition>) -> (actions:
        Vec<Action>)
        requires
            old(self)@.wf(),
            !old(self)@.machine.knows(pid.0),
            forall|q: usize| block_for@.contains_key(q) ==> old(self)@.machine.knows(q),
        ensures
            silent(old(self)@.machine, final(self)@.machine, views(actions@)),
            final(self)@.wf(),
            final(self)@.machine == old(self)@.machine.enqueue(pid.0, cmd, block_for@),
            views(actions@) == actions_of(
                old(self)@.pipes,
                old(self)@.machine.enqueue_tasks(pid.0, cmd, block_for@),
            ),
            final(self)@.pipes == pipes_after(
                old(self)@.pipes,
                old(self)@.machine.enqueue_tasks(pid.0, cmd, block_for@),
            ),
            final(self)@.edits == old(self)@.edits,
            final(self)@.next_edit == old(self)@.next_edit,
            quiet(old(self)@.machine, final(self)@.machine, views(actions@)),
    {
        let tasks = self.machine.enqueue(pid.0, cmd, block_for);
        let mut actions: Vec<Action> = Vec::new();
        let ghost list = tasks@;
        self.process_tasks(tasks, &mut actions);
        proof {
            let a = old(self)@;
            assert(views(actions@) =~= actions_of(a.pipes, list));
            assert(self@.edits =~= a.edits);
            assert forall|e: usize|
                #![trigger self@.edits.contains_key(e)]
                self@.edits.contains_key(e) implies self@.awaits(self@.edits[e].0.0) by {
                assert(a.awaits(a.edits[e].0.0));
            }
            lemma_tasks_are_quiet(a.pipes, list, a.machine, pid.0);
            lemma_tasks_are_silent(a.pipes, list, a.machine, pid.0);
        }
        actions
    }

    /// The driver's answer to `Run` for an external program that was spawned.
    pub fn spawned(&mut self, pid: ProcessId)
        requires
            old(self)@.wf(),
            old(self)@.machine.to_run.contains(pid.0),
        ensures
            final(self)@.wf(),
            final(self)@.machine.running == old(self)@.machine.running.insert(
                pid.0,
                ProcessState::Running,
            ),
            final(self)@.machine.to_run == old(self)@.machine.to_run.remove(pid.0),
            final(self)@.machine.finished == old(self)@.machine.finished,
            final(self)@.machine.waiting == old(self)@.machine.waiting,
            final(self)@.machine.wakeups == old(self)@.machine.wakeups,
            final(self)@.pipes == old(self)@.pipes,
            final(self)@.edits == old(self)@.edits,
            final(self)@.next_edit == old(self)@.next_edit,
    {
        self.machine.start(pid.0, ProcessState::Running);
        proof {
            let a = old(self)@;
            assert(self@.edits =~= a.edits);
            assert forall|e: usize|
                #![trigger self@.edits.contains_key(e)]
                self@.edits.contains_key(e) implies self@.awaits(self@.edits[e].0.0) by {
                assert(a.awaits(a.edits[e].0.0));
            }
        }
    }

    /// The part that every completion shares: the scheduler records the
    /// outcome, and the tasks it gives become actions.
    fn finish(&mut self, pid: usize, status: ExitStatus, actions: &mut Vec<Action>, running: bool)
        requires
            old(self)@.wf(),
            !old(self)@.awaits(pid),
            if running {
                old(self)@.machine.running.contains_key(pid)
            } else {
                old(self)@.machine.to_run.contains(pid)
            },
        ensures
            final(self)@.wf(),
            settles(old(self)@, final(self)@, pid, status, views(old(actions)@), views(final(actions)@)),
    {
        let tasks = if running {
            self.machine.completed(pid, status)
        } else {
            self.machine.start_completed(pid, status)
        };
        let ghost list = tasks@;
        let ghost had = views(actions@);
        let ghost middle = self@;
        self.process_tasks(tasks, actions);
        proof {
            let a = old(self)@;
            let b = self@;
            assert(b.edits =~= a.edits);
            assert forall|e: usize|
                #![trigger b.edits.contains_key(e)]
                b.edits.contains_key(e) implies b.awaits(b.edits[e].0.0) by {
                assert(a.awaits(a.edits[e].0.0));
            }
            assert(resolved(a, b, pid, status, list));
        }
    }

    /// The driver's answer to `Run` where the command could not be run:
    /// the process has failed. `message` goes to its stderr, and the
    /// frontend is told exit code 1. `held` says that the driver holds the
    /// ends of the process's outputs, claimed when it was to be spawned.
    pub fn run_failed(&mut self, pid: ProcessId, pipes: WritePipes, held: bool, message: Vec<u8>) -> (actions:
        Vec<Action>)
        requires
            old(self)@.wf(),
            old(self)@.machine.to_run.contains(pid.0),
        ensures
            silent(old(self)@.machine, final(self)@.machine, views(actions@)),
            final(self)@.wf(),
            settles(
                (EngineView { pipes: after_output(old(self)@.pipes, pipes, held), ..old(self)@ }),
                final(self)@,
                pid.0,
                ExitStatus::Failure,
                seq![
                    output_of(old(self)@.pipes, pipes, held, Seq::empty(), message@),
                    ActionView::Report { pid, exit_code: 1 },
                ],
                views(actions@),
            ),
    {
        let mut actions: Vec<Action> = Vec::new();
        let output = self.output(pipes, held, Vec::new(), message);
        actions.push(output);
        actions.push(Action::Report { pid, exit_code: 1 });
        proof {
            assert(views(actions@) =~= seq![
                output_of(old(self)@.pipes, pipes, held, Seq::empty(), message@),
                ActionView::Report { pid, exit_code: 1 },
            ]);
            assert(self@ == (EngineView {
                pipes: after_output(old(self)@.pipes, pipes, held),
                ..old(self)@
            }));
        }
        self.finish(pid.0, ExitStatus::Failure, &mut actions, false);
        proof {
            lemma_settled_is_silent(
                (EngineView { pipes: after_output(old(self)@.pipes, pipes, held), ..old(self)@ }),
                self@,
                pid.0,
                ExitStatus::Failure,
                seq![
                    output_of(old(self)@.pipes, pipes, held, Seq::empty(), message@),
                    ActionView::Report { pid, exit_code: 1 },
                ],
                views(actions@),
            );
        }
        actions
    }

    /// The driver's answer to `Run` for a directory built-in, which is done
    /// at once: what the built-in has to say goes to the process's outputs,
    /// the frontend is told the built-in's exit code, and the scheduler
    /// records the outcome that this code stands for.
    pub fn builtin_done(&mut self, pid: ProcessId, pipes: WritePipes, outcome: Builtin) -> (actions:
        Vec<Action>)
        requires
            old(self)@.wf(),
            old(self)@.machine.to_run.contains(pid.0),
        ensures
            silent(old(self)@.machine, final(self)@.machine, views(actions@)),
            final(self)@.wf(),
            settles(
                (EngineView { pipes: after_output(old(self)@.pipes, pipes, false), ..old(self)@ }),
                final(self)@,
                pid.0,
                ExitStatus::of_code(outcome@.exit_code() as int),
                seq![
                    output_of(old(self)@.pipes, pipes, false, outcome@.out(), outcome@.err()),
                    ActionView::Report { pid, exit_code: outcome@.exit_code() },
                ],
                views(actions@),
            ),
    {
        let exit_code = outcome.exit_code();
        let ghost said = outcome@;
        let (out, err) = outcome.texts();
        let mut actions: Vec<Action> = Vec::new();
        let output = self.output(pipes, false, out, err);
        actions.push(output);
        actions.push(Action::Report { pid, exit_code });
        proof {
            assert(views(actions@) =~= seq![
                output_of(old(self)@.pipes, pipes, false, said.out(), said.err()),
                ActionView::Report { pid, exit_code },
            ]);
            assert(self@ == (EngineView {
                pipes: after_output(old(self)@.pipes, pipes, false),
                ..old(self)@
            }));
        }
        self.finish(pid.0, ExitStatus::from_exit_code(exit_code), &mut actions, false);
        proof {
            lemma_settled_is_silent(
                (EngineView { pipes: after_output(old(self)@.pipes, pipes, false), ..old(self)@ }),
                self@,
                pid.0,
                ExitStatus::of_code(exit_code as int),
                seq![
                    output_of(old(self)@.pipes, pipes, false, said.out(), said.err()),
                    ActionView::Report { pid, exit_code },
                ],
                views(actions@),
            );
        }
        actions
    }

    /// A child has exited: the frontend is told its exit code, and the
    /// scheduler records the outcome.
    pub fn completed(&mut self, pid: ProcessId, exit_code: i64) -> (actions: Vec<Action>)
        requires
            old(self)@.wf(),
            old(self)@.has_child(pid.0),
        ensures
            silent(old(self)@.machine, final(self)@.machine, views(actions@)),
            final(self)@.wf(),
            settles(
                old(self)@,
                final(self)@,
                pid.0,
                ExitStatus::of_code(exit_code as int),
                seq![ActionView::Report { pid, exit_code }],
                views(actions@),
            ),
    {
        let mut actions: Vec<Action> = Vec::new();
        actions.push(Action::Report { pid, exit_code });
        proof {
            assert(views(actions@) =~= seq![ActionView::Report { pid, exit_code }]);
        }
        self.finish(pid.0, ExitStatus::from_exit_code(exit_code), &mut actions, true);
        proof {
            lemma_settled_is_silent(
                old(self)@,
                self@,
                pid.0,
                ExitStatus::of_code(exit_code as int),
                seq![ActionView::Report { pid, exit_code }],
                views(actions@),
            );
        }
        actions
    }

    /// The driver's answer to `Run` for an edit: the file's contents have
    /// been read. The edit gets the next edit id, the process waits for the
    /// frontend, and the frontend is asked to edit.
    pub fn edit_loaded(&mut self, pid: ProcessId, path: String, data: Vec<u8>) -> (actions: Vec<
        Action,
    >)
        requires
            old(self)@.wf(),
            old(self)@.machine.to_run.contains(pid.0),
            old(self)@.next_edit < usize::MAX,
        ensures
            silent(old(self)@.machine, final(self)@.machine, views(actions@)),
            final(self)@.wf(),
            views(actions@) == seq![
                ActionView::RequestEdit {
                    pid,
                    edit_id: old(self)@.next_edit as usize,
                    name: path@,
                    data: data@,
                },
            ],
            final(self)@.edits == old(self)@.edits.insert(
                old(self)@.next_edit as usize,
                (pid, path@),
            ),
            final(self)@.next_edit == old(self)@.next_edit + 1,
            final(self)@.machine.running == old(self)@.machine.running.insert(
                pid.0,
                ProcessState::AwaitingEdit,
            ),
            final(self)@.machine.to_run == old(self)@.machine.to_run.remove(pid.0),
            final(self)@.machine.finished == old(self)@.machine.finished,
            final(self)@.machine.waiting == old(self)@.machine.waiting,
            final(self)@.machine.wakeups == old(self)@.machine.wakeups,
            final(self)@.pipes == old(self)@.pipes,
    {
        let edit_id = self.edit_ids.next();
        self.waiting_edits.insert(edit_id, (pid, path.clone()));
        self.machine.start(pid.0, ProcessState::AwaitingEdit);
        let mut actions: Vec<Action> = Vec::new();
        actions.push(Action::RequestEdit { pid, edit_id, name: path, data });
        proof {
            let a = old(self)@;
            let b = self@;
            assert(b.edits =~= a.edits.insert(edit_id, (pid, path@)));
            assert(views(actions@) =~= seq![
                ActionView::RequestEdit { pid, edit_id, name: path@, data: data@ },
            ]);
            assert forall|e: usize|
                #![trigger b.edits.contains_key(e)]
                b.edits.contains_key(e) implies e < b.next_edit && b.awaits(b.edits[e].0.0) by {
                if e != edit_id {
                    assert(a.edits.contains_key(e));
                    assert(a.awaits(a.edits[e].0.0));
                }
            }
            assert forall|e: usize, f: usize|
                #![trigger b.edits[e], b.edits[f]]
                b.edits.contains_key(e) && b.edits.contains_key(f) && e != f implies b.edits[e].0
                != b.edits[f].0 by {
                if e == edit_id {
                    assert(a.edits.contains_key(f));
                    assert(a.awaits(a.edits[f].0.0));
                } else if f == edit_id {
                    assert(a.edits.contains_key(e));
                    assert(a.awaits(a.edits[e].0.0));
                }
            }
        }
        actions
    }

    /// The frontend's answer to an edit: the new contents are stored under
    /// the edit's path, and the process completes with exit code 0.
    pub fn finish_edit(&mut self, edit_id: usize, data: Vec<u8>) -> (actions: Vec<Action>)
        requires
            old(self)@.wf(),
            old(self)@.edits.contains_key(edit_id),
        ensures
            silent(old(self)@.machine, final(self)@.machine, views(actions@)),
            final(self)@.wf(),
            settles(
                (EngineView { edits: old(self)@.edits.remove(edit_id), ..old(self)@ }),
                final(self)@,
                old(self)@.edits[edit_id].0.0,
                ExitStatus::Success,
                seq![
                    ActionView::StoreFile { path: old(self)@.edits[edit_id].1, data: data@ },
                    ActionView::Report { pid: old(self)@.edits[edit_id].0, exit_code: 0 },
                ],
                views(actions@),
            ),
    {
        let ghost a = self@;
        let (pid, path) = self.waiting_edits.remove(&edit_id).unwrap();
        let mut actions: Vec<Action> = Vec::new();
        let ghost path_view = path@;
        actions.push(Action::StoreFile { path, data });
        actions.push(Action::Report { pid, exit_code: 0 });
        proof {
            let m = self@;
            assert(m.edits =~= a.edits.remove(edit_id));
            assert(m == (EngineView { edits: a.edits.remove(edit_id), ..a }));
            assert(views(actions@) =~= seq![
                ActionView::StoreFile { path: path_view, data: data@ },
                ActionView::Report { pid, exit_code: 0 },
            ]);
            assert(a.awaits(pid.0));
            assert forall|e: usize|
                #![trigger m.edits.contains_key(e)]
                m.edits.contains_key(e) implies m.edits[e].0 != pid by {
                assert(a.edits[e].0 != a.edits[edit_id].0);
            }
        }
        self.finish_awaited(pid.0, &mut actions);
        proof {
            lemma_settled_is_silent(
                (EngineView { edits: a.edits.remove(edit_id), ..a }),
                self@,
                pid.0,
                ExitStatus::Success,
                seq![
                    ActionView::StoreFile { path: path_view, data: data@ },
                    ActionView::Report { pid, exit_code: 0 },
                ],
                views(actions@),
            );
        }
        actions
    }

    /// Completes a process whose edit has just been taken off the table.
    fn finish_awaited(&mut self, pid: usize, actions: &mut Vec<Action>)
        requires
            old(self)@.machine.wf(),
            old(self)@.machine.running.contains_key(pid),
            forall|e: usize|
                #![trigger old(self)@.edits.contains_key(e)]
                old(self)@.edits.contains_key(e) ==> e < old(self)@.next_edit && old(self)@.awaits(
                    old(self)@.edits[e].0.0,
                ) && old(self)@.edits[e].0.0 != pid,
            forall|e: usize, f: usize|
                #![trigger old(self)@.edits[e], old(self)@.edits[f]]
                old(self)@.edits.contains_key(e) && old(self)@.edits.contains_key(f) && e != f
                    ==> old(self)@.edits[e].0 != old(self)@.edits[f].0,
        ensures
            final(self)@.wf(),
            settles(
                old(self)@,
                final(self)@,
                pid,
                ExitStatus::Success,
                views(old(actions)@),
                views(final(actions)@),
            ),
    {
        let tasks = self.machine.completed(pid, ExitStatus::Success);
        let ghost list = tasks@;
        self.process_tasks(tasks, actions);
        proof {
            let a = old(self)@;
            let b = self@;
            assert(b.edits =~= a.edits);
            assert forall|e: usize|
                #![trigger b.edits.contains_key(e)]
                b.edits.contains_key(e) implies b.awaits(b.edits[e].0.0) by {
                assert(a.awaits(a.edits[e].0.0));
            }
            assert(resolved(a, b, pid, ExitStatus::Success, list));
        }
    }

    /// Cancels a process: a child is to be killed, and its exit will be
    /// reported when the driver sees it. For a process that has already
    /// finished there is nothing to do.
    pub fn cancel(&mut self, pid: ProcessId) -> (actions: Vec<Action>)
        requires
            old(self)@.wf(),
            old(self)@.has_child(pid.0) || old(self)@.machine.finished.contains_key(pid.0),
        ensures
            silent(old(self)@.machine, final(self)@.machine, views(actions@)),
            final(self)@ == old(self)@,
            views(actions@) == if old(self)@.has_child(pid.0) {
                seq![ActionView::Kill { pid }]
            } else {
                Seq::<ActionView>::empty()
            },
    {
        let mut actions: Vec<Action> = Vec::new();
        match self.machine.status(pid.0) {
            Status::Running(_) => {
                actions.push(Action::Kill { pid });
                assert(views(actions@) =~= seq![ActionView::Kill { pid }]);
            },
            Status::Exited(_) => {
                assert(views(actions@) =~= Seq::<ActionView>::empty());
            },
        }
        actions
    }

    /// Makes a file that the driver has created the far end of a pipe.
    pub fn open_output_file(&mut self, pipe: WritePipe) -> (res: Result<(), PipeError>)
        ensures
            final(self)@ == (EngineView {
                pipes: step(old(self)@.pipes, PipeOp::OpenOutputFile(pipe.0)),
                ..old(self)@
            }),
            res is Ok <==> !old(self)@.pipes.contains_key(pipe.0),
            res matches Err(e) ==> e == PipeError::AlreadyOpen,
    {
        self.pipes.open_output_file(pipe)
    }

    /// Makes a file that the driver has opened the far end of a pipe.
    pub fn open_input_file(&mut self, pipe: ReadPipe) -> (res: Result<(), PipeError>)
        ensures
            final(self)@ == (EngineView {
                pipes: step(old(self)@.pipes, PipeOp::OpenInputFile(pipe.0)),
                ..old(self)@
            }),
            res is Ok <==> !old(self)@.pipes.contains_key(pipe.0),
            res matches Err(e) ==> e == PipeError::AlreadyOpen,
    {
        self.pipes.open_input_file(pipe)
    }

    /// A message of the frontend about an in-band pipe. `BeginRead` claims
    /// the pipe's reading end for a reader that streams it; `Read` is an
    /// advisory budget and calls for nothing.
    pub fn pipe_message(&mut self, pipe: GenericPipe, msg: PipeMessage) -> (actions: Vec<Action>)
        requires
            msg.is_request(),
        ensures
            silent(old(self)@.machine, final(self)@.machine, views(actions@)),
            msg is BeginRead ==> views(actions@) == seq![
                ActionView::StartReading {
                    pipe,
                    source: claim_of(old(self)@.pipes, PipeOp::ReadEnd(pipe.0)),
                },
            ] && final(self)@ == (EngineView {
                pipes: step(old(self)@.pipes, PipeOp::ReadEnd(pipe.0)),
                ..old(self)@
            }),
            msg is Read ==> views(actions@) == Seq::<ActionView>::empty() && final(self)@ == old(
                self,
            )@,
    {
        let mut actions: Vec<Action> = Vec::new();
        match msg {
            PipeMessage::BeginRead => {
                let source = self.pipes.read_end(pipe.to_read());
                actions.push(Action::StartReading { pipe, source });
                assert(views(actions@) =~= seq![
                    ActionView::StartReading {
                        pipe,
                        source: claim_of(old(self)@.pipes, PipeOp::ReadEnd(pipe.0)),
                    },
                ]);
            },
            _ => {
                assert(views(actions@) =~= Seq::<ActionView>::empty());
            },
        }
        actions
    }
}

/// The scheduler has resolved the completion of `pid` with `status` between
/// the engine states `a` and `b`, and `tasks` are the tasks that go with it.
pub open spec fn resolved(
    a: EngineView,
    b: EngineView,
    pid: usize,
    status: ExitStatus,
    tasks: Seq<Task<usize, RunCmd>>,
) -> bool {
    &&& b.machine.wf()
    &&& b.machine == a.machine.complete(pid, status).0
    &&& tasks == a.machine.complete(pid, status).1
    &&& advances(a.machine.record(pid, status), b.machine, pid)
    &&& tasks_match(a.machine.record(pid, status), b.machine, tasks)
    &&& newly_ready(a.machine, b.machine)
    &&& b.pipes == pipes_after(a.pipes, tasks)
    &&& b.edits == a.edits
    &&& b.next_edit == a.next_edit
}

/// What an event that ends the process `pid` with `status` comes to. The
/// scheduler records the outcome and resolves the dependents of `pid`, which
/// gives its tasks in order. The actions are those in `first`, then, for
/// each task in order, the action it calls for.
pub open spec fn settles(
    a: EngineView,
    b: EngineView,
    pid: usize,
    status: ExitStatus,
    first: Seq<ActionView>,
    actions: Seq<ActionView>,
) -> bool {
    resolved(a, b, pid, status, a.machine.complete(pid, status).1) && actions == first
        + actions_of(a.pipes, a.machine.complete(pid, status).1)
}

/// The actions that follow a completion start only processes that waited:
/// none that had been started before is started again or asked to edit.
pub proof fn lemma_settled_is_quiet(
    a: EngineView,
    b: EngineView,
    pid: usize,
    status: ExitStatus,
    first: Seq<ActionView>,
    actions: Seq<ActionView>,
)
    requires
        a.machine.wf(),
        a.machine.to_run.contains(pid) || a.machine.running.contains_key(pid),
        settles(a, b, pid, status, first, actions),
        forall|i: int| 0 <= i < first.len() ==> opens(#[trigger] first[i]) is None,
    ensures
        quiet(a.machine, b.machine, actions),
{
    let tasks = a.machine.complete(pid, status).1;
    let m = a.machine.record(pid, status);
    lemma_actions_follow_tasks(a.pipes, tasks);
    assert forall|i: int| 0 <= i < actions.len() implies (opens(
        #[trigger] actions[i],
    ) matches Some(p) ==> !begun(a.machine, p.0)) by {
        if i >= first.len() {
            let k = i - first.len();
            assert(actions[i] == actions_of(a.pipes, tasks)[k]);
            assert(m.waiting.contains_key(tasks[k].id()));
        } else {
            assert(actions[i] == first[i]);
        }
    }
    assert forall|p: usize| #![trigger begun(b.machine, p)] begun(a.machine, p) implies begun(
        b.machine,
        p,
    ) by {
        if a.machine.finished.contains_key(p) {
            assert(m.finished.contains_key(p));
        } else if p == pid {
            assert(m.finished.contains_key(p));
        } else {
            assert(m.running.contains_key(p));
        }
    }
}

/// The actions of a list of tasks are as many as the tasks, and each speaks
/// of its task's process.
pub proof fn lemma_actions_follow_tasks(pipes: Map<usize, Ends>, tasks: Seq<Task<usize, RunCmd>>)
    ensures
        actions_of(pipes, tasks).len() == tasks.len(),
        forall|i: int|
            0 <= i < tasks.len() ==> (opens(#[trigger] actions_of(pipes, tasks)[i]) matches Some(
                p,
            ) ==> p.0 == tasks[i].id()),
        forall|i: int|
            0 <= i < tasks.len() ==> names(#[trigger] actions_of(pipes, tasks)[i]) == Some(
                ProcessId(tasks[i].id()),
            ),
    decreases tasks.len(),
{
    if tasks.len() > 0 {
        lemma_actions_follow_tasks(pipes, tasks.drop_last());
        assert forall|i: int| 0 <= i < tasks.len() implies (opens(
            #[trigger] actions_of(pipes, tasks)[i],
        ) matches Some(p) ==> p.0 == tasks[i].id()) && names(actions_of(pipes, tasks)[i]) == Some(
            ProcessId(tasks[i].id()),
        ) by {
            if i < tasks.len() - 1 {
                assert(actions_of(pipes, tasks)[i] == actions_of(pipes, tasks.drop_last())[i]);
                assert(tasks.drop_last()[i] == tasks[i]);
            }
        }
    }
}

/// The actions that follow a completion name only the process that has
/// ended and processes that waited: none that had finished before.
pub proof fn lemma_settled_is_silent(
    a: EngineView,
    b: EngineView,
    pid: usize,
    status: ExitStatus,
    first: Seq<ActionView>,
    actions: Seq<ActionView>,
)
    requires
        a.machine.wf(),
        a.machine.to_run.contains(pid) || a.machine.running.contains_key(pid),
        settles(a, b, pid, status, first, actions),
        forall|i: int|
            0 <= i < first.len() ==> (names(#[trigger] first[i]) matches Some(p) ==> p.0 == pid),
    ensures
        silent(a.machine, b.machine, actions),
{
    let tasks = a.machine.complete(pid, status).1;
    let m = a.machine.record(pid, status);
    lemma_actions_follow_tasks(a.pipes, tasks);
    assert forall|i: int| 0 <= i < actions.len() implies (names(
        #[trigger] actions[i],
    ) matches Some(p) ==> !a.machine.finished.contains_key(p.0)) by {
        if i >= first.len() {
            let k = i - first.len();
            assert(actions[i] == actions_of(a.pipes, tasks)[k]);
            assert(m.waiting.contains_key(tasks[k].id()));
            assert(a.machine.waiting.contains_key(tasks[k].id()));
        } else {
            assert(actions[i] == first[i]);
        }
    }
    assert forall|p: usize|
        #![trigger b.machine.finished.contains_key(p)]
        a.machine.finished.contains_key(p) implies b.machine.finished.contains_key(p) by {
        assert(m.finished.contains_key(p));
    }
}

/// The actions of the tasks of one enqueue name only the new process.
pub proof fn lemma_tasks_are_silent(
    pipes: Map<usize, Ends>,
    tasks: Seq<Task<usize, RunCmd>>,
    m: MachineView<RunCmd, ProcessState>,
    id: usize,
)
    requires
        !m.knows(id),
        forall|i: int| 0 <= i < tasks.len() ==> (#[trigger] tasks[i]).id() == id,
    ensures
        forall|i: int|
            0 <= i < actions_of(pipes, tasks).len() ==> (names(
                #[trigger] actions_of(pipes, tasks)[i],
            ) matches Some(pid) ==> !m.finished.contains_key(pid.0)),
{
    lemma_actions_follow_tasks(pipes, tasks);
}

/// The actions of the tasks of one enqueue start no process that had
/// begun before.
pub proof fn lemma_tasks_are_quiet(
    pipes: Map<usize, Ends>,
    tasks: Seq<Task<usize, RunCmd>>,
    m: MachineView<RunCmd, ProcessState>,
    id: usize,
)
    requires
        !m.knows(id),
        forall|i: int| 0 <= i < tasks.len() ==> (#[trigger] tasks[i]).id() == id,
    ensures
        forall|i: int|
            0 <= i < actions_of(pipes, tasks).len() ==> (opens(
                #[trigger] actions_of(pipes, tasks)[i],
            ) matches Some(pid) ==> !begun(m, pid.0)),
    decreases tasks.len(),
{
    if tasks.len() > 0 {
        let init = tasks.drop_last();
        assert forall|i: int| 0 <= i < init.len() implies (#[trigger] init[i]).id() == id by {
            assert(init[i] == tasks[i]);
        }
        lemma_tasks_are_quiet(pipes, init, m, id);
        assert(tasks.last() == tasks[tasks.len() - 1]);
    }
}

} // verus!
