//! Plans: the steps a frontend takes to run one command line, with the pipes
//! that connect them.

use vstd::prelude::*;
use crate::ids::Ids;
use crate::protocol::{Command, CommandView};

verus! {

/// A position in the stack of remotes, counted from the bottom.
#[derive(Copy, Clone, Debug, PartialEq)]
pub struct RemoteRef(pub usize);

/// The remotes that are stacked at the moment, the innermost last.
pub struct Remotes {
    pub stack: Vec<RemoteRef>,
}

/// A process of a plan and the plan's pipes that serve as its stdio.
#[derive(Clone, Debug, PartialEq)]
pub struct PlanProcess {
    pub id: usize,
    pub stdin: usize,
    pub stdout: usize,
    pub stderr: usize,
}

#[derive(Clone, Debug, PartialEq)]
pub enum RemoteStep {
    OpenInputFile(String),
    OpenOutputFile(String),
    Run(Command, PlanProcess),
    BeginRemote(Command),
    Close,
}

pub ghost enum RemoteStepView {
    OpenInputFile(Seq<char>),
    OpenOutputFile(Seq<char>),
    Run(CommandView, PlanProcess),
    BeginRemote(CommandView),
    Close,
}

impl View for RemoteStep {
    type V = RemoteStepView;

    open spec fn view(&self) -> RemoteStepView {
        match self {
            RemoteStep::OpenInputFile(path) => RemoteStepView::OpenInputFile(path@),
            RemoteStep::OpenOutputFile(path) => RemoteStepView::OpenOutputFile(path@),
            RemoteStep::Run(cmd, process) => RemoteStepView::Run(cmd@, *process),
            RemoteStep::BeginRemote(cmd) => RemoteStepView::BeginRemote(cmd@),
            RemoteStep::Close => RemoteStepView::Close,
        }
    }
}

/// One step of a plan. A `Pipe` step and an `OpenOutputFile` step each make
/// the plan's next pipe: pipes are numbered in the order of these steps.
#[derive(Clone, Debug, PartialEq)]
pub enum Step {
    Remote(RemoteRef, RemoteStep),
    Pipe,
    Pager,
    Editor,
}

pub ghost enum StepView {
    Remote(RemoteRef, RemoteStepView),
    Pipe,
    Pager,
    Editor,
}

impl View for Step {
    type V = StepView;

    open spec fn view(&self) -> StepView {
        match self {
            Step::Remote(remote, step) => StepView::Remote(*remote, step@),
            Step::Pipe => StepView::Pipe,
            Step::Pager => StepView::Pager,
            Step::Editor => StepView::Editor,
        }
    }
}

#[derive(Clone, Debug, PartialEq)]
pub struct GatherId(pub usize);

#[derive(Clone, Debug, PartialEq)]
pub struct PagerId(pub usize);

/// Where the reading side of a pipe ends up.
#[derive(Clone, Debug, PartialEq)]
pub enum Sink {
    DevNull,
    Stdout,
    Stderr,
    Gather(GatherId),
    Pager(PagerId),
}

#[derive(Clone, Debug, PartialEq)]
pub struct Plan {
    pub steps: Vec<Step>,
    pub stdin: Option<usize>,
    pub gather_count: usize,
    pub pager_count: usize,
    pub sink_map: Vec<Option<Sink>>,
}

pub ghost struct PlanView {
    pub steps: Seq<StepView>,
    pub stdin: Option<usize>,
    pub gather_count: usize,
    pub pager_count: usize,
    pub sink_map: Seq<Option<Sink>>,
}

impl View for Plan {
    type V = PlanView;

    open spec fn view(&self) -> PlanView {
        PlanView {
            steps: self.steps@.map_values(|s: Step| s@),
            stdin: self.stdin,
            gather_count: self.gather_count,
            pager_count: self.pager_count,
            sink_map: self.sink_map@,
        }
    }
}

impl PlanView {
    /// The plan without steps.
    pub open spec fn empty() -> PlanView {
        PlanView {
            steps: Seq::empty(),
            stdin: None,
            gather_count: 0,
            pager_count: 0,
            sink_map: Seq::empty(),
        }
    }

    /// The plan with one more step.
    pub open spec fn step(self, step: StepView) -> PlanView {
        PlanView { steps: self.steps.push(step), ..self }
    }

    /// The plan in which the pipe `stream` ends in `sink`. The map of sinks
    /// is filled up with `None` as far as needed.
    pub open spec fn with_sink(self, stream: usize, sink: Sink) -> PlanView {
        PlanView { sink_map: padded(self.sink_map, stream as int + 1).update(stream as int, Some(sink)), ..self }
    }
}

/// The mathematical value of a redirection: the remote and the file's name.
pub open spec fn redirect_view(redirect: Option<(RemoteRef, String)>) -> Option<
    (RemoteRef, Seq<char>),
> {
    match redirect {
        Some((r, file)) => Some((r, file@)),
        None => None,
    }
}

/// `map`, filled up with `None` to at least `len` entries.
pub open spec fn padded(map: Seq<Option<Sink>>, len: int) -> Seq<Option<Sink>> {
    if map.len() >= len {
        map
    } else {
        Seq::new(len as nat, |i: int| if i < map.len() { map[i] } else { None })
    }
}

/// Builds a plan step by step and keeps track of which end of which pipe is
/// still free.
pub struct PlanBuilder {
    plan: Plan,
    proc_ids: Ids,
    pipes: Vec<(bool, bool)>,
}

pub ghost struct PlanBuilderView {
    /// The plan so far.
    pub plan: PlanView,
    /// The number that the next process gets.
    pub next_process: nat,
    /// For each pipe, whether its reading end is free and whether its
    /// writing end is free.
    pub pipes: Seq<(bool, bool)>,
}

impl View for PlanBuilder {
    type V = PlanBuilderView;

    closed spec fn view(&self) -> PlanBuilderView {
        PlanBuilderView { plan: self.plan@, next_process: self.proc_ids@, pipes: self.pipes@ }
    }
}

impl PlanBuilderView {
    /// A builder that has built nothing.
    pub open spec fn empty() -> PlanBuilderView {
        PlanBuilderView { plan: PlanView::empty(), next_process: 0, pipes: Seq::empty() }
    }

    /// The builder after a pipe has been added.
    pub open spec fn with_pipe(self) -> PlanBuilderView {
        PlanBuilderView {
            plan: self.plan.step(StepView::Pipe),
            pipes: self.pipes.push((true, true)),
            ..self
        }
    }

    /// The builder after a pipe into a file has been added.
    pub open spec fn with_file_output(self, remote: RemoteRef, file: Seq<char>) -> PlanBuilderView {
        PlanBuilderView {
            plan: self.plan.step(StepView::Remote(remote, RemoteStepView::OpenOutputFile(file))),
            pipes: self.pipes.push((false, true)),
            ..self
        }
    }

    /// The builder after a process has been added that takes the reading end
    /// of `stdin` and the writing ends of `stdout` and `stderr`.
    pub open spec fn with_command(
        self,
        remote: RemoteRef,
        cmd: CommandView,
        stdin: usize,
        stdout: usize,
        stderr: usize,
    ) -> PlanBuilderView {
        let first = self.pipes.update(stdin as int, (false, self.pipes[stdin as int].1));
        let second = first.update(stdout as int, (first[stdout as int].0, false));
        PlanBuilderView {
            plan: self.plan.step(
                StepView::Remote(
                    remote,
                    RemoteStepView::Run(
                        cmd,
                        PlanProcess { id: self.next_process as usize, stdin, stdout, stderr },
                    ),
                ),
            ),
            next_process: self.next_process + 1,
            pipes: second.update(stderr as int, (second[stderr as int].0, false)),
        }
    }

    /// The pipe exists and its reading end is free.
    pub open spec fn can_read(self, pipe: usize) -> bool {
        pipe < self.pipes.len() && self.pipes[pipe as int].0
    }

    /// The pipe exists and its writing end is free.
    pub open spec fn can_write(self, pipe: usize) -> bool {
        pipe < self.pipes.len() && self.pipes[pipe as int].1
    }

    /// The pipes after the reading end of `pipe` has been taken.
    pub open spec fn read_taken(self, pipe: usize) -> Seq<(bool, bool)> {
        self.pipes.update(pipe as int, (false, self.pipes[pipe as int].1))
    }

    /// The pipes after the writing end of `pipe` has been taken.
    pub open spec fn write_taken(self, pipe: usize) -> Seq<(bool, bool)> {
        self.pipes.update(pipe as int, (self.pipes[pipe as int].0, false))
    }
}

impl PlanBuilder {
    pub fn new() -> (b: PlanBuilder)
        ensures
            b@ == PlanBuilderView::empty(),
    {
        let b = PlanBuilder {
            plan: Plan {
                steps: Vec::new(),
                stdin: None,
                gather_count: 0,
                pager_count: 0,
                sink_map: Vec::new(),
            },
            proc_ids: Ids::new(),
            pipes: Vec::new(),
        };
        assert(b@.plan.steps =~= Seq::empty());
        b
    }

    /// The number of pipes added so far.
    pub fn pipe_count(&self) -> (n: usize)
        ensures
            n == self@.pipes.len(),
    {
        self.pipes.len()
    }

    /// The plan that has been built.
    pub fn build(self) -> (plan: Plan)
        ensures
            plan@ == self@.plan,
    {
        self.plan
    }

    fn push_step(&mut self, step: Step)
        ensures
            final(self)@.plan == old(self)@.plan.step(step@),
            final(self)@.next_process == old(self)@.next_process,
            final(self)@.pipes == old(self)@.pipes,
    {
        self.plan.steps.push(step);
        assert(self@.plan.steps =~= old(self)@.plan.steps.push(step@));
    }

    /// Adds a pipe with both ends free and returns its number.
    pub fn pipe(&mut self) -> (id: usize)
        ensures
            id == old(self)@.pipes.len(),
            final(self)@ == old(self)@.with_pipe(),
    {
        let id = self.pipes.len();
        self.pipes.push((true, true));
        self.push_step(Step::Pipe);
        id
    }

    /// Ends the plan's remote.
    pub fn exit(&mut self, remote: RemoteRef)
        ensures
            final(self)@.plan == old(self)@.plan.step(
                StepView::Remote(remote, RemoteStepView::Close),
            ),
            final(self)@.pipes == old(self)@.pipes,
            final(self)@.next_process == old(self)@.next_process,
    {
        self.push_step(Step::Remote(remote, RemoteStep::Close));
    }

    /// Adds a pipe that writes into a file on `remote`: only its writing end
    /// is free. Returns the pipe's number.
    pub fn add_file_output(&mut self, remote: RemoteRef, file: String) -> (id: usize)
        ensures
            id == old(self)@.pipes.len(),
            final(self)@ == old(self)@.with_file_output(remote, file@),
    {
        let id = self.pipes.len();
        self.pipes.push((false, true));
        self.push_step(Step::Remote(remote, RemoteStep::OpenOutputFile(file)));
        id
    }

    /// Takes the reading end of a pipe.
    pub fn use_read_end(&mut self, pipe: usize)
        requires
            old(self)@.can_read(pipe),
        ensures
            final(self)@.pipes == old(self)@.read_taken(pipe),
            final(self)@.plan == old(self)@.plan,
            final(self)@.next_process == old(self)@.next_process,
    {
        let ends = self.pipes[pipe];
        self.pipes.set(pipe, (false, ends.1));
    }

    /// Takes the writing end of a pipe.
    pub fn use_write_end(&mut self, pipe: usize)
        requires
            old(self)@.can_write(pipe),
        ensures
            final(self)@.pipes == old(self)@.write_taken(pipe),
            final(self)@.plan == old(self)@.plan,
            final(self)@.next_process == old(self)@.next_process,
    {
        let ends = self.pipes[pipe];
        self.pipes.set(pipe, (ends.0, false));
    }

    /// Names the pipe that the user's input is written to.
    pub fn set_stdin(&mut self, stdin: Option<usize>)
        ensures
            final(self)@.plan == (PlanView { stdin: stdin, ..old(self)@.plan }),
            final(self)@.pipes == old(self)@.pipes,
            final(self)@.next_process == old(self)@.next_process,
    {
        self.plan.stdin = stdin;
    }

    /// True when `stream` has no sink yet and the map of sinks can grow to hold it.
    pub fn sink_is_free(&self, stream: usize) -> (free: bool)
        ensures
            free == (stream < usize::MAX && self@.plan.sink_free(stream)),
    {
        stream < usize::MAX && (stream >= self.plan.sink_map.len()
            || self.plan.sink_map[stream].is_none())
    }

    /// Sends the pipe `stdout` to the terminal's standard output.
    pub fn add_stdout(&mut self, stdout: usize)
        requires
            stdout < usize::MAX,
            old(self)@.plan.sink_free(stdout),
        ensures
            final(self)@.plan == old(self)@.plan.with_sink(stdout, Sink::Stdout),
            final(self)@.pipes == old(self)@.pipes,
            final(self)@.next_process == old(self)@.next_process,
    {
        self.sink(stdout, Sink::Stdout);
    }

    /// Sends the pipe `stderr` to the terminal's standard error.
    pub fn add_stderr(&mut self, stderr: usize)
        requires
            stderr < usize::MAX,
            old(self)@.plan.sink_free(stderr),
        ensures
            final(self)@.plan == old(self)@.plan.with_sink(stderr, Sink::Stderr),
            final(self)@.pipes == old(self)@.pipes,
            final(self)@.next_process == old(self)@.next_process,
    {
        self.sink(stderr, Sink::Stderr);
    }

    /// True when a command can be added with these pipes as its stdio.
    pub fn can_add_command(&self, stdin: usize, stdout: usize, stderr: usize) -> (ok: bool)
        ensures
            ok == self@.accepts_command(stdin, stdout, stderr),
    {
        !self.proc_ids.is_exhausted() && stdin < self.pipes.len() && stdout < self.pipes.len()
            && stderr < self.pipes.len() && stdout != stderr && self.pipes[stdin].0
            && self.pipes[stdout].1 && self.pipes[stderr].1
    }

    /// Adds a process that runs `cmd` on `remote`, reading from the pipe
    /// `stdin` and writing to the pipes `stdout` and `stderr`. The three ends
    /// are taken.
    pub fn add_command(
        &mut self,
        remote: RemoteRef,
        cmd: Command,
        stdin: usize,
        stdout: usize,
        stderr: usize,
    )
        requires
            old(self)@.accepts_command(stdin, stdout, stderr),
        ensures
            final(self)@ == old(self)@.with_command(remote, cmd@, stdin, stdout, stderr),
            !final(self)@.can_read(stdin),
            !final(self)@.can_write(stdout),
            !final(self)@.can_write(stderr),
    {
        self.use_read_end(stdin);
        self.use_write_end(stdout);
        self.use_write_end(stderr);
        let id = self.proc_ids.next();
        self.push_step(
            Step::Remote(remote, RemoteStep::Run(cmd, PlanProcess { id, stdin, stdout, stderr })),
        );
    }

    /// Reserves a gathering buffer and returns its number.
    pub fn add_gather(&mut self) -> (id: GatherId)
        requires
            old(self)@.plan.gather_count < usize::MAX,
        ensures
            id.0 == old(self)@.plan.gather_count,
            final(self)@.plan == (PlanView {
                gather_count: (old(self)@.plan.gather_count + 1) as usize,
                ..old(self)@.plan
            }),
            final(self)@.pipes == old(self)@.pipes,
            final(self)@.next_process == old(self)@.next_process,
    {
        let id = self.plan.gather_count;
        self.plan.gather_count = self.plan.gather_count + 1;
        GatherId(id)
    }

    /// Reserves a pager and returns its number.
    pub fn add_pager(&mut self) -> (id: PagerId)
        requires
            old(self)@.plan.pager_count < usize::MAX,
        ensures
            id.0 == old(self)@.plan.pager_count,
            final(self)@.plan == (PlanView {
                pager_count: (old(self)@.plan.pager_count + 1) as usize,
                ..old(self)@.plan
            }),
            final(self)@.pipes == old(self)@.pipes,
            final(self)@.next_process == old(self)@.next_process,
    {
        let id = self.plan.pager_count;
        self.plan.pager_count = self.plan.pager_count + 1;
        PagerId(id)
    }

    /// Sends the reading side of the pipe `stream` to `sink`.
    pub fn sink(&mut self, stream: usize, sink: Sink)
        requires
            stream < usize::MAX,
            old(self)@.plan.sink_free(stream),
        ensures
            final(self)@.plan == old(self)@.plan.with_sink(stream, sink),
            final(self)@.pipes == old(self)@.pipes,
            final(self)@.next_process == old(self)@.next_process,
    {
        let ghost before = self.plan.sink_map@;
        while self.plan.sink_map.len() <= stream
            invariant
                stream < usize::MAX,
                self.plan.steps == old(self).plan.steps,
                self.plan.stdin == old(self).plan.stdin,
                self.plan.gather_count == old(self).plan.gather_count,
                self.plan.pager_count == old(self).plan.pager_count,
                self.proc_ids == old(self).proc_ids,
                self.pipes == old(self).pipes,
                before == old(self).plan.sink_map@,
                self.plan.sink_map@.len() >= before.len(),
                self.plan.sink_map@.len() <= stream + 1 || self.plan.sink_map@.len() == before.len(),
                forall|i: int|
                    0 <= i < self.plan.sink_map@.len() ==> #[trigger] self.plan.sink_map@[i] == if i
                        < before.len() {
                        before[i]
                    } else {
                        None
                    },
            decreases stream + 1 - self.plan.sink_map.len(),
        {
            self.plan.sink_map.push(None);
        }
        assert(self.plan.sink_map@ =~= padded(before, stream as int + 1));
        self.plan.sink_map.set(stream, Some(sink));
    }
}

impl PlanView {
    /// No sink has been chosen for the pipe `stream`.
    pub open spec fn sink_free(self, stream: usize) -> bool {
        stream < self.sink_map.len() ==> self.sink_map[stream as int] is None
    }
}

impl PlanBuilderView {
    /// A command with these pipes as its stdio can be added: the three ends
    /// are free, its two outputs are different pipes, and a process number
    /// is left.
    pub open spec fn accepts_command(self, stdin: usize, stdout: usize, stderr: usize) -> bool {
        &&& self.next_process < usize::MAX
        &&& self.can_read(stdin)
        &&& self.can_write(stdout)
        &&& self.can_write(stderr)
        &&& stdout != stderr
    }
}

impl Plan {
    /// The plan of an empty command line: one pipe that is both the user's
    /// input and the terminal's output, and one for the terminal's errors.
    pub fn empty() -> (plan: Plan)
        ensures
            plan@ == PlanView::empty().step(StepView::Pipe).step(StepView::Pipe).with_stdin(
                Some(0),
            ).with_sink(0, Sink::Stdout).with_sink(1, Sink::Stderr),
    {
        let mut b = PlanBuilder::new();
        let stdout = b.pipe();
        b.set_stdin(Some(stdout));
        b.add_stdout(stdout);
        let stderr = b.pipe();
        b.add_stderr(stderr);
        let plan = b.build();
        proof {
            let want = PlanView::empty().step(StepView::Pipe).step(StepView::Pipe).with_stdin(
                Some(0),
            ).with_sink(0, Sink::Stdout).with_sink(1, Sink::Stderr);
            assert(plan@.sink_map =~= want.sink_map);
            assert(plan@.steps =~= want.steps);
        }
        plan
    }

    /// The plan that runs one external program on `remote`: `words` are the
    /// program and its arguments. With a `redirect` the program's output goes
    /// to that file on that remote, otherwise to the terminal.
    pub fn single(remote: RemoteRef, words: Vec<String>, redirect: Option<(RemoteRef, String)>) -> (plan:
        Plan)
        requires
            words@.len() > 0,
        ensures
            plan@ == Self::single_spec(remote, words.deep_view(), redirect_view(redirect)),
    {
        let mut words = words;
        let ghost all = words.deep_view();
        let ghost target = redirect_view(redirect);
        let head = words.remove(0);
        let rest = words;
        assert(rest.deep_view() =~= all.drop_first());
        assert(head@ == all[0]);
        let mut b = PlanBuilder::new();
        let stdin = b.pipe();
        let (output, stdout) = match redirect {
            Some((file_remote, file)) => (b.add_file_output(file_remote, file), None),
            None => {
                let output = b.pipe();
                (output, Some(output))
            },
        };
        let stderr = b.pipe();
        b.add_command(remote, Command::Unknown(head, rest), stdin, output, stderr);
        b.set_stdin(Some(stdin));
        match stdout {
            Some(stdout) => {
                b.add_stdout(stdout);
            },
            None => {},
        }
        b.add_stderr(stderr);
        let plan = b.build();
        proof {
            let want = Self::single_spec(remote, all, target);
            assert(plan@.sink_map =~= want.sink_map);
            assert(plan@.steps =~= want.steps);
        }
        plan
    }

    /// What [`Plan::single`] builds: a pipe for the input, a pipe or an
    /// output file for the output, a pipe for the errors, then the process.
    pub open spec fn single_spec(
        remote: RemoteRef,
        words: Seq<Seq<char>>,
        redirect: Option<(RemoteRef, Seq<char>)>,
    ) -> PlanView {
        let output = match redirect {
            Some((r, file)) => StepView::Remote(r, RemoteStepView::OpenOutputFile(file)),
            None => StepView::Pipe,
        };
        let run = StepView::Remote(
            remote,
            RemoteStepView::Run(
                CommandView::Unknown(words[0], words.drop_first()),
                PlanProcess { id: 0, stdin: 0, stdout: 1, stderr: 2 },
            ),
        );
        let steps = PlanView::empty().step(StepView::Pipe).step(output).step(StepView::Pipe).step(
            run,
        ).with_stdin(Some(0));
        match redirect {
            Some(_) => steps.with_sink(2, Sink::Stderr),
            None => steps.with_sink(1, Sink::Stdout).with_sink(2, Sink::Stderr),
        }
    }
}

impl PlanView {
    /// The plan with `stdin` as the pipe that the user's input is written to.
    pub open spec fn with_stdin(self, stdin: Option<usize>) -> PlanView {
        PlanView { stdin: stdin, ..self }
    }
}

} // verus!
