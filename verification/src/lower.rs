//! From a command line to a plan.
//!
//! Each command of the line becomes a process of the plan, with a new pipe
//! as its input. The targets of a command are laid out from the last to the
//! first, so that each command writes into the input of what comes after it.
//! The words of a command are first rewritten by the aliases; `cd` and
//! `micro` are built in.

use vstd::prelude::*;
use vstd::string::*;
use crate::parse::{
    denotes, line, try_parse_input, Ast, Cmd, RedirectClause, Stream, Target, Word,
};
use crate::plan::{
    Plan, PlanBuilder, PlanBuilderView, PlanView, RemoteRef, Remotes, Sink, StepView,
    RemoteStepView,
};
use crate::prefs::Prefs;
use crate::protocol::{Command, CommandView};

verus! {

/// Why a command line does not become a plan.
#[derive(Clone, Copy, Debug, PartialEq, Eq, Structural)]
pub enum LowerError {
    /// The line is not well formed.
    Syntax,
    /// A built-in got more than its one argument.
    TooManyArgs,
    /// A built-in got no argument.
    NotEnoughArgs,
    /// An alias that was tried is broken.
    BrokenAlias,
    /// The aliases have left no word.
    NoCommand,
    /// The command is `nak`, a shell inside the shell.
    NestedShell,
    /// The line puts commands in sequence.
    Unsupported,
    /// No remote is stacked.
    NoRemote,
    /// An end of a pipe is to be used twice, or no process number is left.
    PipeInUse,
}

/// The one argument of a built-in.
pub open spec fn single_arg(args: Seq<Seq<char>>) -> Result<Seq<char>, LowerError> {
    if args.len() == 0 {
        Err(LowerError::NotEnoughArgs)
    } else if args.len() == 1 {
        Ok(args[0])
    } else {
        Err(LowerError::TooManyArgs)
    }
}

/// The one argument of a built-in: an error where there is none or more
/// than one.
pub fn check_single_arg(items: Vec<String>) -> (res: Result<String, LowerError>)
    ensures
        match res {
            Ok(arg) => single_arg(items.deep_view()) == Ok::<Seq<char>, LowerError>(arg@),
            Err(e) => single_arg(items.deep_view()) == Err::<Seq<char>, LowerError>(e),
        },
{
    let mut items = items;
    let ghost all = items.deep_view();
    if items.len() == 0 {
        Err(LowerError::NotEnoughArgs)
    } else if items.len() == 1 {
        let arg = items.remove(0);
        assert(arg@ == all[0]);
        Ok(arg)
    } else {
        Err(LowerError::TooManyArgs)
    }
}

/// The texts of a command's words.
pub open spec fn texts(words: Seq<Word>) -> Seq<Seq<char>> {
    words.map_values(|w: Word| w.text())
}

/// The command that a line of words stands for, once the aliases have
/// rewritten it: `cd` sets the directory, `micro` edits a file, and every
/// other first word names a program to run with the other words.
pub open spec fn command_of(prefs: Prefs, words: Seq<Seq<char>>) -> Result<CommandView, LowerError> {
    match prefs.expanded(words) {
        None => Err(LowerError::BrokenAlias),
        Some(items) => if items.len() == 0 {
            Err(LowerError::NoCommand)
        } else if items[0] == "cd"@ {
            match single_arg(items.drop_first()) {
                Ok(dir) => Ok(CommandView::SetDirectory(dir)),
                Err(e) => Err(e),
            }
        } else if items[0] == "micro"@ {
            match single_arg(items.drop_first()) {
                Ok(path) => Ok(CommandView::Edit(path)),
                Err(e) => Err(e),
            }
        } else if items[0] == "nak"@ {
            Err(LowerError::NestedShell)
        } else {
            Ok(CommandView::Unknown(items[0], items.drop_first()))
        },
    }
}

/// Turns the words of one command into what a backend is to run.
pub fn convert_single(_remotes: &Remotes, prefs: &Prefs, cmd: &Cmd) -> (res: Result<
    Command,
    LowerError,
>)
    ensures
        match res {
            Ok(command) => command_of(*prefs, texts(cmd.words@)) == Ok::<CommandView, LowerError>(
                command@,
            ),
            Err(e) => command_of(*prefs, texts(cmd.words@)) == Err::<CommandView, LowerError>(e),
        },
{
    let mut words: Vec<String> = Vec::new();
    let mut i: usize = 0;
    while i < cmd.words.len()
        invariant
            0 <= i <= cmd.words@.len(),
            words.deep_view() == texts(cmd.words@).take(i as int),
        decreases cmd.words@.len() - i,
    {
        let ghost before = words.deep_view();
        words.push(cmd.words[i].expand_string());
        assert(words.deep_view() =~= before.push(cmd.words@[i as int].text()));
        assert(words.deep_view() =~= texts(cmd.words@).take(i + 1));
        i += 1;
    }
    assert(texts(cmd.words@).take(i as int) =~= texts(cmd.words@));
    let mut items = match prefs.try_expand(words) {
        Some(items) => items,
        None => {
            return Err(LowerError::BrokenAlias);
        },
    };
    if items.len() == 0 {
        return Err(LowerError::NoCommand);
    }
    let ghost all = items.deep_view();
    let head = items.remove(0);
    assert(head@ == all[0]);
    assert(items.deep_view() =~= all.drop_first());
    if head == String::from_str("cd") {
        match check_single_arg(items) {
            Ok(dir) => Ok(Command::SetDirectory(dir)),
            Err(e) => Err(e),
        }
    } else if head == String::from_str("micro") {
        match check_single_arg(items) {
            Ok(path) => Ok(Command::Edit(path)),
            Err(e) => Err(e),
        }
    } else if head == String::from_str("nak") {
        Err(LowerError::NestedShell)
    } else {
        Ok(Command::Unknown(head, items))
    }
}

/// The plan builder after a tree has been lowered into it, with the pipe
/// that is the tree's input. `out` and `err` are the pipes that the tree's
/// last command writes to.
pub open spec fn lowered(
    prefs: Prefs,
    remote: RemoteRef,
    ast: Ast,
    b: PlanBuilderView,
    out: usize,
    err: usize,
) -> Result<(PlanBuilderView, usize), LowerError>
    decreases ast, 1int, 0int,
{
    match ast {
        Ast::Empty => Ok((b, out)),
        Ast::Cmd(cmd) => match command_of(prefs, texts(cmd.words@)) {
            Ok(command) => {
                let stdin = b.pipes.len() as usize;
                if b.pipes.len() < usize::MAX && b.with_pipe().accepts_command(stdin, out, err) {
                    Ok((b.with_pipe().with_command(remote, command, stdin, out, err), stdin))
                } else {
                    Err(LowerError::PipeInUse)
                }
            },
            Err(e) => Err(e),
        },
        Ast::Sequence(_, _) => Err(LowerError::Unsupported),
        Ast::Redirect(head, clauses) => match lowered_clauses(
            prefs,
            remote,
            ast,
            clauses@.len() as int,
            b,
            out,
            err,
        ) {
            Ok((b2, out2, err2)) => lowered(prefs, remote, *head, b2, out2, err2),
            Err(e) => Err(e),
        },
    }
}

/// The plan builder after the first `n` clauses of a redirection have been
/// lowered into it, the last of them first, with the pipes that the
/// redirection's head is to write to.
pub open spec fn lowered_clauses(
    prefs: Prefs,
    remote: RemoteRef,
    ast: Ast,
    n: int,
    b: PlanBuilderView,
    out: usize,
    err: usize,
) -> Result<(PlanBuilderView, usize, usize), LowerError>
    decreases ast, 0int, n,
{
    if ast is Redirect && 0 < n <= ast->Redirect_1@.len() {
        let clause = ast->Redirect_1@[n - 1];
        let target = match clause.1 {
            Target::File(path) => if b.pipes.len() < usize::MAX {
                Ok((b.with_file_output(remote, path.text()), b.pipes.len() as usize))
            } else {
                Err(LowerError::PipeInUse)
            },
            Target::Command(inner) => lowered(prefs, remote, inner, b, out, err),
        };
        match target {
            Ok((b1, stdin)) => if b1.pipes.len() < usize::MAX {
                match clause.0 {
                    Stream::Stdout => lowered_clauses(
                        prefs,
                        remote,
                        ast,
                        n - 1,
                        b1.with_pipe(),
                        stdin,
                        b1.pipes.len() as usize,
                    ),
                    Stream::Stderr => lowered_clauses(
                        prefs,
                        remote,
                        ast,
                        n - 1,
                        b1.with_pipe(),
                        b1.pipes.len() as usize,
                        stdin,
                    ),
                }
            } else {
                Err(LowerError::PipeInUse)
            },
            Err(e) => Err(e),
        }
    } else {
        Ok((b, out, err))
    }
}

/// Lowers a tree into a plan: adds its commands and pipes to `plan` and
/// gives the pipe that is the tree's input.
pub fn convert_ast(
    remotes: &Remotes,
    prefs: &Prefs,
    ast: &Ast,
    plan: &mut PlanBuilder,
    stdout: usize,
    stderr: usize,
) -> (res: Result<usize, LowerError>)
    requires
        remotes.stack@.len() > 0,
    ensures
        match res {
            Ok(stdin) => lowered(
                *prefs,
                remotes.stack@.last(),
                *ast,
                old(plan)@,
                stdout,
                stderr,
            ) == Ok::<(PlanBuilderView, usize), LowerError>((final(plan)@, stdin)),
            Err(e) => lowered(*prefs, remotes.stack@.last(), *ast, old(plan)@, stdout, stderr)
                == Err::<(PlanBuilderView, usize), LowerError>(e),
        },
    decreases ast,
{
    let remote = remotes.stack[remotes.stack.len() - 1];
    match ast {
        Ast::Empty => Ok(stdout),
        Ast::Cmd(cmd) => {
            let command = match convert_single(remotes, prefs, cmd) {
                Ok(command) => command,
                Err(e) => {
                    return Err(e);
                },
            };
            let ghost before = plan@;
            if plan.pipe_count() == usize::MAX {
                return Err(LowerError::PipeInUse);
            }
            let stdin = plan.pipe();
            if !plan.can_add_command(stdin, stdout, stderr) {
                return Err(LowerError::PipeInUse);
            }
            plan.add_command(remote, command, stdin, stdout, stderr);
            Ok(stdin)
        },
        Ast::Sequence(_, _) => Err(LowerError::Unsupported),
        Ast::Redirect(head, clauses) => {
            let mut out = stdout;
            let mut err = stderr;
            let mut n = clauses.len();
            while n > 0
                invariant
                    0 <= n <= clauses@.len(),
                    remotes.stack@.len() > 0,
                    remote == remotes.stack@.last(),
                    *ast == Ast::Redirect(*head, *clauses),
                    lowered_clauses(
                        *prefs,
                        remote,
                        *ast,
                        clauses@.len() as int,
                        old(plan)@,
                        stdout,
                        stderr,
                    ) == lowered_clauses(*prefs, remote, *ast, n as int, plan@, out, err),
                decreases n,
            {
                let clause = &clauses[n - 1];
                let stdin = match &clause.1 {
                    Target::File(path) => {
                        if plan.pipe_count() == usize::MAX {
                            return Err(LowerError::PipeInUse);
                        }
                        plan.add_file_output(remote, path.expand_string())
                    },
                    Target::Command(inner) => {
                        match convert_ast(remotes, prefs, inner, plan, out, err) {
                            Ok(stdin) => stdin,
                            Err(e) => {
                                return Err(e);
                            },
                        }
                    },
                };
                if plan.pipe_count() == usize::MAX {
                    return Err(LowerError::PipeInUse);
                }
                match clause.0 {
                    Stream::Stdout => {
                        out = stdin;
                        err = plan.pipe();
                    },
                    Stream::Stderr => {
                        err = stdin;
                        out = plan.pipe();
                    },
                }
                n -= 1;
            }
            convert_ast(remotes, prefs, head, plan, out, err)
        },
    }
}

/// What a command line comes to: the plan of its tree, with two pipes made
/// first for the terminal's output and errors, the tree's input as the
/// plan's input, and the two pipes sent to the terminal.
pub open spec fn plan_of(prefs: Prefs, remote: RemoteRef, ast: Ast) -> Result<PlanView, LowerError> {
    match lowered(prefs, remote, ast, PlanBuilderView::empty().with_pipe().with_pipe(), 0, 1) {
        Ok((b, stdin)) => Ok(
            b.plan.with_stdin(Some(stdin)).with_sink(0, Sink::Stdout).with_sink(1, Sink::Stderr),
        ),
        Err(e) => Err(e),
    }
}

/// What reading a command line on `remote` comes to: a line that is not
/// well formed is a syntax error; else the line has a tree, and the result
/// is the plan of that tree or the error that lowering it gives.
pub open spec fn planned(
    prefs: Prefs,
    remote: RemoteRef,
    bytes: Seq<u8>,
    res: Result<Plan, LowerError>,
) -> bool {
    &&& line(bytes) is None ==> res == Err::<Plan, LowerError>(LowerError::Syntax)
    &&& line(bytes) is Some ==> exists|ast: Ast|
        #![trigger plan_of(prefs, remote, ast)]
        denotes(ast, line(bytes).unwrap()) && match res {
            Ok(plan) => plan_of(prefs, remote, ast) == Ok::<PlanView, LowerError>(plan@),
            Err(e) => plan_of(prefs, remote, ast) == Err::<PlanView, LowerError>(e),
        }
}

/// Reads a command line and makes its plan.
pub fn parse_command_simple(remotes: &Remotes, prefs: &Prefs, input: &str) -> (res: Result<
    Plan,
    LowerError,
>)
    requires
        remotes.stack@.len() > 0,
    ensures
        planned(*prefs, remotes.stack@.last(), input.spec_bytes(), res),
{
    let ast = match try_parse_input(input) {
        Some(ast) => ast,
        None => {
            return Err(LowerError::Syntax);
        },
    };
    let mut p = PlanBuilder::new();
    let stdout = p.pipe();
    let stderr = p.pipe();
    let stdin = match convert_ast(remotes, prefs, &ast, &mut p, stdout, stderr) {
        Ok(stdin) => stdin,
        Err(e) => {
            assert(plan_of(*prefs, remotes.stack@.last(), ast) == Err::<PlanView, LowerError>(e));
            return Err(e);
        },
    };
    p.set_stdin(Some(stdin));
    proof {
        lemma_lowering_keeps_sinks(
            *prefs,
            remotes.stack@.last(),
            ast,
            PlanBuilderView::empty().with_pipe().with_pipe(),
            0,
            1,
        );
    }
    p.add_stdout(stdout);
    p.add_stderr(stderr);
    let plan = p.build();
    assert(plan_of(*prefs, remotes.stack@.last(), ast) == Ok::<PlanView, LowerError>(plan@));
    Ok(plan)
}

/// Lowering adds steps and pipes and touches nothing else of the plan: no
/// sink, no count, not the plan's input.
pub proof fn lemma_lowering_keeps_sinks(
    prefs: Prefs,
    remote: RemoteRef,
    ast: Ast,
    b: PlanBuilderView,
    out: usize,
    err: usize,
)
    ensures
        lowered(prefs, remote, ast, b, out, err) matches Ok((after, _)) ==> after.plan.sink_map
            == b.plan.sink_map && after.plan.stdin == b.plan.stdin,
    decreases ast, 1int, 0int,
{
    match ast {
        Ast::Redirect(head, clauses) => {
            lemma_clauses_keep_sinks(prefs, remote, ast, clauses@.len() as int, b, out, err);
            match lowered_clauses(prefs, remote, ast, clauses@.len() as int, b, out, err) {
                Ok((b2, out2, err2)) => {
                    lemma_lowering_keeps_sinks(prefs, remote, *head, b2, out2, err2);
                },
                Err(_) => {},
            }
        },
        _ => {},
    }
}

pub proof fn lemma_clauses_keep_sinks(
    prefs: Prefs,
    remote: RemoteRef,
    ast: Ast,
    n: int,
    b: PlanBuilderView,
    out: usize,
    err: usize,
)
    ensures
        lowered_clauses(prefs, remote, ast, n, b, out, err) matches Ok((after, _, _))
            ==> after.plan.sink_map == b.plan.sink_map && after.plan.stdin == b.plan.stdin,
    decreases ast, 0int, n,
{
    if ast is Redirect && 0 < n <= ast->Redirect_1@.len() {
        let clause = ast->Redirect_1@[n - 1];
        let target = match clause.1 {
            Target::File(path) => if b.pipes.len() < usize::MAX {
                Ok((b.with_file_output(remote, path.text()), b.pipes.len() as usize))
            } else {
                Err(LowerError::PipeInUse)
            },
            Target::Command(inner) => {
                lemma_lowering_keeps_sinks(prefs, remote, inner, b, out, err);
                lowered(prefs, remote, inner, b, out, err)
            },
        };
        match target {
            Ok((b1, stdin)) => {
                if b1.pipes.len() < usize::MAX {
                    match clause.0 {
                        Stream::Stdout => {
                            lemma_clauses_keep_sinks(
                                prefs,
                                remote,
                                ast,
                                n - 1,
                                b1.with_pipe(),
                                stdin,
                                b1.pipes.len() as usize,
                            );
                        },
                        Stream::Stderr => {
                            lemma_clauses_keep_sinks(
                                prefs,
                                remote,
                                ast,
                                n - 1,
                                b1.with_pipe(),
                                b1.pipes.len() as usize,
                                stdin,
                            );
                        },
                    }
                }
            },
            Err(_) => {},
        }
    }
}

/// A reader that gives the plan of one command line, and after it the plan
/// that ends the shell.
pub struct SingleCommandReader {
    prefs: Prefs,
    text: Option<String>,
}

impl SingleCommandReader {
    /// The line that is still to be given, if any.
    pub closed spec fn pending(&self) -> Option<Seq<char>> {
        match self.text {
            Some(text) => Some(text@),
            None => None,
        }
    }

    pub fn new(prefs: Prefs, text: String) -> (r: SingleCommandReader)
        ensures
            r.pending() == Some(text@),
            r.aliases() == prefs,
    {
        SingleCommandReader { prefs, text: Some(text) }
    }

    /// The aliases that the reader's line is read with.
    pub closed spec fn aliases(&self) -> Prefs {
        self.prefs
    }

    /// The next plan: that of the line the first time, and from then on the
    /// plan whose one step closes remote 0.
    pub fn get_command(&mut self) -> (res: Result<Plan, LowerError>)
        ensures
            final(self).pending() is None,
            final(self).aliases() == old(self).aliases(),
            old(self).pending() matches Some(text) ==> planned(
                old(self).aliases(),
                RemoteRef(0),
                vstd::utf8::encode_utf8(text),
                res,
            ),
            old(self).pending() is None ==> (res matches Ok(plan) && plan@
                == PlanView::empty().step(
                StepView::Remote(RemoteRef(0), RemoteStepView::Close),
            )),
    {
        match self.text.take() {
            Some(text) => {
                let mut stack: Vec<RemoteRef> = Vec::new();
                stack.push(RemoteRef(0));
                let remotes = Remotes { stack };
                parse_command_simple(&remotes, &self.prefs, text.as_str())
            },
            None => {
                let mut p = PlanBuilder::new();
                p.exit(RemoteRef(0));
                Ok(p.build())
            },
        }
    }
}

} // verus!
