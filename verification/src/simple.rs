//! The plain shell: a command line is a program and its arguments, and runs
//! on the machine at hand.

use vstd::prelude::*;
use vstd::string::*;
use crate::syntax::{
    lemma_parseable_is_ascii, lemma_tokens_in_range, parseable, scan, tokens, word_texts, words,
    NodeType,
};

verus! {

/// What runs a command.
#[derive(Clone, Debug, PartialEq)]
pub enum Tool {
    /// The program at this path.
    Path(String),
    /// A shell on another host.
    Remote { host: String },
}

#[derive(Clone, Debug, PartialEq)]
pub struct Args {
    pub args: Vec<String>,
}

#[derive(Clone, Debug, PartialEq)]
pub struct Command {
    pub tool: Tool,
    pub args: Args,
}

/// What a command line asks of the shell.
#[derive(Clone, Debug, PartialEq)]
pub enum Shell {
    DoNothing,
    Run(Command),
    Exit,
}

/// The remote that runs programs on the machine at hand.
pub struct SimpleRemote;

/// Why a command line is not understood.
#[derive(Clone, Copy, Debug, PartialEq, Eq)]
pub enum SyntaxError {
    /// The line holds a character that is neither a space, a letter nor a digit.
    UnexpectedCharacter,
}

/// The mathematical value of a [`Shell`].
pub ghost enum ShellView {
    DoNothing,
    RunPath { path: Seq<char>, args: Seq<Seq<char>> },
    RunRemote { host: Seq<char>, args: Seq<Seq<char>> },
    Exit,
}

impl View for Shell {
    type V = ShellView;

    open spec fn view(&self) -> ShellView {
        match self {
            Shell::DoNothing => ShellView::DoNothing,
            Shell::Run(cmd) => match cmd.tool {
                Tool::Path(path) => ShellView::RunPath { path: path@, args: cmd.args.args.deep_view() },
                Tool::Remote { host } => ShellView::RunRemote {
                    host: host@,
                    args: cmd.args.args.deep_view(),
                },
            },
            Shell::Exit => ShellView::Exit,
        }
    }
}

/// What a line of words asks for: nothing where there is no word, else to
/// run the first word as a program with the other words as its arguments.
pub open spec fn request_of(words: Seq<Seq<char>>) -> ShellView {
    if words.len() == 0 {
        ShellView::DoNothing
    } else {
        ShellView::RunPath { path: words[0], args: words.drop_first() }
    }
}

/// Reads a command line of words separated by spaces.
pub fn parse_command_simple(input: &str) -> (res: Result<Shell, SyntaxError>)
    ensures
        res is Ok <==> parseable(input@),
        res matches Ok(shell) ==> shell@ == request_of(words(input@)),
{
    let ghost s = input@;
    let node = match scan(input) {
        Some(node) => node,
        None => {
            return Err(SyntaxError::UnexpectedCharacter);
        },
    };
    proof {
        lemma_parseable_is_ascii(s);
    }
    let ghost toks = tokens(s, 0);
    let mut found: Vec<String> = Vec::new();
    let mut i: usize = 0;
    while i < node.children.len()
        invariant
            0 <= i <= node.children@.len(),
            s == input@,
            toks == tokens(s, 0),
            vstd::utf8::is_ascii_chars(s),
            node.children@.len() == toks.len(),
            forall|k: int|
                0 <= k < node.children@.len() ==> (#[trigger] node.children@[k]).token() == toks[k],
            found.deep_view() == word_texts(s, toks.take(i as int)),
        decreases node.children@.len() - i,
    {
        let child = &node.children[i];
        proof {
            lemma_tokens_in_range(s, 0, i as int);
            assert(child.token() == toks[i as int]);
            assert(toks.take(i + 1).drop_last() =~= toks.take(i as int));
            assert(toks.take(i + 1).last() == toks[i as int]);
        }
        if child.ty == NodeType::Word {
            let ghost before = found.deep_view();
            let text = input.substring_ascii(child.begin, child.end);
            found.push(text.to_owned());
            assert(found.deep_view() =~= before.push(s.subrange(child.begin as int, child.end as int)));
        }
        i += 1;
    }
    assert(toks.take(i as int) =~= toks);
    if found.len() == 0 {
        Ok(Shell::DoNothing)
    } else {
        let ghost all = found.deep_view();
        let head = found.remove(0);
        assert(found.deep_view() =~= all.drop_first());
        Ok(Shell::Run(Command { tool: Tool::Path(head), args: Args { args: found } }))
    }
}

} // verus!
