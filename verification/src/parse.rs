//! The command line of the shell: commands of words, piped into one another
//! with `|`, redirected into files with `>`, and put in sequence with `;`.
//!
//! A word is either bare, and then ends before a space, `;`, `|` or `>`, or
//! it stands between double quotes, and then holds whatever is between them.
//! A double quote inside a bare word, a quote that is not closed, and
//! anything after the end of a sequence are errors.

use vstd::prelude::*;
use vstd::string::*;
use vstd::utf8::{
    encode_utf8, is_char_boundary, is_char_boundary_iff_not_is_continuation_byte,
    is_char_boundary_start_end_of_seq, length_of_first_scalar, pop_first_scalar, valid_utf8,
    valid_utf8_split,
};

verus! {

#[derive(Clone, Debug, PartialEq)]
pub enum Stream {
    Stdout,
    Stderr,
}

#[derive(Debug, PartialEq)]
pub enum Target {
    File(Word),
    Command(Ast),
}

#[derive(Clone, Debug, PartialEq)]
pub enum Word {
    Normal(String),
}

impl Word {
    /// The text of the word.
    pub fn expand_string(&self) -> (text: String)
        ensures
            text@ == self.text(),
    {
        match self {
            Word::Normal(s) => s.clone(),
        }
    }

    /// The characters of the word.
    pub open spec fn text(&self) -> Seq<char> {
        match self {
            Word::Normal(s) => s@,
        }
    }
}

#[derive(Clone, Debug, PartialEq)]
pub enum SequenceType {
    Wait,
    And,
    Or,
}

#[derive(Clone, Debug, PartialEq)]
pub struct Cmd {
    pub remote: Option<String>,
    pub words: Vec<Word>,
}

#[derive(Debug, PartialEq)]
pub struct SequenceClause(pub SequenceType, pub Ast);

#[derive(Debug, PartialEq)]
pub struct RedirectClause(pub Stream, pub Target);

#[derive(Debug, PartialEq)]
pub enum Ast {
    Empty,
    Cmd(Cmd),
    Sequence(Box<Ast>, Vec<SequenceClause>),
    Redirect(Box<Ast>, Vec<RedirectClause>),
}

/// Where the output of a command goes, as the line says it.
pub ghost enum TargetModel {
    /// Into the file of this name.
    File(Seq<u8>),
    /// Into the command of these words.
    Command(Seq<Seq<u8>>),
}

/// A command with what its output is sent through, in order.
pub ghost struct PipeModel {
    pub words: Seq<Seq<u8>>,
    pub targets: Seq<TargetModel>,
}

pub const SPACE: u8 = 32;

pub const QUOTE: u8 = 34;

pub const SEMICOLON: u8 = 59;

pub const BAR: u8 = 124;

pub const GREATER: u8 = 62;

/// In UTF-8 a byte below 128 is a character of its own: a character starts
/// at it, and another, or the end of the text, right after it.
pub proof fn lemma_ascii_is_a_character(s: Seq<u8>, i: int)
    requires
        valid_utf8(s),
        0 <= i < s.len(),
        s[i] < 128,
    ensures
        is_char_boundary(s, i),
        is_char_boundary(s, i + 1),
    decreases s.len(),
{
    is_char_boundary_iff_not_is_continuation_byte(s, i);
    let first = length_of_first_scalar(s);
    let rest = pop_first_scalar(s);
    reveal_with_fuel(is_char_boundary, 2);
    if i == 0 {
        assert(first == 1);
        assert(is_char_boundary(rest, 0));
    } else {
        assert(is_char_boundary(rest, i - first));
        if i - first >= 0 {
            assert(rest[i - first] == s[i]);
            lemma_ascii_is_a_character(rest, i - first);
        }
    }
}

/// Between two places at which characters start, the text can be cut out:
/// the second place is such a place in the text, and the first in the text
/// up to the second.
pub proof fn lemma_whole_characters(s: Seq<u8>, begin: int, end: int)
    requires
        valid_utf8(s),
        0 <= begin <= end <= s.len(),
        is_char_boundary(s, begin),
        is_char_boundary(s, end),
    ensures
        is_char_boundary(s.subrange(0, end), begin),
{
    valid_utf8_split(s, end);
    let head = s.subrange(0, end);
    if begin == end {
        is_char_boundary_start_end_of_seq(head);
    } else {
        is_char_boundary_iff_not_is_continuation_byte(s, begin);
        assert(head[begin] == s[begin]);
        is_char_boundary_iff_not_is_continuation_byte(head, begin);
    }
}

/// The first position from `pos` on that holds no space.
pub open spec fn skip_ws(s: Seq<u8>, pos: int) -> int
    decreases s.len() - pos,
{
    if 0 <= pos < s.len() && s[pos] == SPACE {
        skip_ws(s, pos + 1)
    } else {
        pos
    }
}

/// The byte ends a command: `;`, `|` or `>`.
pub open spec fn ends_cmd(b: u8) -> bool {
    b == SEMICOLON || b == BAR || b == GREATER
}

/// Where the bare word that starts at `pos` ends. `None` where it holds a
/// double quote.
pub open spec fn bare_end(s: Seq<u8>, pos: int) -> Option<int>
    decreases s.len() - pos,
{
    if pos < 0 || pos >= s.len() {
        Some(pos)
    } else if s[pos] == QUOTE {
        None
    } else if s[pos] == SPACE || ends_cmd(s[pos]) {
        Some(pos)
    } else {
        bare_end(s, pos + 1)
    }
}

/// The position of the first double quote from `pos` on.
pub open spec fn quote_end(s: Seq<u8>, pos: int) -> Option<int>
    decreases s.len() - pos,
{
    if pos < 0 || pos >= s.len() {
        None
    } else if s[pos] == QUOTE {
        Some(pos)
    } else {
        quote_end(s, pos + 1)
    }
}

/// The word at `pos`, with the position after it.
pub open spec fn word_at(s: Seq<u8>, pos: int) -> Option<(Seq<u8>, int)> {
    if 0 <= pos < s.len() && s[pos] == QUOTE {
        match quote_end(s, pos + 1) {
            Some(q) => Some((s.subrange(pos + 1, q), q + 1)),
            None => None,
        }
    } else {
        match bare_end(s, pos) {
            Some(e) => Some((s.subrange(pos, e), e)),
            None => None,
        }
    }
}

/// `found`, put in front of what a rest of the line gives.
pub open spec fn join<T>(found: Seq<T>, rest: Option<(Seq<T>, int)>) -> Option<(Seq<T>, int)> {
    match rest {
        Some((more, end)) => Some((found + more, end)),
        None => None,
    }
}

/// The words of a command after its first, from `pos` on, with the position
/// at which the command ends.
pub open spec fn more_words(s: Seq<u8>, pos: int) -> Option<(Seq<Seq<u8>>, int)>
    decreases s.len() - pos,
{
    let p = skip_ws(s, pos);
    if p < 0 || p >= s.len() || ends_cmd(s[p]) {
        Some((Seq::empty(), p))
    } else {
        match word_at(s, p) {
            Some((w, e)) => if pos < e <= s.len() {
                join(seq![w], more_words(s, e))
            } else {
                None
            },
            None => None,
        }
    }
}

/// The command at `pos`: a word, which may be empty, and the words after it.
pub open spec fn cmd_at(s: Seq<u8>, pos: int) -> Option<(Seq<Seq<u8>>, int)> {
    match word_at(s, pos) {
        Some((w, e)) => join(seq![w], more_words(s, e)),
        None => None,
    }
}

/// What the output of a command is sent through, from `pos` on.
pub open spec fn more_targets(s: Seq<u8>, pos: int) -> Option<(Seq<TargetModel>, int)>
    decreases s.len() - pos,
{
    let p = skip_ws(s, pos);
    if p < 0 || p >= s.len() || s[p] == SEMICOLON {
        Some((Seq::empty(), p))
    } else if s[p] == BAR {
        match cmd_at(s, skip_ws(s, p + 1)) {
            Some((words, e)) => if pos < e <= s.len() {
                join(seq![TargetModel::Command(words)], more_targets(s, e))
            } else {
                None
            },
            None => None,
        }
    } else if s[p] == GREATER {
        match word_at(s, skip_ws(s, p + 1)) {
            Some((w, e)) => if pos < e <= s.len() {
                join(seq![TargetModel::File(w)], more_targets(s, e))
            } else {
                None
            },
            None => None,
        }
    } else {
        None
    }
}

/// The command at `pos` with what its output is sent through.
pub open spec fn pipe_at(s: Seq<u8>, pos: int) -> Option<(PipeModel, int)> {
    match cmd_at(s, pos) {
        Some((words, e)) => match more_targets(s, e) {
            Some((targets, end)) => Some((PipeModel { words, targets }, end)),
            None => None,
        },
        None => None,
    }
}

/// The commands of a sequence after its first, from `pos` on.
pub open spec fn more_pipes(s: Seq<u8>, pos: int) -> Option<(Seq<PipeModel>, int)>
    decreases s.len() - pos,
{
    let p = skip_ws(s, pos);
    if p < 0 || p >= s.len() {
        Some((Seq::empty(), p))
    } else if s[p] == SEMICOLON {
        match pipe_at(s, skip_ws(s, p + 1)) {
            Some((pipe, e)) => if pos < e <= s.len() {
                join(seq![pipe], more_pipes(s, e))
            } else {
                None
            },
            None => None,
        }
    } else {
        None
    }
}

/// The sequence at `pos`.
pub open spec fn seq_at(s: Seq<u8>, pos: int) -> Option<(Seq<PipeModel>, int)> {
    match pipe_at(s, pos) {
        Some((pipe, e)) => join(seq![pipe], more_pipes(s, e)),
        None => None,
    }
}

/// The commands of a line, in sequence: none for a line of spaces. `None`
/// where the line is not well formed.
pub open spec fn line(s: Seq<u8>) -> Option<Seq<PipeModel>> {
    let p = skip_ws(s, 0);
    if p >= s.len() {
        Some(Seq::empty())
    } else {
        match seq_at(s, p) {
            Some((pipes, end)) => if end == s.len() {
                Some(pipes)
            } else {
                None
            },
            None => None,
        }
    }
}

/// The word holds these bytes.
pub open spec fn word_is(w: Word, bytes: Seq<u8>) -> bool {
    encode_utf8(w.text()) == bytes
}

/// The command has these words and names no remote.
pub open spec fn cmd_is(c: Cmd, words: Seq<Seq<u8>>) -> bool {
    &&& c.remote is None
    &&& c.words@.len() == words.len()
    &&& forall|i: int| 0 <= i < words.len() ==> word_is(#[trigger] c.words@[i], words[i])
}

/// The clause sends standard output to this target.
pub open spec fn clause_is(c: RedirectClause, t: TargetModel) -> bool {
    c.0 is Stdout && match t {
        TargetModel::File(name) => c.1 matches Target::File(w) && word_is(w, name),
        TargetModel::Command(words) => c.1 matches Target::Command(a) && (a matches Ast::Cmd(cmd)
            && cmd_is(cmd, words)),
    }
}

/// The tree is this command with its targets: the bare command where there
/// is no target, else a redirection of the command with one clause for each
/// target.
pub open spec fn pipe_is(a: Ast, m: PipeModel) -> bool {
    if m.targets.len() == 0 {
        a matches Ast::Cmd(cmd) && cmd_is(cmd, m.words)
    } else {
        a matches Ast::Redirect(head, clauses) && (*head matches Ast::Cmd(cmd) && cmd_is(
            cmd,
            m.words,
        )) && clauses@.len() == m.targets.len() && forall|i: int|
            0 <= i < m.targets.len() ==> clause_is(#[trigger] clauses@[i], m.targets[i])
    }
}

/// The tree is this sequence: `Empty` for no command, the command itself
/// for one, else a sequence of the first command with one `Wait` clause for
/// each of the others.
pub open spec fn denotes(a: Ast, pipes: Seq<PipeModel>) -> bool {
    if pipes.len() == 0 {
        a is Empty
    } else if pipes.len() == 1 {
        pipe_is(a, pipes[0])
    } else {
        a matches Ast::Sequence(head, clauses) && pipe_is(*head, pipes[0]) && clauses@.len()
            == pipes.len() - 1 && forall|i: int|
            0 <= i < clauses@.len() ==> (#[trigger] clauses@[i]).0 is Wait && pipe_is(
                clauses@[i].1,
                pipes[i + 1],
            )
    }
}

proof fn lemma_skip_ws(s: Seq<u8>, pos: int)
    requires
        0 <= pos <= s.len(),
    ensures
        pos <= skip_ws(s, pos) <= s.len(),
        skip_ws(s, pos) < s.len() ==> s[skip_ws(s, pos)] != SPACE,
    decreases s.len() - pos,
{
    if pos < s.len() && s[pos] == SPACE {
        lemma_skip_ws(s, pos + 1);
    }
}

proof fn lemma_bare_end(s: Seq<u8>, pos: int)
    requires
        0 <= pos <= s.len(),
    ensures
        bare_end(s, pos) matches Some(e) ==> pos <= e <= s.len() && (pos < s.len() && s[pos]
            != SPACE && !ends_cmd(s[pos]) ==> pos < e),
    decreases s.len() - pos,
{
    if pos < s.len() && s[pos] != QUOTE && !(s[pos] == SPACE || ends_cmd(s[pos])) {
        lemma_bare_end(s, pos + 1);
    }
}

proof fn lemma_quote_end(s: Seq<u8>, pos: int)
    requires
        0 <= pos <= s.len(),
    ensures
        quote_end(s, pos) matches Some(q) ==> pos <= q < s.len(),
    decreases s.len() - pos,
{
    if pos < s.len() && s[pos] != QUOTE {
        lemma_quote_end(s, pos + 1);
    }
}

/// A word ends inside the line, and a word that does not start at the end
/// of the line, at a space or at the end of a command is not empty.
proof fn lemma_word_at(s: Seq<u8>, pos: int)
    requires
        0 <= pos <= s.len(),
    ensures
        word_at(s, pos) matches Some((w, e)) ==> pos <= e <= s.len() && (pos < s.len() && s[pos]
            != SPACE && !ends_cmd(s[pos]) ==> pos < e),
{
    if pos < s.len() && s[pos] == QUOTE {
        lemma_quote_end(s, pos + 1);
    } else {
        lemma_bare_end(s, pos);
    }
}

/// The text of a line as the parser walks it.
pub struct Consume<'a> {
    chars: &'a str,
    text: &'a [u8],
    pos: usize,
}

impl<'a> Consume<'a> {
    /// The bytes of the line.
    pub closed spec fn bytes(&self) -> Seq<u8> {
        self.text@
    }

    /// The position of the next byte.
    pub closed spec fn at(&self) -> int {
        self.pos as int
    }

    /// The walk is over the bytes of its text and has not left them.
    pub closed spec fn wf(&self) -> bool {
        self.text@ == self.chars.spec_bytes() && self.pos <= self.text@.len() && self.text@.len()
            <= usize::MAX && valid_utf8(self.text@)
    }

    /// A character starts at the walk's position, or the text ends there.
    pub closed spec fn on_boundary(&self) -> bool {
        is_char_boundary(self.text@, self.pos as int)
    }

    /// A walk that starts at the beginning of `input`.
    pub fn new(input: &'a str) -> (c: Consume<'a>)
        ensures
            c.wf(),
            c.on_boundary(),
            c.bytes() == input.spec_bytes(),
            c.at() == 0,
    {
        broadcast use vstd::utf8::encode_utf8_valid_utf8;

        let text = input.as_bytes();
        let len = text.len();
        Consume { chars: input, text, pos: 0 }
    }

    /// The next byte, if there is one.
    pub fn cur(&self) -> (b: Option<u8>)
        requires
            self.wf(),
        ensures
            b == if self.at() < self.bytes().len() {
                Some(self.bytes()[self.at()])
            } else {
                None::<u8>
            },
    {
        if self.pos < self.text.len() {
            Some(self.text[self.pos])
        } else {
            None
        }
    }

    /// The next byte, if there is one, which is then passed.
    pub fn next(&mut self) -> (b: Option<u8>)
        requires
            old(self).wf(),
        ensures
            final(self).wf(),
            final(self).bytes() == old(self).bytes(),
            b == if old(self).at() < old(self).bytes().len() {
                Some(old(self).bytes()[old(self).at()])
            } else {
                None::<u8>
            },
            final(self).at() == if b is Some {
                old(self).at() + 1
            } else {
                old(self).at()
            },
            (b matches Some(byte) && byte < 128) ==> final(self).on_boundary(),
    {
        if self.pos < self.text.len() {
            let res = Some(self.text[self.pos]);
            proof {
                if self.text@[self.pos as int] < 128 {
                    lemma_ascii_is_a_character(self.text@, self.pos as int);
                }
            }
            self.pos = self.pos + 1;
            res
        } else {
            None
        }
    }

    /// The bytes `begin..end` as a word.
    fn slice(&self, begin: usize, end: usize) -> (word: Word)
        requires
            self.wf(),
            begin <= end <= self.bytes().len(),
            is_char_boundary(self.bytes(), begin as int),
            is_char_boundary(self.bytes(), end as int),
        ensures
            word_is(word, self.bytes().subrange(begin as int, end as int)),
    {
        proof {
            lemma_whole_characters(self.bytes(), begin as int, end as int);
        }
        let (head, _) = self.chars.split_at(end);
        let (_, middle) = head.split_at(begin);
        assert(middle.spec_bytes() =~= self.bytes().subrange(begin as int, end as int));
        Word::Normal(middle.to_owned())
    }
}

/// Passes the spaces at the walk's position.
pub fn skip_whitespace(input: &mut Consume)
    requires
        old(input).wf(),
    ensures
        final(input).wf(),
        final(input).bytes() == old(input).bytes(),
        final(input).at() == skip_ws(old(input).bytes(), old(input).at()),
        old(input).on_boundary() ==> final(input).on_boundary(),
{
    let ghost s = input.bytes();
    let ghost start = input.at();
    while input.pos < input.text.len() && input.text[input.pos] == SPACE
        invariant
            input.wf(),
            input.bytes() == s,
            skip_ws(s, start) == skip_ws(s, input.at()),
            old(input).on_boundary() ==> input.on_boundary(),
        decreases s.len() - input.at(),
    {
        proof {
            lemma_ascii_is_a_character(s, input.at());
        }
        input.pos = input.pos + 1;
    }
}

/// Reads the quoted word that starts at the walk's position.
pub fn parse_quote(input: &mut Consume) -> (w: Option<Word>)
    requires
        old(input).wf(),
        old(input).at() < old(input).bytes().len(),
        old(input).bytes()[old(input).at()] == QUOTE,
    ensures
        final(input).wf(),
        final(input).bytes() == old(input).bytes(),
        match w {
            Some(word) => word_at(old(input).bytes(), old(input).at()) matches Some((text, end))
                && word_is(word, text) && final(input).at() == end && final(input).on_boundary(),
            None => word_at(old(input).bytes(), old(input).at()) is None,
        },
{
    let ghost s = input.bytes();
    let ghost start = input.at();
    proof {
        lemma_ascii_is_a_character(s, start);
    }
    input.pos = input.pos + 1;
    let begin = input.pos;
    while input.pos < input.text.len() && input.text[input.pos] != QUOTE
        invariant
            input.wf(),
            input.bytes() == s,
            begin <= input.at(),
            quote_end(s, begin as int) == quote_end(s, input.at()),
        decreases s.len() - input.at(),
    {
        input.pos = input.pos + 1;
    }
    if input.pos >= input.text.len() {
        return None;
    }
    let end = input.pos;
    proof {
        lemma_ascii_is_a_character(s, end as int);
    }
    input.pos = input.pos + 1;
    Some(input.slice(begin, end))
}

/// Reads the word at the walk's position: a quoted word where a double
/// quote stands there, else a bare word.
pub fn parse_word(input: &mut Consume) -> (w: Option<Word>)
    requires
        old(input).wf(),
        old(input).on_boundary(),
    ensures
        final(input).wf(),
        final(input).bytes() == old(input).bytes(),
        match w {
            Some(word) => word_at(old(input).bytes(), old(input).at()) matches Some((text, end))
                && word_is(word, text) && final(input).at() == end && final(input).on_boundary(),
            None => word_at(old(input).bytes(), old(input).at()) is None,
        },
{
    let ghost s = input.bytes();
    if input.pos < input.text.len() && input.text[input.pos] == QUOTE {
        return parse_quote(input);
    }
    let begin = input.pos;
    while input.pos < input.text.len() && input.text[input.pos] != QUOTE && input.text[input.pos]
        != SPACE && input.text[input.pos] != SEMICOLON && input.text[input.pos] != BAR
        && input.text[input.pos] != GREATER
        invariant
            input.wf(),
            input.bytes() == s,
            begin <= input.at(),
            is_char_boundary(s, begin as int),
            bare_end(s, begin as int) == bare_end(s, input.at()),
        decreases s.len() - input.at(),
    {
        input.pos = input.pos + 1;
    }
    if input.pos < input.text.len() && input.text[input.pos] == QUOTE {
        return None;
    }
    proof {
        if input.at() < s.len() {
            lemma_ascii_is_a_character(s, input.at());
        } else {
            is_char_boundary_start_end_of_seq(s);
        }
    }
    Some(input.slice(begin, input.pos))
}

/// Reads the command at the walk's position.
pub fn parse_cmd(input: &mut Consume) -> (c: Option<Cmd>)
    requires
        old(input).wf(),
        old(input).on_boundary(),
    ensures
        final(input).wf(),
        final(input).bytes() == old(input).bytes(),
        match c {
            Some(cmd) => cmd_at(old(input).bytes(), old(input).at()) matches Some((words, end))
                && cmd_is(cmd, words) && final(input).at() == end && final(input).on_boundary(),
            None => cmd_at(old(input).bytes(), old(input).at()) is None,
        },
{
    let ghost s = input.bytes();
    let ghost start = input.at();
    let first = match parse_word(input) {
        Some(w) => w,
        None => {
            return None;
        },
    };
    let ghost mut found: Seq<Seq<u8>> = seq![word_at(s, start).unwrap().0];
    let mut children: Vec<Word> = Vec::new();
    children.push(first);
    proof {
        lemma_word_at(s, start);
    }
    loop
        invariant
            input.wf(),
            input.on_boundary(),
            input.bytes() == s,
            s == old(input).bytes(),
            start == old(input).at(),
            0 <= start <= s.len(),
            cmd_at(s, start) == join(found, more_words(s, input.at())),
            children@.len() == found.len(),
            forall|i: int| 0 <= i < found.len() ==> word_is(#[trigger] children@[i], found[i]),
        decreases s.len() - input.at(),
    {
        let ghost from = input.at();
        skip_whitespace(input);
        proof {
            lemma_skip_ws(s, from);
        }
        let done = match input.cur() {
            None => true,
            Some(b) => b == SEMICOLON || b == BAR || b == GREATER,
        };
        if done {
            proof {
                assert(found + Seq::<Seq<u8>>::empty() =~= found);
            }
            return Some(Cmd { remote: None, words: children });
        }
        let ghost p = input.at();
        proof {
            lemma_word_at(s, p);
        }
        match parse_word(input) {
            Some(w) => {
                proof {
                    lemma_next_word(s, from, found);
                    found = found.push(word_at(s, p).unwrap().0);
                }
                children.push(w);
            },
            None => {
                return None;
            },
        }
    }
}

/// Reads the command at the walk's position with what its output is sent
/// through.
pub fn parse_pipe(input: &mut Consume) -> (a: Option<Ast>)
    requires
        old(input).wf(),
        old(input).on_boundary(),
    ensures
        final(input).wf(),
        final(input).bytes() == old(input).bytes(),
        match a {
            Some(ast) => pipe_at(old(input).bytes(), old(input).at()) matches Some((pipe, end))
                && pipe_is(ast, pipe) && final(input).at() == end && final(input).on_boundary(),
            None => pipe_at(old(input).bytes(), old(input).at()) is None,
        },
{
    let ghost s = input.bytes();
    let ghost start = input.at();
    let head = match parse_cmd(input) {
        Some(cmd) => cmd,
        None => {
            return None;
        },
    };
    let ghost words = cmd_at(s, start).unwrap().0;
    let ghost mut found: Seq<TargetModel> = Seq::empty();
    let mut children: Vec<RedirectClause> = Vec::new();
    proof {
        let rest = more_targets(s, input.at());
        if rest is Some {
            assert(found + rest.unwrap().0 =~= rest.unwrap().0);
        }
    }
    loop
        invariant
            input.wf(),
            input.on_boundary(),
            input.bytes() == s,
            s == old(input).bytes(),
            start == old(input).at(),
            cmd_at(s, start) is Some,
            words == cmd_at(s, start).unwrap().0,
            cmd_is(head, words),
            more_targets(s, cmd_at(s, start).unwrap().1) == join(
                found,
                more_targets(s, input.at()),
            ),
            children@.len() == found.len(),
            forall|i: int| 0 <= i < found.len() ==> clause_is(#[trigger] children@[i], found[i]),
        decreases s.len() - input.at(),
    {
        let ghost from = input.at();
        skip_whitespace(input);
        proof {
            lemma_skip_ws(s, from);
        }
        let ghost p = input.at();
        let b = match input.cur() {
            None => SEMICOLON,
            Some(b) => b,
        };
        if b == SEMICOLON {
            proof {
                assert(found + Seq::<TargetModel>::empty() =~= found);
            }
            if children.len() == 0 {
                return Some(Ast::Cmd(head));
            } else {
                return Some(Ast::Redirect(Box::new(Ast::Cmd(head)), children));
            }
        } else if b == BAR {
            input.next();
            skip_whitespace(input);
            let ghost q = input.at();
            match parse_cmd(input) {
                Some(cmd) => {
                    proof {
                        lemma_next_command(s, from, found);
                        found = found.push(TargetModel::Command(cmd_at(s, q).unwrap().0));
                    }
                    children.push(RedirectClause(Stream::Stdout, Target::Command(Ast::Cmd(cmd))));
                },
                None => {
                    return None;
                },
            }
        } else if b == GREATER {
            input.next();
            skip_whitespace(input);
            let ghost q = input.at();
            match parse_word(input) {
                Some(w) => {
                    proof {
                        lemma_next_file(s, from, found);
                        found = found.push(TargetModel::File(word_at(s, q).unwrap().0));
                    }
                    children.push(RedirectClause(Stream::Stdout, Target::File(w)));
                },
                None => {
                    return None;
                },
            }
        } else {
            return None;
        }
    }
}

/// One more word of a command.
proof fn lemma_next_word(s: Seq<u8>, from: int, found: Seq<Seq<u8>>)
    requires
        0 <= from <= s.len(),
        skip_ws(s, from) < s.len(),
        !ends_cmd(s[skip_ws(s, from)]),
        word_at(s, skip_ws(s, from)) is Some,
    ensures
        from < word_at(s, skip_ws(s, from)).unwrap().1 <= s.len(),
        join(found, more_words(s, from)) == join(
            found.push(word_at(s, skip_ws(s, from)).unwrap().0),
            more_words(s, word_at(s, skip_ws(s, from)).unwrap().1),
        ),
{
    let p = skip_ws(s, from);
    lemma_skip_ws(s, from);
    lemma_word_at(s, p);
    let text = word_at(s, p).unwrap().0;
    let e = word_at(s, p).unwrap().1;
    let rest = more_words(s, e);
    assert(more_words(s, from) == join(seq![text], rest));
    if rest is Some {
        assert(found + (seq![text] + rest.unwrap().0) =~= found.push(text) + rest.unwrap().0);
    }
}

/// One more target of a command: a command that its output is piped into.
proof fn lemma_next_command(s: Seq<u8>, from: int, found: Seq<TargetModel>)
    requires
        0 <= from <= s.len(),
        skip_ws(s, from) < s.len(),
        s[skip_ws(s, from)] == BAR,
        cmd_at(s, skip_ws(s, skip_ws(s, from) + 1)) is Some,
    ensures
        from < cmd_at(s, skip_ws(s, skip_ws(s, from) + 1)).unwrap().1 <= s.len(),
        join(found, more_targets(s, from)) == join(
            found.push(
                TargetModel::Command(cmd_at(s, skip_ws(s, skip_ws(s, from) + 1)).unwrap().0),
            ),
            more_targets(s, cmd_at(s, skip_ws(s, skip_ws(s, from) + 1)).unwrap().1),
        ),
{
    let p = skip_ws(s, from);
    lemma_skip_ws(s, from);
    let q = skip_ws(s, p + 1);
    lemma_skip_ws(s, p + 1);
    lemma_cmd_at(s, q);
    let target = TargetModel::Command(cmd_at(s, q).unwrap().0);
    let e = cmd_at(s, q).unwrap().1;
    let rest = more_targets(s, e);
    assert(more_targets(s, from) == join(seq![target], rest));
    if rest is Some {
        assert(found + (seq![target] + rest.unwrap().0) =~= found.push(target) + rest.unwrap().0);
    }
}

/// One more target of a command: a file that its output is written to.
proof fn lemma_next_file(s: Seq<u8>, from: int, found: Seq<TargetModel>)
    requires
        0 <= from <= s.len(),
        skip_ws(s, from) < s.len(),
        s[skip_ws(s, from)] == GREATER,
        word_at(s, skip_ws(s, skip_ws(s, from) + 1)) is Some,
    ensures
        from < word_at(s, skip_ws(s, skip_ws(s, from) + 1)).unwrap().1 <= s.len(),
        join(found, more_targets(s, from)) == join(
            found.push(TargetModel::File(word_at(s, skip_ws(s, skip_ws(s, from) + 1)).unwrap().0)),
            more_targets(s, word_at(s, skip_ws(s, skip_ws(s, from) + 1)).unwrap().1),
        ),
{
    let p = skip_ws(s, from);
    lemma_skip_ws(s, from);
    let q = skip_ws(s, p + 1);
    lemma_skip_ws(s, p + 1);
    lemma_word_at(s, q);
    let target = TargetModel::File(word_at(s, q).unwrap().0);
    let e = word_at(s, q).unwrap().1;
    let rest = more_targets(s, e);
    assert(more_targets(s, from) == join(seq![target], rest));
    if rest is Some {
        assert(found + (seq![target] + rest.unwrap().0) =~= found.push(target) + rest.unwrap().0);
    }
}

/// One more command of a sequence.
proof fn lemma_next_pipe(s: Seq<u8>, from: int, found: Seq<PipeModel>)
    requires
        0 <= from <= s.len(),
        skip_ws(s, from) < s.len(),
        s[skip_ws(s, from)] == SEMICOLON,
        pipe_at(s, skip_ws(s, skip_ws(s, from) + 1)) is Some,
    ensures
        from < pipe_at(s, skip_ws(s, skip_ws(s, from) + 1)).unwrap().1 <= s.len(),
        join(found, more_pipes(s, from)) == join(
            found.push(pipe_at(s, skip_ws(s, skip_ws(s, from) + 1)).unwrap().0),
            more_pipes(s, pipe_at(s, skip_ws(s, skip_ws(s, from) + 1)).unwrap().1),
        ),
{
    let p = skip_ws(s, from);
    lemma_skip_ws(s, from);
    let q = skip_ws(s, p + 1);
    lemma_skip_ws(s, p + 1);
    lemma_pipe_at(s, q);
    let pipe = pipe_at(s, q).unwrap().0;
    let e = pipe_at(s, q).unwrap().1;
    let rest = more_pipes(s, e);
    assert(more_pipes(s, from) == join(seq![pipe], rest));
    if rest is Some {
        assert(found + (seq![pipe] + rest.unwrap().0) =~= found.push(pipe) + rest.unwrap().0);
    }
}

/// A command ends inside the line.
proof fn lemma_cmd_at(s: Seq<u8>, pos: int)
    requires
        0 <= pos <= s.len(),
    ensures
        cmd_at(s, pos) matches Some((words, e)) ==> pos <= e <= s.len(),
{
    lemma_word_at(s, pos);
    if word_at(s, pos) is Some {
        lemma_more_words(s, word_at(s, pos).unwrap().1);
    }
}

proof fn lemma_more_words(s: Seq<u8>, pos: int)
    requires
        0 <= pos <= s.len(),
    ensures
        more_words(s, pos) matches Some((words, e)) ==> pos <= e <= s.len(),
    decreases s.len() - pos,
{
    lemma_skip_ws(s, pos);
    let p = skip_ws(s, pos);
    if !(p >= s.len() || ends_cmd(s[p])) {
        if word_at(s, p) is Some {
            let e = word_at(s, p).unwrap().1;
            if pos < e <= s.len() {
                lemma_more_words(s, e);
            }
        }
    }
}

proof fn lemma_more_targets(s: Seq<u8>, pos: int)
    requires
        0 <= pos <= s.len(),
    ensures
        more_targets(s, pos) matches Some((targets, e)) ==> pos <= e <= s.len(),
    decreases s.len() - pos,
{
    lemma_skip_ws(s, pos);
    let p = skip_ws(s, pos);
    if !(p >= s.len() || s[p] == SEMICOLON) {
        if s[p] == BAR {
            if cmd_at(s, skip_ws(s, p + 1)) is Some {
                let e = cmd_at(s, skip_ws(s, p + 1)).unwrap().1;
                if pos < e <= s.len() {
                    lemma_more_targets(s, e);
                }
            }
        } else if s[p] == GREATER {
            if word_at(s, skip_ws(s, p + 1)) is Some {
                let e = word_at(s, skip_ws(s, p + 1)).unwrap().1;
                if pos < e <= s.len() {
                    lemma_more_targets(s, e);
                }
            }
        }
    }
}

/// A command with its targets ends inside the line.
proof fn lemma_pipe_at(s: Seq<u8>, pos: int)
    requires
        0 <= pos <= s.len(),
    ensures
        pipe_at(s, pos) matches Some((pipe, e)) ==> pos <= e <= s.len(),
{
    lemma_cmd_at(s, pos);
    if cmd_at(s, pos) is Some {
        lemma_more_targets(s, cmd_at(s, pos).unwrap().1);
    }
}

/// Reads the sequence at the walk's position.
pub fn parse_seq(input: &mut Consume) -> (a: Option<Ast>)
    requires
        old(input).wf(),
        old(input).on_boundary(),
    ensures
        final(input).wf(),
        final(input).bytes() == old(input).bytes(),
        match a {
            Some(ast) => seq_at(old(input).bytes(), old(input).at()) matches Some((pipes, end))
                && denotes(ast, pipes) && final(input).at() == end && final(input).on_boundary(),
            None => seq_at(old(input).bytes(), old(input).at()) is None,
        },
{
    let ghost s = input.bytes();
    let ghost start = input.at();
    let head = match parse_pipe(input) {
        Some(ast) => ast,
        None => {
            return None;
        },
    };
    let ghost first = pipe_at(s, start).unwrap().0;
    let ghost mut found: Seq<PipeModel> = Seq::empty();
    let mut children: Vec<SequenceClause> = Vec::new();
    proof {
        let rest = more_pipes(s, input.at());
        if rest is Some {
            assert(found + rest.unwrap().0 =~= rest.unwrap().0);
        }
    }
    loop
        invariant
            input.wf(),
            input.on_boundary(),
            input.bytes() == s,
            s == old(input).bytes(),
            start == old(input).at(),
            pipe_at(s, start) is Some,
            first == pipe_at(s, start).unwrap().0,
            pipe_is(head, first),
            more_pipes(s, pipe_at(s, start).unwrap().1) == join(found, more_pipes(s, input.at())),
            children@.len() == found.len(),
            forall|i: int|
                0 <= i < found.len() ==> (#[trigger] children@[i]).0 is Wait && pipe_is(
                    children@[i].1,
                    found[i],
                ),
        decreases s.len() - input.at(),
    {
        let ghost from = input.at();
        skip_whitespace(input);
        proof {
            lemma_skip_ws(s, from);
        }
        let ghost p = input.at();
        match input.cur() {
            None => {
                proof {
                    assert(found + Seq::<PipeModel>::empty() =~= found);
                    let all = seq![first] + found;
                    assert(seq_at(s, start).unwrap().0 =~= all);
                    assert forall|i: int| 0 <= i < found.len() implies all[i + 1] == found[i] by {}
                }
                if children.len() == 0 {
                    return Some(head);
                } else {
                    return Some(Ast::Sequence(Box::new(head), children));
                }
            },
            Some(b) => {
                if b == SEMICOLON {
                    input.next();
                    skip_whitespace(input);
                    let ghost q = input.at();
                    match parse_pipe(input) {
                        Some(ast) => {
                            proof {
                                lemma_next_pipe(s, from, found);
                                found = found.push(pipe_at(s, q).unwrap().0);
                            }
                            children.push(SequenceClause(SequenceType::Wait, ast));
                        },
                        None => {
                            return None;
                        },
                    }
                } else {
                    return None;
                }
            },
        }
    }
}

/// Reads the line that the walk is at the beginning of.
pub fn parse_line(input: &mut Consume) -> (a: Option<Ast>)
    requires
        old(input).wf(),
        old(input).on_boundary(),
        old(input).at() == 0,
    ensures
        match a {
            Some(ast) => line(old(input).bytes()) matches Some(pipes) && denotes(ast, pipes),
            None => line(old(input).bytes()) is None,
        },
{
    let ghost s = input.bytes();
    skip_whitespace(input);
    proof {
        lemma_skip_ws(s, 0);
    }
    if input.cur().is_none() {
        return Some(Ast::Empty);
    }
    match parse_seq(input) {
        Some(ast) => {
            if input.pos == input.text.len() {
                Some(ast)
            } else {
                None
            }
        },
        None => None,
    }
}

/// Reads a command line. `None` where the line is not well formed.
pub fn try_parse_input(input: &str) -> (a: Option<Ast>)
    ensures
        match a {
            Some(ast) => line(input.spec_bytes()) matches Some(pipes) && denotes(ast, pipes),
            None => line(input.spec_bytes()) is None,
        },
{
    let mut walk = Consume::new(input);
    parse_line(&mut walk)
}

/// Reads a well-formed command line.
pub fn parse_input(input: &str) -> (ast: Ast)
    requires
        line(input.spec_bytes()) is Some,
    ensures
        denotes(ast, line(input.spec_bytes())->0),
{
    try_parse_input(input).unwrap()
}

} // verus!
