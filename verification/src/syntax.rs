//! The token tree of the plain command language: words of letters and
//! digits, separated by runs of spaces.

use vstd::prelude::*;
use vstd::string::*;

verus! {

#[derive(Clone, Copy, Debug, PartialEq, Eq, Structural)]
pub enum NodeType {
    Whitespace,
    Comment,
    Word,
    Command,
    Sequence,
    If,
    While,
    For,
}

/// A node of the token tree: a kind, the range of the text it spans, and the
/// nodes that its range is made of.
pub struct Node {
    pub ty: NodeType,
    pub begin: usize,
    pub end: usize,
    pub children: Vec<Node>,
}

/// A maximal run of spaces or of word characters: its kind and its range.
pub ghost struct Token {
    pub ty: NodeType,
    pub begin: int,
    pub end: int,
}

/// Letters and digits make up words.
pub open spec fn is_word(c: char) -> bool {
    ('a' <= c && c <= 'z') || ('A' <= c && c <= 'Z') || ('0' <= c && c <= '9')
}

/// The kind of token that a character belongs to, if any.
pub open spec fn class_of(c: char) -> Option<NodeType> {
    if c == ' ' {
        Some(NodeType::Whitespace)
    } else if is_word(c) {
        Some(NodeType::Word)
    } else {
        None
    }
}

/// The text holds nothing but spaces, letters and digits.
pub open spec fn parseable(s: Seq<char>) -> bool {
    forall|i: int| 0 <= i < s.len() ==> class_of(#[trigger] s[i]) is Some
}

/// The end of the run of characters of kind `ty` that starts at `from`.
pub open spec fn run_end(s: Seq<char>, from: int, ty: NodeType) -> int
    decreases s.len() - from,
{
    if 0 <= from < s.len() && class_of(s[from]) == Some(ty) {
        run_end(s, from + 1, ty)
    } else {
        from
    }
}

/// The tokens of the text from `from` on.
pub open spec fn tokens(s: Seq<char>, from: int) -> Seq<Token>
    decreases s.len() - from,
{
    if 0 <= from < s.len() && class_of(s[from]) is Some {
        let ty = class_of(s[from])->0;
        let end = run_end(s, from + 1, ty);
        if from < end <= s.len() {
            seq![Token { ty, begin: from, end }] + tokens(s, end)
        } else {
            Seq::empty()
        }
    } else {
        Seq::empty()
    }
}

/// The texts of the word tokens among `list`, in order.
pub open spec fn word_texts(s: Seq<char>, list: Seq<Token>) -> Seq<Seq<char>>
    decreases list.len(),
{
    if list.len() == 0 {
        Seq::empty()
    } else if list.last().ty == NodeType::Word {
        word_texts(s, list.drop_last()).push(s.subrange(list.last().begin, list.last().end))
    } else {
        word_texts(s, list.drop_last())
    }
}

/// A text of spaces, letters and digits is ASCII.
pub proof fn lemma_parseable_is_ascii(s: Seq<char>)
    requires
        parseable(s),
    ensures
        vstd::utf8::is_ascii_chars(s),
{
    assert forall|i: int| 0 <= i < s.len() implies '\0' <= #[trigger] s[i] <= '\u{7f}' by {
        assert(class_of(s[i]) is Some);
    }
}

/// Every token lies inside the text, and is not empty.
pub proof fn lemma_tokens_in_range(s: Seq<char>, from: int, i: int)
    requires
        0 <= from <= s.len(),
        0 <= i < tokens(s, from).len(),
    ensures
        from <= tokens(s, from)[i].begin < tokens(s, from)[i].end <= s.len(),
    decreases s.len() - from,
{
    if from < s.len() && class_of(s[from]) is Some {
        let ty = class_of(s[from])->0;
        let end = run_end(s, from + 1, ty);
        if from < end <= s.len() {
            if i > 0 {
                lemma_tokens_in_range(s, end, i - 1);
            }
        }
    }
}

/// The words of a text.
pub open spec fn words(s: Seq<char>) -> Seq<Seq<char>> {
    word_texts(s, tokens(s, 0))
}

/// The node at `i` ends where the next one begins.
pub open spec fn adjacent(list: Seq<Node>, i: int) -> bool {
    list[i].end == list[i + 1].begin
}

impl Node {
    /// The token that a leaf stands for.
    pub open spec fn token(&self) -> Token {
        Token { ty: self.ty, begin: self.begin as int, end: self.end as int }
    }

    /// The ranges of the node's children, if it has any, follow one another
    /// from the node's begin to its end, and the same holds inside each child.
    pub open spec fn full(&self) -> bool
        decreases self,
    {
        self.children@.len() > 0 ==> {
            &&& self.children@[0].begin == self.begin
            &&& forall|i: int|
                0 <= i < self.children@.len() - 1 ==> #[trigger] adjacent(self.children@, i)
            &&& self.children@[self.children@.len() - 1].end == self.end
            &&& forall|i: int|
                0 <= i < self.children@.len() ==> (#[trigger] self.children@[i]).full()
        }
    }

    /// True when the node spans exactly `begin..end` and is full.
    pub fn is_full_inner(&self, begin: usize, end: usize) -> (ok: bool)
        ensures
            ok == (self.begin == begin && self.end == end && self.full()),
        decreases self,
    {
        if self.begin != begin || self.end != end {
            return false;
        }
        if self.children.len() == 0 {
            return true;
        }
        let mut at = self.begin;
        let mut i: usize = 0;
        while i < self.children.len()
            invariant
                0 <= i <= self.children@.len(),
                self.children@.len() > 0,
                i == 0 ==> at == self.begin,
                i > 0 ==> at == self.children@[i - 1].end,
                i > 0 ==> self.children@[0].begin == self.begin,
                forall|k: int| 0 <= k < i - 1 ==> #[trigger] adjacent(self.children@, k),
                forall|k: int| 0 <= k < i ==> (#[trigger] self.children@[k]).full(),
            decreases self.children@.len() - i,
        {
            let child = &self.children[i];
            if !child.is_full_inner(at, child.end) {
                proof {
                    if self.full() {
                        assert(self.children@[i as int].full());
                        if i > 0 {
                            assert(adjacent(self.children@, i - 1));
                        }
                    }
                }
                return false;
            }
            proof {
                if i > 0 {
                    assert(adjacent(self.children@, i - 1));
                }
            }
            at = child.end;
            i += 1;
        }
        at == self.end
    }
}

/// A parsed text: the text and its token tree.
pub struct Parsed<'t, 'n> {
    pub node: &'n Node,
    pub text: &'t str,
}

impl<'t, 'n> Parsed<'t, 'n> {
    /// The tree spans the whole text, measured in bytes, and is full.
    pub open spec fn full(&self) -> bool {
        self.node.begin == 0 && self.node.end == self.text.len() && self.node.full()
    }

    /// True when the tree spans the whole text and is full.
    pub fn is_full(&self) -> (ok: bool)
        ensures
            ok == self.full(),
    {
        self.node.is_full_inner(0, self.text.len())
    }

    /// The tree is the command of its text: one leaf for each token.
    pub open spec fn is_command(&self) -> bool {
        &&& self.node.ty == NodeType::Command
        &&& self.node.begin == 0
        &&& self.node.end == self.text@.len()
        &&& self.node.children@.len() == tokens(self.text@, 0).len()
        &&& forall|i: int|
            0 <= i < self.node.children@.len() ==> (#[trigger] self.node.children@[i]).token()
                == tokens(self.text@, 0)[i] && self.node.children@[i].children@.len() == 0
    }
}

/// Holds the trees of the texts it has parsed.
pub struct Parser {
    nodes: Vec<Node>,
}

/// True for the bytes of letters and digits.
pub fn is_word_char(ch: u8) -> (word: bool)
    ensures
        word == ((97 <= ch && ch <= 122) || (65 <= ch && ch <= 90) || (48 <= ch && ch <= 57)),
{
    (ch >= 97 && ch <= 122) || (ch >= 65 && ch <= 90) || (ch >= 48 && ch <= 57)
}

impl Parser {
    /// The number of texts parsed so far.
    pub closed spec fn count(&self) -> nat {
        self.nodes@.len()
    }

    pub fn new() -> (p: Parser)
        ensures
            p.count() == 0,
    {
        Parser { nodes: Vec::new() }
    }

    /// Parses a text that holds nothing but spaces, letters and digits.
    pub fn parse<'t, 'n>(&'n mut self, input: &'t str) -> (v: Parsed<'t, 'n>)
        requires
            parseable(input@),
        ensures
            v.text@ == input@,
            v.is_command(),
            v.full(),
            final(self).count() == old(self).count() + 1,
    {
        let node = scan(input).unwrap();
        self.nodes.push(node);
        let last = self.nodes.len() - 1;
        Parsed { node: &self.nodes[last], text: input }
    }
}

/// The command node of a text, or `None` where the text holds a character
/// that belongs to no token.
pub fn scan(input: &str) -> (tree: Option<Node>)
    ensures
        tree is Some <==> parseable(input@),
        tree matches Some(node) ==> (Parsed { node: &node, text: input }).is_command() && (Parsed {
            node: &node,
            text: input,
        }).full(),
{
    broadcast use vstd::string::group_string_axioms;

    let ghost s = input@;
    if !input.is_ascii() {
        proof {
            if parseable(s) {
                assert forall|i: int| 0 <= i < s.len() implies '\0' <= #[trigger] s[i]
                    <= '\u{7f}' by {
                    assert(class_of(s[i]) is Some);
                }
            }
        }
        return None;
    }
    let bytes = input.as_bytes();
    assert(bytes@.len() == s.len());
    assert(forall|i: int| 0 <= i < s.len() ==> bytes@[i] == #[trigger] s[i] as u8);
    let mut children: Vec<Node> = Vec::new();
    let mut pos: usize = 0;
    while pos < bytes.len()
        invariant
            0 <= pos <= bytes@.len(),
            s == input@,
            bytes@.len() == s.len(),
            vstd::utf8::is_ascii_chars(s),
            forall|i: int| 0 <= i < s.len() ==> bytes@[i] == #[trigger] s[i] as u8,
            forall|i: int| 0 <= i < pos ==> class_of(#[trigger] s[i]) is Some,
            children@.len() > 0 ==> children@[0].begin == 0 && children@[children@.len() - 1].end
                == pos,
            children@.len() == 0 ==> pos == 0,
            forall|i: int| 0 <= i < children@.len() - 1 ==> #[trigger] adjacent(children@, i),
            forall|i: int|
                0 <= i < children@.len() ==> (#[trigger] children@[i]).children@.len() == 0,
            tokens(s, 0) == Seq::new(children@.len(), |i: int| children@[i].token()) + tokens(
                s,
                pos as int,
            ),
        decreases bytes@.len() - pos,
    {
        let byte = bytes[pos];
        let ghost c = s[pos as int];
        proof {
            assert('\0' <= c <= '\u{7f}');
            assert(byte == c as u8);
        }
        let begin = pos;
        let ghost before = children@;
        let ty = if byte == 32 {
            NodeType::Whitespace
        } else if is_word_char(byte) {
            NodeType::Word
        } else {
            proof {
                assert(class_of(c) is None);
            }
            return None;
        };
        assert(class_of(c) == Some(ty));
        pos += 1;
        while pos < bytes.len() && ((ty == NodeType::Whitespace && bytes[pos] == 32) || (ty
            == NodeType::Word && is_word_char(bytes[pos])))
            invariant
                begin < pos <= bytes@.len(),
                bytes@.len() == s.len(),
                vstd::utf8::is_ascii_chars(s),
                ty == NodeType::Whitespace || ty == NodeType::Word,
                forall|i: int| 0 <= i < s.len() ==> bytes@[i] == #[trigger] s[i] as u8,
                forall|i: int| 0 <= i < pos ==> class_of(#[trigger] s[i]) is Some,
                run_end(s, begin + 1, ty) == run_end(s, pos as int, ty),
            decreases bytes@.len() - pos,
        {
            proof {
                assert('\0' <= s[pos as int] <= '\u{7f}');
                assert(class_of(s[pos as int]) == Some(ty));
            }
            pos += 1;
        }
        proof {
            if pos < bytes@.len() {
                assert('\0' <= s[pos as int] <= '\u{7f}');
                assert(class_of(s[pos as int]) != Some(ty));
            }
            assert(run_end(s, pos as int, ty) == pos);
        }
        children.push(Node { ty, begin, end: pos, children: Vec::new() });
        proof {
            assert forall|i: int| 0 <= i < children@.len() - 1 implies #[trigger] adjacent(
                children@,
                i,
            ) by {
                if i < before.len() - 1 {
                    assert(adjacent(before, i));
                }
            }
            let done = Seq::new(before.len(), |i: int| before[i].token());
            let now = Seq::new(children@.len(), |i: int| children@[i].token());
            let token = Token { ty, begin: begin as int, end: pos as int };
            assert(tokens(s, begin as int) == seq![token] + tokens(s, pos as int));
            assert(now =~= done + seq![token]);
            assert(tokens(s, 0) =~= now + tokens(s, pos as int));
        }
    }
    let node = Node { ty: NodeType::Command, begin: 0, end: pos, children };
    proof {
        assert(tokens(s, pos as int) =~= Seq::empty());
        let list = Seq::new(node.children@.len(), |i: int| node.children@[i].token());
        assert(tokens(s, 0) =~= list);
        assert forall|i: int| 0 <= i < node.children@.len() implies (
        #[trigger] node.children@[i]).full() by {}
        assert forall|i: int| 0 <= i < s.len() implies class_of(#[trigger] s[i]) is Some by {}
    }
    Some(node)
}

} // verus!
