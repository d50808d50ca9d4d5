//! Aliases: rules that rewrite the words of a command.
//!
//! A rule has a pattern and a replacement. The pattern is matched against
//! the words from the first on: a literal takes one word that is equal to
//! it, a variable takes any one word, and an expando takes the word at hand
//! and every word after it. Words that the pattern leaves over do not keep
//! a rule from matching. The first rule that matches rewrites the command:
//! its replacement is written out with each variable and expando put back
//! where it is named.
//!
//! An expando leaves the word at hand where it is, so that an item after an
//! expando is matched against the first word that the expando took.

use std::collections::HashMap;
use vstd::prelude::*;
use vstd::string::*;

verus! {

broadcast use vstd::std_specs::hash::group_hash_axioms;

#[derive(Clone, Debug)]
pub enum Item {
    Literal(String),
    Variable(usize),
    Expando(usize),
}

pub ghost enum ItemView {
    Literal(Seq<char>),
    Variable(usize),
    Expando(usize),
}

impl View for Item {
    type V = ItemView;

    open spec fn view(&self) -> ItemView {
        match self {
            Item::Literal(word) => ItemView::Literal(word@),
            Item::Variable(id) => ItemView::Variable(*id),
            Item::Expando(id) => ItemView::Expando(*id),
        }
    }
}

#[derive(Clone, Debug)]
pub struct Rule {
    pub find: Vec<Item>,
    pub replace: Vec<Item>,
}

#[derive(Clone, Debug)]
pub struct Prefs {
    pub aliases: Vec<Rule>,
}

/// How far a pattern has been matched.
pub ghost struct Progress {
    /// The position of the word at hand, if there is one.
    pub at: Option<int>,
    /// The position of the word that comes to hand next.
    pub rest: int,
    /// The words that the variables have taken.
    pub vars: Map<usize, Seq<char>>,
    /// The words that the expandos have taken.
    pub expandos: Map<usize, Seq<Seq<char>>>,
}

/// What comes of matching a pattern.
pub ghost enum Matched {
    /// The pattern matches, with these words taken.
    Bound(Map<usize, Seq<char>>, Map<usize, Seq<Seq<char>>>),
    /// The pattern does not match.
    NoMatch,
    /// The pattern names a variable or an expando twice.
    Broken,
}

impl Progress {
    /// Before the first item: the first word is at hand.
    pub open spec fn start(cmd: Seq<Seq<char>>) -> Progress {
        Progress {
            at: if cmd.len() > 0 {
                Some(0int)
            } else {
                None
            },
            rest: if cmd.len() > 0 {
                1
            } else {
                0
            },
            vars: Map::empty(),
            expandos: Map::empty(),
        }
    }

    /// The next word comes to hand.
    pub open spec fn advance(self, cmd: Seq<Seq<char>>) -> Progress {
        if self.rest < cmd.len() {
            Progress { at: Some(self.rest), rest: self.rest + 1, ..self }
        } else {
            Progress { at: None, ..self }
        }
    }

    /// The id has been taken by a variable or an expando.
    pub open spec fn names(self, id: usize) -> bool {
        self.vars.contains_key(id) || self.expandos.contains_key(id)
    }

    /// The word at hand and every word after it.
    pub open spec fn all_left(self, cmd: Seq<Seq<char>>) -> Seq<Seq<char>> {
        match self.at {
            Some(i) => seq![cmd[i]] + cmd.subrange(self.rest, cmd.len() as int),
            None => Seq::empty(),
        }
    }
}

/// Matches the items of a pattern from the `k`th on.
pub open spec fn match_from(find: Seq<ItemView>, k: int, cmd: Seq<Seq<char>>, p: Progress) -> Matched
    decreases find.len() - k,
{
    if k < 0 || k >= find.len() {
        Matched::Bound(p.vars, p.expandos)
    } else {
        match find[k] {
            ItemView::Literal(word) => if p.at is Some && cmd[p.at.unwrap()] == word {
                match_from(find, k + 1, cmd, p.advance(cmd))
            } else {
                Matched::NoMatch
            },
            ItemView::Variable(id) => if p.names(id) {
                Matched::Broken
            } else if p.at is Some {
                match_from(
                    find,
                    k + 1,
                    cmd,
                    (Progress { vars: p.vars.insert(id, cmd[p.at.unwrap()]), ..p }).advance(cmd),
                )
            } else {
                Matched::NoMatch
            },
            ItemView::Expando(id) => if p.names(id) {
                Matched::Broken
            } else {
                match_from(
                    find,
                    k + 1,
                    cmd,
                    Progress {
                        expandos: p.expandos.insert(id, p.all_left(cmd)),
                        rest: cmd.len() as int,
                        ..p
                    },
                )
            },
        }
    }
}

/// Writes out the items of a replacement from the `k`th on. Each variable
/// and each expando can be put back once. `None` where one is named that
/// is not, or no longer, there.
pub open spec fn build_from(
    replace: Seq<ItemView>,
    k: int,
    vars: Map<usize, Seq<char>>,
    expandos: Map<usize, Seq<Seq<char>>>,
) -> Option<Seq<Seq<char>>>
    decreases replace.len() - k,
{
    if k < 0 || k >= replace.len() {
        Some(Seq::empty())
    } else {
        match replace[k] {
            ItemView::Literal(word) => match build_from(replace, k + 1, vars, expandos) {
                Some(rest) => Some(seq![word] + rest),
                None => None,
            },
            ItemView::Variable(id) => if vars.contains_key(id) {
                match build_from(replace, k + 1, vars.remove(id), expandos) {
                    Some(rest) => Some(seq![vars[id]] + rest),
                    None => None,
                }
            } else {
                None
            },
            ItemView::Expando(id) => if expandos.contains_key(id) {
                match build_from(replace, k + 1, vars, expandos.remove(id)) {
                    Some(rest) => Some(expandos[id] + rest),
                    None => None,
                }
            } else {
                None
            },
        }
    }
}

/// The items of a list, by their mathematical values.
pub open spec fn items(list: Seq<Item>) -> Seq<ItemView> {
    list.map_values(|i: Item| i@)
}

/// Rewrites a command by the first rule that matches, from the `r`th rule
/// on; a command that no rule matches stays as it is. `None` where a rule
/// that is tried is broken.
pub open spec fn expand_from(rules: Seq<Rule>, r: int, cmd: Seq<Seq<char>>) -> Option<
    Seq<Seq<char>>,
>
    decreases rules.len() - r,
{
    if r < 0 || r >= rules.len() {
        Some(cmd)
    } else {
        match match_from(items(rules[r].find@), 0, cmd, Progress::start(cmd)) {
            Matched::Bound(vars, expandos) => build_from(
                items(rules[r].replace@),
                0,
                vars,
                expandos,
            ),
            Matched::NoMatch => expand_from(rules, r + 1, cmd),
            Matched::Broken => None,
        }
    }
}

/// The view of a table of variables.
pub open spec fn table(m: Map<usize, String>) -> Map<usize, Seq<char>> {
    Map::new(|id: usize| m.contains_key(id), |id: usize| m[id]@)
}

/// The view of a table of expandos.
pub open spec fn lists(m: Map<usize, Vec<String>>) -> Map<usize, Seq<Seq<char>>> {
    Map::new(|id: usize| m.contains_key(id), |id: usize| m[id].deep_view())
}

enum Tried {
    Bound(HashMap<usize, String>, HashMap<usize, Vec<String>>),
    NoMatch,
    Broken,
}

impl Tried {
    spec fn view(self) -> Matched {
        match self {
            Tried::Bound(vars, expandos) => Matched::Bound(table(vars@), lists(expandos@)),
            Tried::NoMatch => Matched::NoMatch,
            Tried::Broken => Matched::Broken,
        }
    }
}

/// Matches a pattern against the words of a command.
fn try_match(find: &Vec<Item>, cmd: &Vec<String>) -> (res: Tried)
    ensures
        res.view() == match_from(items(find@), 0, cmd.deep_view(), Progress::start(cmd.deep_view())),
{
    let ghost words = cmd.deep_view();
    let ghost pattern = items(find@);
    let mut vars: HashMap<usize, String> = HashMap::new();
    let mut expandos: HashMap<usize, Vec<String>> = HashMap::new();
    let mut at: Option<usize> = if cmd.len() > 0 {
        Some(0)
    } else {
        None
    };
    let mut rest: usize = if cmd.len() > 0 {
        1
    } else {
        0
    };
    let ghost mut p = Progress::start(words);
    proof {
        assert(table(vars@) =~= p.vars);
        assert(lists(expandos@) =~= p.expandos);
    }
    let mut k: usize = 0;
    while k < find.len()
        invariant
            0 <= k <= find@.len(),
            words == cmd.deep_view(),
            pattern == items(find@),
            words.len() == cmd@.len(),
            rest <= cmd@.len(),
            p.rest == rest,
            p.at == match at {
                Some(i) => Some(i as int),
                None => None::<int>,
            },
            at matches Some(i) ==> i < cmd@.len(),
            p.vars == table(vars@),
            p.expandos == lists(expandos@),
            match_from(pattern, 0, words, Progress::start(words)) == match_from(
                pattern,
                k as int,
                words,
                p,
            ),
        decreases find@.len() - k,
    {
        assert(pattern[k as int] == find@[k as int]@);
        match &find[k] {
            Item::Literal(word) => {
                let same = match at {
                    Some(i) => {
                        assert(words[i as int] == cmd@[i as int]@);
                        cmd[i] == *word
                    },
                    None => false,
                };
                if !same {
                    return Tried::NoMatch;
                }
            },
            Item::Variable(id) => {
                if vars.contains_key(id) || expandos.contains_key(id) {
                    return Tried::Broken;
                }
                match at {
                    Some(i) => {
                        assert(words[i as int] == cmd@[i as int]@);
                        vars.insert(*id, cmd[i].clone());
                        proof {
                            p = Progress { vars: p.vars.insert(*id, words[i as int]), ..p };
                            assert(table(vars@) =~= p.vars);
                        }
                    },
                    None => {
                        return Tried::NoMatch;
                    },
                }
            },
            Item::Expando(id) => {
                if vars.contains_key(id) || expandos.contains_key(id) {
                    return Tried::Broken;
                }
                let mut taken: Vec<String> = Vec::new();
                match at {
                    Some(i) => {
                        assert(words[i as int] == cmd@[i as int]@);
                        taken.push(cmd[i].clone());
                        let mut j = rest;
                        while j < cmd.len()
                            invariant
                                rest <= j <= cmd@.len(),
                                words == cmd.deep_view(),
                                words.len() == cmd@.len(),
                                i < cmd@.len(),
                                taken.deep_view() == seq![words[i as int]] + words.subrange(
                                    rest as int,
                                    j as int,
                                ),
                            decreases cmd@.len() - j,
                        {
                            let ghost before = taken.deep_view();
                            assert(words[j as int] == cmd@[j as int]@);
                            taken.push(cmd[j].clone());
                            assert(taken.deep_view() =~= before.push(words[j as int]));
                            assert(taken.deep_view() =~= seq![words[i as int]] + words.subrange(
                                rest as int,
                                j + 1,
                            ));
                            j += 1;
                        }
                    },
                    None => {
                        assert(taken.deep_view() =~= Seq::<Seq<char>>::empty());
                    },
                }
                assert(taken.deep_view() == p.all_left(words));
                expandos.insert(*id, taken);
                rest = cmd.len();
                proof {
                    p = Progress {
                        expandos: p.expandos.insert(*id, p.all_left(words)),
                        rest: words.len() as int,
                        ..p
                    };
                    assert(lists(expandos@) =~= p.expandos);
                }
                k += 1;
                continue ;
            },
        }
        if rest < cmd.len() {
            at = Some(rest);
            rest = rest + 1;
        } else {
            at = None;
        }
        proof {
            p = p.advance(words);
        }
        k += 1;
    }
    Tried::Bound(vars, expandos)
}

/// Writes out a replacement with the words that its pattern has taken.
fn build(
    replace: &Vec<Item>,
    vars: HashMap<usize, String>,
    expandos: HashMap<usize, Vec<String>>,
) -> (res: Option<Vec<String>>)
    ensures
        match res {
            Some(words) => build_from(items(replace@), 0, table(vars@), lists(expandos@)) == Some(
                words.deep_view(),
            ),
            None => build_from(items(replace@), 0, table(vars@), lists(expandos@)) is None,
        },
{
    let ghost list = items(replace@);
    let ghost whole = build_from(list, 0, table(vars@), lists(expandos@));
    let mut open_vars = vars;
    let mut open_lists = expandos;
    let mut out: Vec<String> = Vec::new();
    let mut k: usize = 0;
    proof {
        lemma_glue_empty(whole);
    }
    while k < replace.len()
        invariant
            0 <= k <= replace@.len(),
            list == items(replace@),
            whole == build_from(list, 0, table(vars@), lists(expandos@)),
            whole == glue(
                out.deep_view(),
                build_from(list, k as int, table(open_vars@), lists(open_lists@)),
            ),
        decreases replace@.len() - k,
    {
        let ghost done = out.deep_view();
        let ghost v = table(open_vars@);
        let ghost e = lists(open_lists@);
        assert(list[k as int] == replace@[k as int]@);
        match &replace[k] {
            Item::Literal(word) => {
                out.push(word.clone());
                proof {
                    assert(out.deep_view() =~= done.push(word@));
                    lemma_glue_step(done, seq![word@], build_from(list, k + 1, v, e));
                }
            },
            Item::Variable(id) => {
                match open_vars.remove(id) {
                    Some(word) => {
                        out.push(word);
                        proof {
                            assert(table(open_vars@) =~= v.remove(*id));
                            assert(out.deep_view() =~= done.push(v[*id]));
                            lemma_glue_step(done, seq![v[*id]], build_from(list, k + 1, v.remove(*id), e));
                        }
                    },
                    None => {
                        return None;
                    },
                }
            },
            Item::Expando(id) => {
                match open_lists.remove(id) {
                    Some(mut words) => {
                        let ghost added = words.deep_view();
                        out.append(&mut words);
                        proof {
                            assert(lists(open_lists@) =~= e.remove(*id));
                            assert(out.deep_view() =~= done + added);
                            lemma_glue_step(done, added, build_from(list, k + 1, v, e.remove(*id)));
                        }
                    },
                    None => {
                        return None;
                    },
                }
            },
        }
        k += 1;
    }
    proof {
        assert(out.deep_view() + Seq::<Seq<char>>::empty() =~= out.deep_view());
    }
    Some(out)
}

/// `done`, put in front of what the rest of a replacement gives.
pub open spec fn glue(done: Seq<Seq<char>>, rest: Option<Seq<Seq<char>>>) -> Option<
    Seq<Seq<char>>,
> {
    match rest {
        Some(more) => Some(done + more),
        None => None,
    }
}

proof fn lemma_glue_empty(rest: Option<Seq<Seq<char>>>)
    ensures
        glue(Seq::empty(), rest) == rest,
{
    if rest is Some {
        assert(Seq::<Seq<char>>::empty() + rest.unwrap() =~= rest.unwrap());
    }
}

proof fn lemma_glue_step(done: Seq<Seq<char>>, step: Seq<Seq<char>>, rest: Option<Seq<Seq<char>>>)
    ensures
        glue(done, glue(step, rest)) == glue(done + step, rest),
{
    if rest is Some {
        assert(done + (step + rest.unwrap()) =~= (done + step) + rest.unwrap());
    }
}

impl Prefs {
    /// The command as its aliases rewrite it.
    pub open spec fn expanded(&self, cmd: Seq<Seq<char>>) -> Option<Seq<Seq<char>>> {
        expand_from(self.aliases@, 0, cmd)
    }

    /// Rewrites a command by the first alias that matches it. `None` where
    /// an alias that is tried is broken: its pattern names a variable or an
    /// expando twice, or its replacement names one that the pattern has not
    /// taken or that has been put back already.
    pub fn try_expand(&self, cmd: Vec<String>) -> (res: Option<Vec<String>>)
        ensures
            match res {
                Some(words) => self.expanded(cmd.deep_view()) == Some(words.deep_view()),
                None => self.expanded(cmd.deep_view()) is None,
            },
    {
        let ghost words = cmd.deep_view();
        let mut r: usize = 0;
        while r < self.aliases.len()
            invariant
                0 <= r <= self.aliases@.len(),
                words == cmd.deep_view(),
                expand_from(self.aliases@, 0, words) == expand_from(self.aliases@, r as int, words),
            decreases self.aliases@.len() - r,
        {
            let rule = &self.aliases[r];
            match try_match(&rule.find, &cmd) {
                Tried::Bound(vars, expandos) => {
                    return build(&rule.replace, vars, expandos);
                },
                Tried::NoMatch => {},
                Tried::Broken => {
                    return None;
                },
            }
            r += 1;
        }
        Some(cmd)
    }

    /// Rewrites a command by the first alias that matches it; a command that
    /// no alias matches stays as it is.
    pub fn expand(&self, cmd: Vec<String>) -> (words: Vec<String>)
        requires
            self.expanded(cmd.deep_view()) is Some,
        ensures
            self.expanded(cmd.deep_view()) == Some(words.deep_view()),
    {
        self.try_expand(cmd).unwrap()
    }
}

impl Default for Prefs {
    fn default() -> (p: Prefs)
        ensures
            p.aliases@.len() == 0,
    {
        Prefs { aliases: Vec::new() }
    }
}

} // verus!
