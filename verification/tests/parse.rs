use nak::lower::{
    check_single_arg, convert_ast, convert_single, parse_command_simple, LowerError,
    SingleCommandReader,
};
use nak::parse::{
    parse_input, try_parse_input, Ast, Cmd, RedirectClause, SequenceClause, SequenceType, Stream,
    Target, Word,
};
use nak::plan::{PlanBuilder, PlanProcess, RemoteRef, RemoteStep, Remotes, Sink, Step};
use nak::prefs::{Item, Prefs, Rule};
use nak::protocol::Command;

fn word(s: &str) -> Word {
    Word::Normal(s.to_string())
}

fn cmd(words: &[&str]) -> Cmd {
    Cmd { remote: None, words: words.iter().map(|w| word(w)).collect() }
}

fn strings(words: &[&str]) -> Vec<String> {
    words.iter().map(|w| w.to_string()).collect()
}

fn home() -> Remotes {
    Remotes { stack: vec![RemoteRef(0)] }
}

#[test]
fn empty_and_blank_lines() {
    assert_eq!(parse_input(""), Ast::Empty);
    assert_eq!(parse_input("   "), Ast::Empty);
}

#[test]
fn one_command() {
    assert_eq!(parse_input("echo test1234test"), Ast::Cmd(cmd(&["echo", "test1234test"])));
    assert_eq!(parse_input("  ls   -l  "), Ast::Cmd(cmd(&["ls", "-l"])));
}

#[test]
fn quoted_words() {
    assert_eq!(parse_input("echo \"a b; c\" d"), Ast::Cmd(cmd(&["echo", "a b; c", "d"])));
    assert_eq!(parse_input("\"\""), Ast::Cmd(cmd(&[""])));
    assert_eq!(parse_input("echo \"caf\u{e9} | x\""), Ast::Cmd(cmd(&["echo", "caf\u{e9} | x"])));
}

#[test]
fn words_need_not_be_ascii() {
    assert_eq!(parse_input("echo gr\u{fc}\u{df}e \u{4e16}\u{754c}"), Ast::Cmd(cmd(&["echo", "gr\u{fc}\u{df}e", "\u{4e16}\u{754c}"])));
}

#[test]
fn pipes_and_files() {
    assert_eq!(
        parse_input("a | b c > out.txt"),
        Ast::Redirect(
            Box::new(Ast::Cmd(cmd(&["a"]))),
            vec![
                RedirectClause(Stream::Stdout, Target::Command(Ast::Cmd(cmd(&["b", "c"])))),
                RedirectClause(Stream::Stdout, Target::File(word("out.txt"))),
            ]
        )
    );
    assert_eq!(
        parse_input("a>b"),
        Ast::Redirect(
            Box::new(Ast::Cmd(cmd(&["a"]))),
            vec![RedirectClause(Stream::Stdout, Target::File(word("b")))]
        )
    );
}

#[test]
fn sequences() {
    assert_eq!(
        parse_input("a; b | c ;d"),
        Ast::Sequence(
            Box::new(Ast::Cmd(cmd(&["a"]))),
            vec![
                SequenceClause(
                    SequenceType::Wait,
                    Ast::Redirect(
                        Box::new(Ast::Cmd(cmd(&["b"]))),
                        vec![RedirectClause(Stream::Stdout, Target::Command(Ast::Cmd(cmd(&["c"]))))]
                    )
                ),
                SequenceClause(SequenceType::Wait, Ast::Cmd(cmd(&["d"]))),
            ]
        )
    );
}

#[test]
fn missing_words_are_empty_words() {
    assert_eq!(
        parse_input(";"),
        Ast::Sequence(
            Box::new(Ast::Cmd(cmd(&[""]))),
            vec![SequenceClause(SequenceType::Wait, Ast::Cmd(cmd(&[""])))]
        )
    );
    assert_eq!(
        parse_input("a |"),
        Ast::Redirect(
            Box::new(Ast::Cmd(cmd(&["a"]))),
            vec![RedirectClause(Stream::Stdout, Target::Command(Ast::Cmd(cmd(&[""]))))]
        )
    );
}

#[test]
fn lines_that_are_not_well_formed() {
    assert_eq!(try_parse_input("echo \"open"), None);
    assert_eq!(try_parse_input("ec\"ho"), None);
    assert_eq!(try_parse_input("a \"b\"c\""), None);
    assert!(try_parse_input("a \"b\" c").is_some());
}

#[test]
fn word_expands_to_its_text() {
    assert_eq!(word("x y").expand_string(), "x y");
}

#[test]
fn single_argument() {
    assert_eq!(check_single_arg(strings(&["a"])), Ok("a".to_string()));
    assert_eq!(check_single_arg(strings(&[])), Err(LowerError::NotEnoughArgs));
    assert_eq!(check_single_arg(strings(&["a", "b"])), Err(LowerError::TooManyArgs));
}

#[test]
fn built_ins_and_programs() {
    let prefs = Prefs::default();
    let r = home();
    assert_eq!(convert_single(&r, &prefs, &cmd(&["cd", "/tmp"])), Ok(Command::SetDirectory("/tmp".to_string())));
    assert_eq!(convert_single(&r, &prefs, &cmd(&["micro", "x.rs"])), Ok(Command::Edit("x.rs".to_string())));
    assert_eq!(
        convert_single(&r, &prefs, &cmd(&["ls", "-l", "a"])),
        Ok(Command::Unknown("ls".to_string(), strings(&["-l", "a"])))
    );
    assert_eq!(convert_single(&r, &prefs, &cmd(&["cd"])), Err(LowerError::NotEnoughArgs));
    assert_eq!(convert_single(&r, &prefs, &cmd(&["micro", "a", "b"])), Err(LowerError::TooManyArgs));
    assert_eq!(convert_single(&r, &prefs, &cmd(&["nak", "host"])), Err(LowerError::NestedShell));
    assert_eq!(convert_single(&r, &prefs, &cmd(&[])), Err(LowerError::NoCommand));
}

fn alias(find: Vec<Item>, replace: Vec<Item>) -> Rule {
    Rule { find, replace }
}

fn lit(s: &str) -> Item {
    Item::Literal(s.to_string())
}

#[test]
fn no_alias_leaves_the_command() {
    assert_eq!(Prefs::default().expand(strings(&["ls", "-l"])), strings(&["ls", "-l"]));
    let prefs = Prefs { aliases: vec![alias(vec![lit("ll")], vec![lit("ls"), lit("-l")])] };
    assert_eq!(prefs.expand(strings(&["ls"])), strings(&["ls"]));
    assert_eq!(prefs.expand(strings(&[])), strings(&[]));
}

#[test]
fn literal_alias() {
    let prefs = Prefs { aliases: vec![alias(vec![lit("ll")], vec![lit("ls"), lit("-l")])] };
    assert_eq!(prefs.expand(strings(&["ll"])), strings(&["ls", "-l"]));
    // words that the pattern leaves over are dropped
    assert_eq!(prefs.expand(strings(&["ll", "dir"])), strings(&["ls", "-l"]));
}

#[test]
fn variable_and_expando() {
    let prefs = Prefs {
        aliases: vec![
            alias(
                vec![lit("g"), Item::Variable(0), Item::Expando(1)],
                vec![lit("git"), Item::Variable(0), lit("--"), Item::Expando(1)],
            ),
            alias(vec![Item::Expando(0)], vec![lit("env"), Item::Expando(0)]),
        ],
    };
    assert_eq!(
        prefs.expand(strings(&["g", "add", "a", "b"])),
        strings(&["git", "add", "--", "a", "b"])
    );
    assert_eq!(prefs.expand(strings(&["g", "status"])), strings(&["git", "status", "--"]));
    // `g` alone does not match the first rule: the variable finds no word
    assert_eq!(prefs.expand(strings(&["g"])), strings(&["env", "g"]));
    assert_eq!(prefs.expand(strings(&[])), strings(&["env"]));
}

#[test]
fn first_matching_alias_wins() {
    let prefs = Prefs {
        aliases: vec![
            alias(vec![lit("x")], vec![lit("first")]),
            alias(vec![lit("x")], vec![lit("second")]),
        ],
    };
    assert_eq!(prefs.expand(strings(&["x"])), strings(&["first"]));
}

#[test]
fn item_after_an_expando_sees_the_first_word_it_took() {
    let prefs = Prefs {
        aliases: vec![alias(vec![Item::Expando(0), lit("x")], vec![lit("got"), Item::Expando(0)])],
    };
    assert_eq!(prefs.expand(strings(&["x", "y"])), strings(&["got", "x", "y"]));
    assert_eq!(prefs.expand(strings(&["y", "x"])), strings(&["y", "x"]));
}

#[test]
fn broken_aliases() {
    let twice = Prefs {
        aliases: vec![alias(vec![Item::Variable(0), Item::Expando(0)], vec![])],
    };
    assert_eq!(twice.try_expand(strings(&["a"])), None);
    let unbound = Prefs { aliases: vec![alias(vec![lit("a")], vec![Item::Variable(3)])] };
    assert_eq!(unbound.try_expand(strings(&["a"])), None);
    assert_eq!(unbound.try_expand(strings(&["b"])), Some(strings(&["b"])));
    let reused = Prefs {
        aliases: vec![alias(vec![Item::Variable(0)], vec![Item::Variable(0), Item::Variable(0)])],
    };
    assert_eq!(reused.try_expand(strings(&["a"])), None);
    assert_eq!(
        convert_single(&home(), &reused, &cmd(&["a"])),
        Err(LowerError::BrokenAlias)
    );
}

#[test]
fn alias_then_built_in() {
    let prefs = Prefs {
        aliases: vec![alias(vec![lit("up")], vec![lit("cd"), lit("..")])],
    };
    assert_eq!(convert_single(&home(), &prefs, &cmd(&["up"])), Ok(Command::SetDirectory("..".to_string())));
}

#[test]
fn plan_of_one_command() {
    let plan = parse_command_simple(&home(), &Prefs::default(), "echo test1234test").unwrap();
    assert_eq!(
        plan.steps,
        vec![
            Step::Pipe,
            Step::Pipe,
            Step::Pipe,
            Step::Remote(
                RemoteRef(0),
                RemoteStep::Run(
                    Command::Unknown("echo".to_string(), strings(&["test1234test"])),
                    PlanProcess { id: 0, stdin: 2, stdout: 0, stderr: 1 },
                ),
            ),
        ]
    );
    assert_eq!(plan.stdin, Some(2));
    assert_eq!(plan.sink_map, vec![Some(Sink::Stdout), Some(Sink::Stderr)]);
}

#[test]
fn plan_of_a_redirect_into_a_file() {
    let plan = parse_command_simple(&home(), &Prefs::default(), "helper StdoutLine > test_file").unwrap();
    assert_eq!(
        plan.steps,
        vec![
            Step::Pipe,
            Step::Pipe,
            Step::Remote(RemoteRef(0), RemoteStep::OpenOutputFile("test_file".to_string())),
            Step::Pipe,
            Step::Pipe,
            Step::Remote(
                RemoteRef(0),
                RemoteStep::Run(
                    Command::Unknown("helper".to_string(), strings(&["StdoutLine"])),
                    PlanProcess { id: 0, stdin: 4, stdout: 2, stderr: 3 },
                ),
            ),
        ]
    );
    assert_eq!(plan.stdin, Some(4));
}

#[test]
fn plan_of_a_pipeline_is_laid_out_from_the_end() {
    let plan = parse_command_simple(&home(), &Prefs::default(), "a | b").unwrap();
    assert_eq!(
        plan.steps,
        vec![
            Step::Pipe,
            Step::Pipe,
            Step::Pipe,
            Step::Remote(
                RemoteRef(0),
                RemoteStep::Run(
                    Command::Unknown("b".to_string(), vec![]),
                    PlanProcess { id: 0, stdin: 2, stdout: 0, stderr: 1 },
                ),
            ),
            Step::Pipe,
            Step::Pipe,
            Step::Remote(
                RemoteRef(0),
                RemoteStep::Run(
                    Command::Unknown("a".to_string(), vec![]),
                    PlanProcess { id: 1, stdin: 4, stdout: 2, stderr: 3 },
                ),
            ),
        ]
    );
    assert_eq!(plan.stdin, Some(4));
}

#[test]
fn plan_of_an_empty_line_reads_from_its_own_output() {
    let plan = parse_command_simple(&home(), &Prefs::default(), "").unwrap();
    assert_eq!(plan.steps, vec![Step::Pipe, Step::Pipe]);
    assert_eq!(plan.stdin, Some(0));
}

#[test]
fn lines_that_make_no_plan() {
    let prefs = Prefs::default();
    assert_eq!(parse_command_simple(&home(), &prefs, "a ; b"), Err(LowerError::Unsupported));
    assert_eq!(parse_command_simple(&home(), &prefs, "a \"b"), Err(LowerError::Syntax));
    assert_eq!(parse_command_simple(&home(), &prefs, "cd"), Err(LowerError::NotEnoughArgs));
    assert_eq!(parse_command_simple(&home(), &prefs, "a | cd x y"), Err(LowerError::TooManyArgs));
}

#[test]
fn lowering_refuses_a_pipe_whose_end_is_taken() {
    let mut b = PlanBuilder::new();
    let out = b.pipe();
    let err = b.pipe();
    let tree = Ast::Cmd(cmd(&["ls"]));
    assert_eq!(convert_ast(&home(), &Prefs::default(), &tree, &mut b, out, err), Ok(2));
    assert_eq!(
        convert_ast(&home(), &Prefs::default(), &tree, &mut b, out, err),
        Err(LowerError::PipeInUse)
    );
    assert_eq!(convert_ast(&home(), &Prefs::default(), &Ast::Empty, &mut b, out, err), Ok(out));
}

#[test]
fn single_command_reader_gives_the_line_once() {
    let mut reader = SingleCommandReader::new(Prefs::default(), "ls".to_string());
    let first = reader.get_command().unwrap();
    assert_eq!(first.steps.len(), 4);
    let second = reader.get_command().unwrap();
    assert_eq!(second.steps, vec![Step::Remote(RemoteRef(0), RemoteStep::Close)]);
    assert_eq!(second.stdin, None);
    let third = reader.get_command().unwrap();
    assert_eq!(third.steps, vec![Step::Remote(RemoteRef(0), RemoteStep::Close)]);
}
