use nak::simple::{parse_command_simple, Args, Command, Shell, SyntaxError, Tool};
use nak::syntax::{is_word_char, scan, Node, NodeType, Parsed, Parser};

#[test]
fn check_full() {
    assert!(Parsed {
        node: &Node {
            ty: NodeType::Whitespace,
            begin: 0,
            end: 7,
            children: vec![],
        },
        text: "1234567"
    }
    .is_full());
}

#[test]
fn can_parse() {
    let mut parser = Parser::new();

    parser.parse("");

    {
        let v = parser.parse("test");
        assert_eq!(v.node.ty, NodeType::Command);
        assert_eq!(
            v.node.children.iter().map(|v| v.ty).collect::<Vec<_>>(),
            vec![NodeType::Word]);
    }

    {
        let v = parser.parse(" test ");
        assert_eq!(v.node.ty, NodeType::Command);
        assert_eq!(
            v.node.children.iter().map(|v| v.ty).collect::<Vec<_>>(),
            vec![NodeType::Whitespace, NodeType::Word, NodeType::Whitespace]);
    }

    {
        let v = parser.parse(" test test2");
        assert_eq!(v.node.ty, NodeType::Command);
        assert_eq!(
            v.node.children.iter().map(|v| v.ty).collect::<Vec<_>>(),
            vec![
                NodeType::Whitespace,
                NodeType::Word,
                NodeType::Whitespace,
                NodeType::Word,
            ]);
    }
}

#[test]
fn main_parse_simple() {
    let c = parse_command_simple(" test 1 abc 2").unwrap();
    assert_eq!(c, Shell::Run(Command {
        tool: Tool::Path(String::from("test")),
        args: Args {args: vec![
            String::from("1"),
            String::from("abc"),
            String::from("2"),
        ]}
    }));
}

#[test]
fn parsed_tree_is_full_and_spans_the_tokens() {
    let mut parser = Parser::new();
    let v = parser.parse("ab  c");
    assert!(v.is_full());
    let spans: Vec<(usize, usize)> = v.node.children.iter().map(|n| (n.begin, n.end)).collect();
    assert_eq!(spans, vec![(0, 2), (2, 4), (4, 5)]);
    assert_eq!((v.node.begin, v.node.end), (0, 5));
}

#[test]
fn tree_with_a_gap_is_not_full() {
    let node = Node {
        ty: NodeType::Command,
        begin: 0,
        end: 4,
        children: vec![
            Node { ty: NodeType::Word, begin: 0, end: 1, children: vec![] },
            Node { ty: NodeType::Word, begin: 2, end: 4, children: vec![] },
        ],
    };
    assert!(!Parsed { node: &node, text: "abcd" }.is_full());
    assert!(!node.is_full_inner(0, 5));
}

#[test]
fn tree_that_stops_short_is_not_full() {
    let node = Node { ty: NodeType::Whitespace, begin: 0, end: 6, children: vec![] };
    assert!(!Parsed { node: &node, text: "1234567" }.is_full());
}

#[test]
fn scan_turns_away_other_characters() {
    assert!(scan("ls -l").is_none());
    assert!(scan("caf\u{e9}").is_none());
    assert!(scan("a b").is_some());
}

#[test]
fn empty_line_and_blank_line_ask_for_nothing() {
    assert_eq!(parse_command_simple(""), Ok(Shell::DoNothing));
    assert_eq!(parse_command_simple("   "), Ok(Shell::DoNothing));
}

#[test]
fn line_with_punctuation_is_a_syntax_error() {
    assert_eq!(parse_command_simple("echo hi!"), Err(SyntaxError::UnexpectedCharacter));
}

#[test]
fn word_characters_are_letters_and_digits() {
    assert!(is_word_char(b'a') && is_word_char(b'z') && is_word_char(b'A'));
    assert!(is_word_char(b'Z') && is_word_char(b'0') && is_word_char(b'9'));
    assert!(!is_word_char(b' ') && !is_word_char(b'-') && !is_word_char(b'{'));
    assert!(!is_word_char(b'@') && !is_word_char(b'[') && !is_word_char(b'/'));
}
