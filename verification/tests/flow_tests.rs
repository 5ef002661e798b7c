use yami::parser::flow::{parse_flow_mapping, parse_flow_sequence, parse_flow_value, FlowCursor};
use yami::{Entry, ErrorKind, Position, Yaml};

#[test]
fn test_flow_sequence_empty_and_simple() {
    let input = "[1, 2, 3]";
    let mut cursor = FlowCursor::new(input, Position::start());
    let val = parse_flow_sequence(&mut cursor).expect("should parse sequence");
    assert_eq!(
        val,
        Yaml::Sequence(vec![Yaml::Scalar("1"), Yaml::Scalar("2"), Yaml::Scalar("3")])
    );
}

#[test]
fn test_flow_sequence_trailing_comma_and_quotes() {
    let input = "['apple', \"banana\", 'cherry',]";
    let mut cursor = FlowCursor::new(input, Position::start());
    let val = parse_flow_sequence(&mut cursor).expect("should parse sequence");
    assert_eq!(
        val,
        Yaml::Sequence(vec![
            Yaml::Scalar("apple"),
            Yaml::Scalar("banana"),
            Yaml::Scalar("cherry"),
        ])
    );
}

#[test]
fn test_flow_mapping_simple_and_nested() {
    let input = "{ name: 'Alice', age: 30, tags: [rust, dev] }";
    let mut cursor = FlowCursor::new(input, Position::start());
    let val = parse_flow_mapping(&mut cursor).expect("should parse mapping");

    assert_eq!(
        val,
        Yaml::Mapping(vec![
            Entry::new(Yaml::Scalar("name"), Yaml::Scalar("Alice")),
            Entry::new(Yaml::Scalar("age"), Yaml::Scalar("30")),
            Entry::new(
                Yaml::Scalar("tags"),
                Yaml::Sequence(vec![Yaml::Scalar("rust"), Yaml::Scalar("dev")])
            ),
        ])
    );
}

#[test]
fn test_unclosed_brackets_error() {
    let input = "[1, 2, 3";
    let mut cursor = FlowCursor::new(input, Position::start());
    let err = parse_flow_sequence(&mut cursor).expect_err("should fail unclosed bracket");
    assert_eq!(err.kind, ErrorKind::UnclosedDelimiter('['));
}

#[test]
fn flow_cursor_tracks_positions_across_lines() {
    let mut cursor = FlowCursor::new("  [a,\n  b]", Position::new(3, 5, 20));
    cursor.skip_whitespace_and_comments();
    assert_eq!(cursor.current_position(), Position::new(3, 7, 22));
    assert_eq!(cursor.peek_char(), Some('['));
    assert!(!cursor.consume_char('{'));
    assert!(cursor.consume_char('['));
    assert_eq!(cursor.remaining(), "a,\n  b]");
    let val = parse_flow_sequence(&mut FlowCursor::new("[a,\n  b]", Position::start()))
        .expect("two lines");
    assert_eq!(val, Yaml::Sequence(vec![Yaml::Scalar("a"), Yaml::Scalar("b")]));
}

#[test]
fn flow_errors_carry_kinds_and_positions() {
    let mut cursor = FlowCursor::new("[a: b]", Position::start());
    let err = parse_flow_sequence(&mut cursor).expect_err("missing comma");
    assert_eq!(
        err.kind,
        ErrorKind::InvalidFlowSyntax("expected ',' or ']' in flow sequence")
    );
    assert_eq!(err.position, Position::new(1, 3, 2));
    let mut cursor = FlowCursor::new("{a: 1", Position::start());
    let err = parse_flow_mapping(&mut cursor).expect_err("unclosed mapping");
    assert_eq!(err.kind, ErrorKind::UnclosedDelimiter('{'));
    assert_eq!(err.position, Position::start());
    let mut cursor = FlowCursor::new("[,]", Position::start());
    let err = parse_flow_value(&mut cursor).expect_err("missing value");
    assert_eq!(err.kind, ErrorKind::ExpectedValue);
    assert_eq!(err.position, Position::new(1, 2, 1));
    let mut cursor = FlowCursor::new("   ", Position::start());
    let err = parse_flow_value(&mut cursor).expect_err("nothing");
    assert_eq!(err.kind, ErrorKind::UnexpectedEof);
    let mut cursor = FlowCursor::new("['abc", Position::start());
    let err = parse_flow_value(&mut cursor).expect_err("open quote");
    assert_eq!(err.kind, ErrorKind::UnclosedDelimiter('\''));
    let mut cursor = FlowCursor::new("{a}", Position::start());
    let err = parse_flow_value(&mut cursor).expect_err("no colon");
    assert_eq!(err.kind, ErrorKind::ExpectedColon);
}

#[test]
fn where_the_cursor_stops_on_errors() {
    let mut cursor = FlowCursor::new("['abc", Position::start());
    assert!(parse_flow_value(&mut cursor).is_err());
    assert_eq!(cursor.remaining(), "abc");

    let mut cursor = FlowCursor::new("[a: b]", Position::start());
    assert!(parse_flow_sequence(&mut cursor).is_err());
    assert_eq!(cursor.remaining(), ": b]");

    let mut cursor = FlowCursor::new("x", Position::start());
    let err = parse_flow_mapping(&mut cursor).expect_err("no brace");
    assert_eq!(err.kind, ErrorKind::UnexpectedCharacter('x'));
    assert_eq!(cursor.remaining(), "x");

    let mut cursor = FlowCursor::new("{a  b}", Position::start());
    let err = parse_flow_mapping(&mut cursor).expect_err("no colon");
    assert_eq!(err.kind, ErrorKind::ExpectedColon);
    assert_eq!(cursor.remaining(), "}");
}

#[test]
fn consume_char_agrees_with_remaining() {
    let mut cursor = FlowCursor::new("é[x]", Position::start());
    for ch in ['[', 'é', '[', 'x', ']', ']'] {
        let before = cursor.remaining();
        let moved = cursor.consume_char(ch);
        assert_eq!(moved, before.starts_with(ch));
        if moved {
            assert_eq!(cursor.remaining(), &before[ch.len_utf8()..]);
        } else {
            assert_eq!(cursor.remaining(), before);
        }
    }
    assert_eq!(cursor.remaining(), "");
    assert!(!cursor.consume_char(']'));
}
