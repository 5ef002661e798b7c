use yami::parser::mapping::{parse_block_mapping, parse_block_mapping_with_first_entry};
use yami::parser::parse_node;
use yami::parser::sequence::{parse_block_sequence, parse_scalar_or_quoted, split_mapping_key_val};
use yami::{parse, Entry, ErrorKind, Position, Scanner, Yaml};

#[test]
fn split_key_and_value() {
    assert_eq!(split_mapping_key_val("key: value"), Some(("key", "value")));
    assert_eq!(split_mapping_key_val("key:"), Some(("key", "")));
    assert_eq!(split_mapping_key_val("key:\tvalue"), Some(("key", "value")));
    assert_eq!(split_mapping_key_val("url: http://x"), Some(("url", "http://x")));
    assert_eq!(split_mapping_key_val("a:b"), None);
    assert_eq!(split_mapping_key_val("'a: b': c"), Some(("'a: b'", "c")));
    assert_eq!(split_mapping_key_val("\"a\\\": b\": c"), Some(("\"a\\\": b\"", "c")));
    assert_eq!(split_mapping_key_val("plain text"), None);
}

#[test]
fn scalars_lose_their_quotes_and_blanks() {
    assert_eq!(parse_scalar_or_quoted("  plain  "), Yaml::Scalar("plain"));
    assert_eq!(parse_scalar_or_quoted(" 'single' "), Yaml::Scalar("single"));
    assert_eq!(parse_scalar_or_quoted("\"double\""), Yaml::Scalar("double"));
    assert_eq!(parse_scalar_or_quoted("'"), Yaml::Scalar("'"));
    assert_eq!(parse_scalar_or_quoted("'mixed\""), Yaml::Scalar("'mixed\""));
}

#[test]
fn block_parsers_on_a_scanner() {
    let mut scanner = Scanner::new("- a\n- b\nnext: 1").expect("scans");
    let seq = parse_block_sequence(&mut scanner, 0).expect("sequence");
    assert_eq!(seq, Yaml::Sequence(vec![Yaml::Scalar("a"), Yaml::Scalar("b")]));
    assert_eq!(scanner.peek().expect("rest").content, "next: 1");
    let map = parse_block_mapping(&mut scanner, 0).expect("mapping");
    assert_eq!(map, Yaml::Mapping(vec![Entry::new(Yaml::Scalar("next"), Yaml::Scalar("1"))]));
    assert!(scanner.is_eof());

    let mut scanner = Scanner::new("  b: 2\n  c: 3\nd: 4").expect("scans");
    let first = Entry::new(Yaml::Scalar("a"), Yaml::Scalar("1"));
    let map = parse_block_mapping_with_first_entry(&mut scanner, 2, first).expect("compact");
    assert_eq!(map.len(), 3);
    assert_eq!(map["c"], Yaml::Scalar("3"));
    assert_eq!(scanner.peek().expect("rest").content, "d: 4");

    let mut scanner = Scanner::new("x\n  y: 1").expect("scans");
    let err = parse_node(&mut scanner, 2).expect_err("too shallow");
    assert_eq!(err.kind, ErrorKind::InvalidIndentation { expected: 2, found: 0 });
    assert_eq!(err.position, Position::new(1, 1, 0));
    assert_eq!(parse_node(&mut scanner, 0).expect("scalar"), Yaml::Scalar("x"));
}

#[test]
fn flow_mappings_refuse_repeated_keys() {
    let err = parse("{a: 1, a: 2}").expect_err("repeated key");
    assert_eq!(err.kind, ErrorKind::DuplicateKey("a".to_string()));
    assert_eq!(err.position, Position::new(1, 8, 7));
    let mut cursor = yami::parser::flow::FlowCursor::new("{a: 1, a: 2}", Position::start());
    let err = yami::parser::flow::parse_flow_mapping(&mut cursor).expect_err("repeated key");
    assert_eq!(err.kind, ErrorKind::DuplicateKey("a".to_string()));
    assert_eq!(cursor.remaining(), ": 2}");
    let err = parse("k: {x: 1, y: {z: 1, z: 2}}").expect_err("nested repeat");
    assert_eq!(err.kind, ErrorKind::DuplicateKey("z".to_string()));
    assert!(parse("{a: 1, b: {a: 2}}").is_ok());
}

#[test]
fn where_parsers_stop_on_errors() {
    let mut scanner = Scanner::new("a: 1\nbad line\nc: 3").expect("scans");
    let err = parse_block_mapping(&mut scanner, 0).expect_err("no colon");
    assert_eq!(err.kind, ErrorKind::ExpectedColon);
    assert_eq!(scanner.peek().expect("stopped at the bad line").content, "bad line");

    let mut scanner = Scanner::new("a: 1\na: 2\nb: 3").expect("scans");
    let err = parse_block_mapping(&mut scanner, 0).expect_err("duplicate");
    assert_eq!(err.kind, ErrorKind::DuplicateKey("a".to_string()));
    assert_eq!(scanner.peek().expect("stopped after the duplicate").content, "b: 3");

    let mut scanner = Scanner::new("k: [1, 2\nnext: 1").expect("scans");
    let err = parse_node(&mut scanner, 0).expect_err("unclosed flow value");
    assert_eq!(err.kind, ErrorKind::UnclosedDelimiter('['));
    assert_eq!(scanner.peek().expect("past the flow line").content, "next: 1");
}
