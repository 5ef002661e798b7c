use yami::{parse, Entry, ErrorKind, Position, Yaml, YamlError};

fn s(text: &str) -> Yaml<'_> {
    Yaml::Scalar(text)
}

fn map<'a>(entries: Vec<(&'a str, Yaml<'a>)>) -> Yaml<'a> {
    Yaml::Mapping(entries.into_iter().map(|(k, v)| Entry::new(Yaml::Scalar(k), v)).collect())
}

fn scalars_of<'a>(doc: &Yaml<'a>, out: &mut Vec<&'a str>) {
    match doc {
        Yaml::Scalar(t) => out.push(t),
        Yaml::Sequence(items) => {
            for item in items {
                scalars_of(item, out);
            }
        }
        Yaml::Mapping(entries) => {
            for e in entries {
                scalars_of(&e.key, out);
                scalars_of(&e.value, out);
            }
        }
    }
}

#[test]
fn readme_quick_start() {
    let input = r#"
service:
  name: auth-microservice
  port: 8080
  debug: true

database:
  host: db.internal
  replicas:
    - replica-1.internal
    - replica-2.internal

tags: [security, fast, zero-copy]
"#;
    let doc = parse(input).expect("parses");
    assert_eq!(doc["service"]["name"], Yaml::Scalar("auth-microservice"));
    assert_eq!(doc["service"]["port"].to_i64().expect("port"), 8080);
    assert!(doc["service"]["debug"].to_bool().expect("debug"));
    let replicas = doc["database"]["replicas"].as_sequence().expect("replicas");
    assert_eq!(replicas[0], Yaml::Scalar("replica-1.internal"));
    let tags = doc["tags"].as_sequence().expect("tags");
    assert_eq!(tags.len(), 3);
    assert_eq!(tags[0], Yaml::Scalar("security"));
    assert_eq!(doc["missing"]["deeper"], Yaml::Scalar(""));
}

#[test]
fn readme_tab_error() {
    let malformed = "
server:
\thost: localhost  # Tabs in indentation are strictly forbidden
";
    let err = parse(malformed).expect_err("tab");
    assert!(matches!(err.kind, ErrorKind::TabInIndentation));
    assert_eq!(err.position.line, 3);
    assert_eq!(err.position.column, 1);
}

#[test]
fn every_block_error_kind() {
    assert_eq!(
        parse("a: 1\nnot a pair\n").expect_err("no colon"),
        YamlError::new(ErrorKind::ExpectedColon, Position::new(2, 1, 5))
    );
    assert_eq!(
        parse("a: 1\n  b: 2\n").expect_err("deeper line"),
        YamlError::new(ErrorKind::InvalidIndentation { expected: 0, found: 2 }, Position::new(2, 3, 7))
    );
    assert_eq!(
        parse("- a\n  b\n").expect_err("deeper line in sequence"),
        YamlError::new(ErrorKind::InvalidIndentation { expected: 0, found: 2 }, Position::new(2, 3, 6))
    );
    let err = parse("\nkey: first\nkey: duplicate\n").expect_err("duplicate");
    assert_eq!(err, YamlError::new(ErrorKind::DuplicateKey("key".to_string()), Position::new(3, 1, 12)));
    assert_eq!(err.to_string(), "yaml parse error at 3:1: duplicate mapping key 'key'");
    assert_eq!(
        parse("- a: 1\n  a: 2").expect_err("duplicate in compact mapping"),
        YamlError::new(ErrorKind::DuplicateKey("a".to_string()), Position::new(2, 3, 9))
    );
    assert_eq!(
        parse("a: [1, 2").expect_err("unclosed flow value"),
        YamlError::new(ErrorKind::UnclosedDelimiter('['), Position::new(1, 4, 3))
    );
}

#[test]
fn flow_values_are_reported_where_they_start() {
    assert_eq!(
        parse("k:   [a").expect_err("unclosed"),
        YamlError::new(ErrorKind::UnclosedDelimiter('['), Position::new(1, 6, 5))
    );
    assert_eq!(
        parse("- k: [a").expect_err("unclosed in compact mapping"),
        YamlError::new(ErrorKind::UnclosedDelimiter('['), Position::new(1, 6, 5))
    );
    assert_eq!(
        parse("-   [a").expect_err("unclosed item"),
        YamlError::new(ErrorKind::UnclosedDelimiter('['), Position::new(1, 5, 4))
    );
    assert_eq!(
        parse("- x:  {a: 1, a: 2}").expect_err("repeat in compact value"),
        YamlError::new(ErrorKind::DuplicateKey("a".to_string()), Position::new(1, 14, 13))
    );
    assert_eq!(
        parse("k: \u{a0}[a").expect_err("wide blank before the value"),
        YamlError::new(ErrorKind::UnclosedDelimiter('['), Position::new(1, 5, 5))
    );
}

#[test]
fn document_markers_and_empty_documents() {
    assert_eq!(parse("---\na: 1\n...\nb: 2\n").expect("markers"), map(vec![("a", s("1"))]));
    assert_eq!(parse("---\n").expect("marker only"), s(""));
    assert_eq!(parse("").expect("empty"), s(""));
    assert_eq!(parse("  \n\n").expect("blank"), s(""));
    assert_eq!(parse("hello world").expect("plain"), s("hello world"));
    assert_eq!(parse("'quoted text'").expect("quoted"), s("quoted text"));
}

#[test]
fn empty_values_bare_dashes_and_compact_mappings() {
    assert_eq!(parse("a:\nb: 1").expect("empty value"), map(vec![("a", s("")), ("b", s("1"))]));
    assert_eq!(
        parse("- a:\n    - x\n  b: 2").expect("compact with nested"),
        Yaml::Sequence(vec![map(vec![("a", Yaml::Sequence(vec![s("x")])), ("b", s("2"))])])
    );
    assert_eq!(
        parse("-\n  x: 1\n- y").expect("bare dash"),
        Yaml::Sequence(vec![map(vec![("x", s("1"))]), s("y")])
    );
    assert_eq!(parse("- \n- z").expect("empty item"), Yaml::Sequence(vec![s(""), s("z")]));
    assert_eq!(
        parse("'k': \"v\"\nlist: [1, {a: b}]").expect("quotes and flow"),
        map(vec![
            ("k", s("v")),
            ("list", Yaml::Sequence(vec![s("1"), map(vec![("a", s("b"))])])),
        ])
    );
    assert_eq!(
        parse("- [a, b]\n- {c: d}").expect("flow items"),
        Yaml::Sequence(vec![Yaml::Sequence(vec![s("a"), s("b")]), map(vec![("c", s("d"))])])
    );
}

#[test]
fn parsing_is_deterministic() {
    let inputs = ["a: 1\nb: [x, y]\n", "key: 1\nkey: 2", "\tbad: tab", "- a\n- b: c\n  d: e"];
    for input in inputs {
        assert_eq!(parse(input), parse(input));
    }
}

#[test]
fn block_mappings_hold_no_duplicate_keys() {
    let doc = parse("a: 1\nb:\n  a: 2\n  b: 3\nc: [a, a]").expect("distinct keys per mapping");
    let top = doc.as_mapping().expect("mapping");
    let keys: Vec<_> = top.iter().map(|e| e.key.as_scalar()).collect();
    assert_eq!(keys, vec![Some("a"), Some("b"), Some("c")]);
    assert!(parse("x: 1\ny: 2\nx: 3").is_err());
}

#[test]
fn scalars_are_slices_of_the_input() {
    let input = String::from("name: yami\nlist:\n  - 'one'\n  - {k: \"v\"}\nflow: [a, b]\n");
    let doc = parse(&input).expect("parses");
    let mut scalars = Vec::new();
    scalars_of(&doc, &mut scalars);
    assert_eq!(scalars.len(), 9);
    let range = input.as_bytes().as_ptr_range();
    for text in scalars {
        let p = text.as_ptr();
        assert!(range.start <= p && p <= range.end);
    }
}

#[test]
fn error_positions_are_one_indexed() {
    let bad = ["\tx", "a: 1\n b", "[", "{a: 1,", "- a\n - b", "k: v\nk: w"];
    for input in bad {
        let err = parse(input).expect_err("malformed");
        assert!(err.position.line >= 1);
        assert!(err.position.column >= 1);
    }
}

fn source_position(input: &str, offset: usize) -> Position {
    let before = &input[..offset];
    let line = 1 + before.matches('\n').count();
    let line_start = before.rfind('\n').map(|i| i + 1).unwrap_or(0);
    let column = 1 + before[line_start..].chars().count();
    Position::new(line, column, offset)
}

#[test]
fn error_positions_are_exact_source_positions() {
    let bad = [
        "\tx",
        "a: 1\n b",
        "k:   [a",
        "- k: [a",
        "x: {a: 1, a: 2}",
        "list:\n  - {é: 1,\n  - y",
        "a:\n  b: [1,\n  c: 2",
        "k: v\nk: w",
        "- a: 1\n  a: 2",
        "  ok: 1\n  x y\n",
    ];
    for input in bad {
        let err = parse(input).expect_err("malformed");
        assert!(err.position.offset <= input.len());
        assert_eq!(err.position, source_position(input, err.position.offset), "{input:?}");
    }
}

#[test]
fn scanned_lines_are_cut_from_the_input() {
    let input = "# head\nkey: value   # note\n  - item\r\n\n   deep: 'a # b'  \nlast";
    let mut scanner = yami::Scanner::new(input).expect("scans");
    let mut previous = 0;
    while let Some(l) = scanner.next_line() {
        assert!(!l.content.is_empty());
        assert!(!l.content.starts_with(' ') && !l.content.starts_with('\t'));
        assert!(!l.content.ends_with(char::is_whitespace));
        assert_eq!(l.start_column, l.indent + 1);
        assert_eq!(&input[l.byte_offset..l.byte_offset + l.content.len()], l.content);
        assert_eq!(l.start_position(), source_position(input, l.byte_offset));
        assert!(input[..l.byte_offset].ends_with(&" ".repeat(l.indent)));
        assert!(l.line_number > previous);
        previous = l.line_number;
    }
}
