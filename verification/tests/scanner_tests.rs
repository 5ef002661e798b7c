use yami::{ErrorKind, Position, Scanner};

#[test]
fn test_scanner_line_extraction_and_indentation() {
    let yaml = "
# Comment line
key: value
  nested:
    - item 1
    - item 2
";
    let mut scanner = Scanner::new(yaml).expect("scanner should parse lines");
    assert_eq!(scanner.len(), 4);

    let l1 = scanner.next_line().expect("line 1");
    assert_eq!(l1.content, "key: value");
    assert_eq!(l1.indent, 0);
    assert_eq!(l1.line_number, 3);

    let l2 = scanner.next_line().expect("line 2");
    assert_eq!(l2.content, "nested:");
    assert_eq!(l2.indent, 2);

    let l3 = scanner.next_line().expect("line 3");
    assert_eq!(l3.content, "- item 1");
    assert_eq!(l3.indent, 4);

    let l4 = scanner.next_line().expect("line 4");
    assert_eq!(l4.content, "- item 2");
    assert_eq!(l4.indent, 4);

    assert!(scanner.is_eof());
}

#[test]
fn test_tab_in_indentation_fails() {
    let yaml = "key:\n\tvalue: 123";
    let err = Scanner::new(yaml).expect_err("tab in indentation should fail");
    assert_eq!(err.kind, ErrorKind::TabInIndentation);
    assert_eq!(err.position.line, 2);
}

#[test]
fn test_comment_stripping_preserves_quoted_strings() {
    let yaml = "url: \"http://example.com/#anchor\" # inline comment\ntext: 'a # b'";
    let mut scanner = Scanner::new(yaml).expect("should scan lines");

    let l1 = scanner.next_line().expect("line 1");
    assert_eq!(l1.content, "url: \"http://example.com/#anchor\"");

    let l2 = scanner.next_line().expect("line 2");
    assert_eq!(l2.content, "text: 'a # b'");
}

#[test]
fn test_windows_crlf_newlines() {
    let yaml = "a: 1\r\nb: 2\r\n";
    let mut scanner = Scanner::new(yaml).expect("should handle CRLF");
    assert_eq!(scanner.len(), 2);
    assert_eq!(scanner.next_line().expect("line 1").content, "a: 1");
    assert_eq!(scanner.next_line().expect("line 2").content, "b: 2");
}

#[test]
fn scanner_positions_peeks_and_end() {
    let yaml = "a: 1\n\n   b: x # note\n";
    let mut scanner = Scanner::new(yaml).expect("scans");
    assert_eq!(scanner.input(), yaml);
    assert!(!scanner.is_empty());
    assert_eq!(scanner.peek_indent(), Some(0));
    assert_eq!(scanner.current_position(), Position::new(1, 1, 0));
    let first = scanner.next_line().expect("first");
    assert_eq!(first.start_position(), Position::new(1, 1, 0));
    let second = *scanner.peek().expect("second");
    assert_eq!(second.content, "b: x");
    assert_eq!((second.indent, second.start_column, second.line_number, second.byte_offset), (3, 4, 3, 9));
    assert!(!second.is_sequence_item());
    assert!(!second.is_document_separator());
    scanner.next_line();
    assert!(scanner.peek().is_none());
    assert_eq!(scanner.peek_indent(), None);
    assert!(scanner.next_line().is_none());
    assert_eq!(scanner.current_position(), Position::new(4, 1, yaml.len()));
    let copy = scanner.clone();
    assert!(copy.is_eof());
}

#[test]
fn tab_after_spaces_is_reported_at_its_column() {
    let err = Scanner::new("ok: 1\n  \tx: 2").expect_err("tab");
    assert_eq!(err.kind, ErrorKind::TabInIndentation);
    assert_eq!(err.position, Position::new(2, 3, 8));
    let scanner = Scanner::new("a:\tb\n").expect("tab after content is no indentation");
    assert_eq!(scanner.len(), 1);
    assert!(Scanner::new("").expect("empty").is_empty());
    assert!(Scanner::new("   \n# c\n").expect("blank").is_empty());
}

#[test]
fn end_of_input_position_is_a_source_position() {
    let mut s = Scanner::new("a: 1\n\n\n").expect("scans");
    s.next_line();
    assert!(s.is_eof());
    assert_eq!(s.current_position(), Position::new(4, 1, 7));
    let mut s = Scanner::new("x: 1\nlast").expect("scans");
    s.next_line();
    s.next_line();
    assert_eq!(s.current_position(), Position::new(2, 5, 9));
    assert_eq!(Scanner::new("").expect("empty").current_position(), Position::new(1, 1, 0));
}

#[test]
fn reading_line_by_line() {
    let input = "a: 1\n# note\n  b: 2\n\n- c\n";
    let mut scanner = Scanner::new(input).expect("scans");
    let expected = ["a: 1", "b: 2", "- c"];
    assert_eq!(scanner.len(), expected.len());
    for text in expected {
        let peeked = scanner.peek().copied();
        let line = scanner.next_line().expect("a line is left");
        assert_eq!(Some(line), peeked);
        assert_eq!(line.content, text);
        assert_eq!(scanner.input(), input);
    }
    for _ in 0..3 {
        assert!(scanner.peek().is_none());
        assert!(scanner.next_line().is_none());
        assert!(scanner.is_eof());
    }
    assert_eq!(scanner.len(), 3);
}
