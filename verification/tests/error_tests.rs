use yami::{ErrorKind, Position, YamlError};

#[test]
fn test_error_display_formatting() {
    let pos = Position::new(4, 12, 45);
    let err = YamlError::new(ErrorKind::TabInIndentation, pos);
    assert_eq!(
        err.to_string(),
        "yaml parse error at 4:12: tab characters are not allowed for indentation; use spaces"
    );
}

#[test]
fn test_error_kinds_display() {
    let pos = Position::start();
    let eof_err = YamlError::new(ErrorKind::UnexpectedEof, pos);
    assert_eq!(eof_err.to_string(), "yaml parse error at 1:1: unexpected end of input");

    let indent_err = YamlError::new(ErrorKind::InvalidIndentation { expected: 4, found: 2 }, pos);
    assert_eq!(
        indent_err.to_string(),
        "yaml parse error at 1:1: invalid indentation: expected at least 4 spaces, found 2"
    );
}

#[test]
fn every_kind_has_its_message() {
    let cases = vec![
        (ErrorKind::UnexpectedEof, "unexpected end of input"),
        (
            ErrorKind::InvalidIndentation { expected: 10, found: 0 },
            "invalid indentation: expected at least 10 spaces, found 0",
        ),
        (
            ErrorKind::TabInIndentation,
            "tab characters are not allowed for indentation; use spaces",
        ),
        (ErrorKind::UnexpectedCharacter('x'), "unexpected character 'x'"),
        (ErrorKind::ExpectedColon, "expected ':' separating mapping key and value"),
        (ErrorKind::ExpectedKey, "expected mapping key"),
        (ErrorKind::ExpectedValue, "expected value"),
        (ErrorKind::UnclosedDelimiter('{'), "unclosed delimiter '{'"),
        (ErrorKind::InvalidFlowSyntax("oops"), "invalid flow syntax: oops"),
        (ErrorKind::DuplicateKey("k".to_string()), "duplicate mapping key 'k'"),
        (ErrorKind::Custom("free text".to_string()), "free text"),
    ];
    for (kind, message) in cases {
        assert_eq!(kind.to_string(), message);
    }
}

#[test]
fn position_display_and_start() {
    assert_eq!(Position::new(123, 45, 6).to_string(), "123:45");
    let start = Position::start();
    assert_eq!((start.line, start.column, start.offset), (1, 1, 0));
    let custom = YamlError::custom("bad", Position::new(2, 3, 4));
    assert_eq!(custom.kind, ErrorKind::Custom("bad".to_string()));
    assert_eq!(custom.to_string(), "yaml parse error at 2:3: bad");
}
