//! Error types and diagnostics for YAML parsing: a classification of what went
//! wrong and the 1-indexed source position where it happened.

use vstd::prelude::*;
use crate::text::{decimal, push_char, push_decimal};

verus! {

/// Represents a 1-indexed source code position within the input text.
#[derive(Debug, Clone, Copy, PartialEq, Eq, Hash, Structural)]
pub struct Position {
    /// 1-based line number.
    pub line: usize,
    /// 1-based column number in characters.
    pub column: usize,
    /// 0-based byte offset from start of input.
    pub offset: usize,
}

/// Mathematical model of a [`Position`].
pub struct Pos {
    pub line: int,
    pub column: int,
    pub offset: int,
}

impl View for Position {
    type V = Pos;

    open spec fn view(&self) -> Pos {
        Pos { line: self.line as int, column: self.column as int, offset: self.offset as int }
    }
}

/// The position `(line, column, offset)`.
pub open spec fn pos(line: int, column: int, offset: int) -> Pos {
    Pos { line, column, offset }
}

impl Position {
    /// Creates a new source position.
    pub fn new(line: usize, column: usize, offset: usize) -> (p: Self)
        ensures
            p.line == line,
            p.column == column,
            p.offset == offset,
    {
        Position { line, column, offset }
    }

    /// Default starting position at the beginning of a document.
    pub fn start() -> (p: Self)
        ensures
            p@ == pos(1, 1, 0),
    {
        Position { line: 1, column: 1, offset: 0 }
    }
}

/// The specific category of parsing error encountered.
#[derive(Debug, Clone, PartialEq, Eq)]
pub enum ErrorKind {
    /// Unexpected end of input when more tokens were expected.
    UnexpectedEof,
    /// Indentation does not match expected block level or rule.
    InvalidIndentation { expected: usize, found: usize },
    /// Tab character found in indentation where spaces are strictly required.
    TabInIndentation,
    /// An unexpected character was encountered.
    UnexpectedCharacter(char),
    /// Expected a colon `:` separating key and value.
    ExpectedColon,
    /// Expected a mapping key or scalar identifier.
    ExpectedKey,
    /// Expected a value following a mapping key or sequence indicator.
    ExpectedValue,
    /// Unclosed delimiter such as `[` or `{`.
    UnclosedDelimiter(char),
    /// Malformed flow syntax (e.g. unclosed brackets or invalid separators).
    InvalidFlowSyntax(&'static str),
    /// Duplicate mapping key found in a mapping context.
    DuplicateKey(String),
    /// General parsing error with custom message.
    Custom(String),
}

/// Mathematical model of an [`ErrorKind`]: the same variants, with text as characters.
pub enum Kind {
    UnexpectedEof,
    InvalidIndentation { expected: int, found: int },
    TabInIndentation,
    UnexpectedCharacter(char),
    ExpectedColon,
    ExpectedKey,
    ExpectedValue,
    UnclosedDelimiter(char),
    InvalidFlowSyntax(Seq<char>),
    DuplicateKey(Seq<char>),
    Custom(Seq<char>),
}

impl View for ErrorKind {
    type V = Kind;

    open spec fn view(&self) -> Kind {
        match self {
            ErrorKind::UnexpectedEof => Kind::UnexpectedEof,
            ErrorKind::InvalidIndentation { expected, found } => Kind::InvalidIndentation {
                expected: *expected as int,
                found: *found as int,
            },
            ErrorKind::TabInIndentation => Kind::TabInIndentation,
            ErrorKind::UnexpectedCharacter(c) => Kind::UnexpectedCharacter(*c),
            ErrorKind::ExpectedColon => Kind::ExpectedColon,
            ErrorKind::ExpectedKey => Kind::ExpectedKey,
            ErrorKind::ExpectedValue => Kind::ExpectedValue,
            ErrorKind::UnclosedDelimiter(c) => Kind::UnclosedDelimiter(*c),
            ErrorKind::InvalidFlowSyntax(s) => Kind::InvalidFlowSyntax(s@),
            ErrorKind::DuplicateKey(s) => Kind::DuplicateKey(s@),
            ErrorKind::Custom(s) => Kind::Custom(s@),
        }
    }
}

/// A YAML parsing error complete with error classification and source location.
#[derive(Debug, Clone, PartialEq, Eq)]
pub struct YamlError {
    /// Detailed category and context of the error.
    pub kind: ErrorKind,
    /// Source position where the error occurred.
    pub position: Position,
}

/// Mathematical model of a [`YamlError`].
pub struct Fault {
    pub kind: Kind,
    pub position: Pos,
}

impl View for YamlError {
    type V = Fault;

    open spec fn view(&self) -> Fault {
        Fault { kind: self.kind@, position: self.position@ }
    }
}

/// The error of kind `kind` at `position`.
pub open spec fn fault(kind: Kind, position: Pos) -> Fault {
    Fault { kind, position }
}

impl YamlError {
    /// Creates a new `YamlError` at the specified position.
    pub fn new(kind: ErrorKind, position: Position) -> (e: Self)
        ensures
            e.kind == kind,
            e.position == position,
    {
        YamlError { kind, position }
    }

    /// Convenience helper to create a custom error at a given position.
    pub fn custom(msg: &str, position: Position) -> (e: Self)
        ensures
            e@ == fault(Kind::Custom(msg@), position@),
    {
        YamlError { kind: ErrorKind::Custom(String::from_str(msg)), position }
    }
}

/// A parse result in the model: a node and the index just past it, or an
/// error and the index at which parsing stopped.
pub type Parsed = core::result::Result<(crate::ast::Node, int), (Fault, int)>;

/// Standard Result alias for YAML parsing operations.
pub type Result<T> = core::result::Result<T, YamlError>;


// ==============================================================================
// Display forms
// ==============================================================================

/// How a position is written: `line:column`.
pub open spec fn position_text(p: Pos) -> Seq<char> {
    decimal(p.line as nat) + seq![':'] + decimal(p.column as nat)
}

/// The message of an error kind.
pub open spec fn kind_text(k: Kind) -> Seq<char> {
    match k {
        Kind::UnexpectedEof => "unexpected end of input"@,
        Kind::InvalidIndentation { expected, found } => "invalid indentation: expected at least "@
            + decimal(expected as nat) + " spaces, found "@ + decimal(found as nat),
        Kind::TabInIndentation => "tab characters are not allowed for indentation; use spaces"@,
        Kind::UnexpectedCharacter(c) => "unexpected character '"@ + seq![c] + "'"@,
        Kind::ExpectedColon => "expected ':' separating mapping key and value"@,
        Kind::ExpectedKey => "expected mapping key"@,
        Kind::ExpectedValue => "expected value"@,
        Kind::UnclosedDelimiter(c) => "unclosed delimiter '"@ + seq![c] + "'"@,
        Kind::InvalidFlowSyntax(s) => "invalid flow syntax: "@ + s,
        Kind::DuplicateKey(s) => "duplicate mapping key '"@ + s + "'"@,
        Kind::Custom(s) => s,
    }
}

/// The message of an error: where it happened, then what happened.
pub open spec fn error_text(e: Fault) -> Seq<char> {
    "yaml parse error at "@ + position_text(e.position) + ": "@ + kind_text(e.kind)
}

impl Position {
    /// Appends `line:column` to `out`.
    fn write_to(&self, out: &mut String)
        ensures
            final(out)@ == old(out)@ + position_text(self@),
    {
        push_decimal(out, self.line);
        push_char(out, ':');
        push_decimal(out, self.column);
        proof {
            assert(final(out)@ =~= old(out)@ + position_text(self@));
        }
    }

    /// The position written as `line:column`.
    pub fn to_string(&self) -> (s: String)
        ensures
            s@ == position_text(self@),
    {
        let mut out = String::new();
        self.write_to(&mut out);
        proof {
            assert(out@ =~= position_text(self@));
        }
        out
    }
}

impl ErrorKind {
    /// Appends the message of this kind to `out`.
    fn write_to(&self, out: &mut String)
        ensures
            final(out)@ == old(out)@ + kind_text(self@),
    {
        let ghost start = out@;
        match self {
            ErrorKind::UnexpectedEof => out.append("unexpected end of input"),
            ErrorKind::InvalidIndentation { expected, found } => {
                out.append("invalid indentation: expected at least ");
                push_decimal(out, *expected);
                out.append(" spaces, found ");
                push_decimal(out, *found);
            },
            ErrorKind::TabInIndentation => out.append(
                "tab characters are not allowed for indentation; use spaces",
            ),
            ErrorKind::UnexpectedCharacter(c) => {
                out.append("unexpected character '");
                push_char(out, *c);
                out.append("'");
            },
            ErrorKind::ExpectedColon => out.append("expected ':' separating mapping key and value"),
            ErrorKind::ExpectedKey => out.append("expected mapping key"),
            ErrorKind::ExpectedValue => out.append("expected value"),
            ErrorKind::UnclosedDelimiter(c) => {
                out.append("unclosed delimiter '");
                push_char(out, *c);
                out.append("'");
            },
            ErrorKind::InvalidFlowSyntax(s) => {
                out.append("invalid flow syntax: ");
                out.append(s);
            },
            ErrorKind::DuplicateKey(s) => {
                out.append("duplicate mapping key '");
                out.append(s.as_str());
                out.append("'");
            },
            ErrorKind::Custom(s) => out.append(s.as_str()),
        }
        proof {
            assert(out@ =~= start + kind_text(self@));
        }
    }

    /// The message of this kind.
    pub fn to_string(&self) -> (s: String)
        ensures
            s@ == kind_text(self@),
    {
        let mut out = String::new();
        self.write_to(&mut out);
        proof {
            assert(out@ =~= kind_text(self@));
        }
        out
    }
}

impl YamlError {
    /// The message of this error: `yaml parse error at line:column: ` and the
    /// message of its kind.
    pub fn to_string(&self) -> (s: String)
        ensures
            s@ == error_text(self@),
    {
        let mut out = String::from_str("yaml parse error at ");
        self.position.write_to(&mut out);
        out.append(": ");
        self.kind.write_to(&mut out);
        proof {
            assert(out@ =~= error_text(self@));
        }
        out
    }
}

} // verus!
