//! Parser modules for YAML block and flow constructs.
//!
//! Recursive-descent parsing over scanned YAML lines and flow segments. The
//! block grammar is stated here as spec functions over the scanned lines and
//! the index of the next line; each parsing function is proved to return what
//! they give.

pub mod flow;
pub mod mapping;
pub mod sequence;

use vstd::prelude::*;
use crate::ast::{Node, Pair, Yaml, empty_scalar};
use crate::error::{ErrorKind, Fault, Kind, Parsed, Pos, Position, Result, YamlError, fault, pos};
use crate::parser::flow::{FlowCursor, flow_value, parse_flow_value};

use crate::parser::sequence::{parse_scalar_or_quoted, split_mapping_key_val, opens_flow,
    scalar_or_quoted, split_key_val, starts_flow};
use crate::scanner::{LineModel, Scanner, ScannerState, is_doc_sep, is_seq_item, line_pos, scan};
use crate::text::{str_eq, trim, trim_lo, trim_start, utf8_len};

verus! {

// ==============================================================================
// The block grammar
// ==============================================================================

/// A parse result in the model for one mapping entry: the entry and the next
/// line, or an error and the line at which parsing stopped.
pub type EntryParsed = core::result::Result<(Pair, int), (Fault, int)>;

/// The value of flow text `text` whose first character is at `base`; what
/// follows that value on the line is ignored. The next line is `c`, also
/// when the flow text is in error.
pub open spec fn flow_in_line(text: Seq<char>, base: Pos, c: int) -> Parsed {
    match flow_value(text, base, 0) {
        Ok((v, _)) => Ok((v, c)),
        Err((e, _)) => Err((e, c)),
    }
}

/// What follows the `-` of a sequence item line.
pub open spec fn after_dash(content: Seq<char>) -> Seq<char> {
    if content.len() <= 1 {
        Seq::empty()
    } else {
        trim_start(content.subrange(2, content.len() as int))
    }
}

/// Index in the content of a sequence item line where the text after the
/// dash starts.
pub open spec fn dash_rest_start(content: Seq<char>) -> int {
    content.len() - after_dash(content).len()
}

/// Index, in a text split into key `k` and value `v`, where the trimmed
/// value starts: after the key, the `:`, its blank and the value's own
/// leading blanks.
pub open spec fn value_start(k: Seq<char>, v: Seq<char>) -> int {
    k.len() + 2 + trim_lo(v)
}

/// Source position of character `i` of the content of `line`.
pub open spec fn content_pos(line: LineModel, i: int) -> Pos {
    pos(
        line.line_number,
        line.start_column + i,
        line.byte_offset + utf8_len(line.content.take(i)),
    )
}

/// Whether a key or item whose text is empty takes its value from the
/// following lines: line `c` exists, is no document separator and is
/// indented deeper than `parent_indent`. When this does not hold, the value
/// is the empty scalar.
pub open spec fn nested_or_empty(ls: Seq<LineModel>, c: int, parent_indent: int) -> bool {
    0 <= c < ls.len() && !is_doc_sep(ls[c].content) && ls[c].indent > parent_indent
}

/// Whether `key` is a scalar that some entry of `entries` already has as its key.
pub open spec fn is_duplicate(entries: Seq<Pair>, key: Node) -> bool {
    &&& key is Scalar
    &&& exists|j: int| 0 <= j < entries.len() && entries[j].key == key
}

/// A node whose first line is line `c` of `ls`, indented at least `min_indent`.
/// On success, the node and the index of the first line after it.
#[verifier::opaque]
pub open spec fn node_at(ls: Seq<LineModel>, c: int, min_indent: int) -> Parsed
    decreases ls.len() - c, 2nat,
{
    if c < 0 || c >= ls.len() {
        Ok((empty_scalar(), c))
    } else {
        let line = ls[c];
        if is_doc_sep(line.content) {
            Ok((empty_scalar(), c))
        } else if line.indent < min_indent {
            Err(
                (
                    fault(
                        Kind::InvalidIndentation { expected: min_indent, found: line.indent },
                        line_pos(line),
                    ),
                    c,
                ),
            )
        } else if is_seq_item(line.content) {
            sequence_items(ls, c, line.indent, Seq::empty())
        } else if starts_flow(line.content) {
            flow_in_line(line.content, line_pos(line), c + 1)
        } else if split_key_val(line.content) is Some {
            mapping_entries(ls, c, line.indent, Seq::empty())
        } else {
            Ok((Node::Scalar(scalar_or_quoted(line.content)), c + 1))
        }
    }
}

/// The items of a block sequence indented `ind`, from line `c` on, after `items`.
#[verifier::opaque]
pub open spec fn sequence_items(ls: Seq<LineModel>, c: int, ind: int, items: Seq<Node>) -> Parsed
    decreases ls.len() - c, 1nat,
{
    if c < 0 || c >= ls.len() {
        Ok((Node::Sequence(items), c))
    } else {
        let line = ls[c];
        if is_doc_sep(line.content) || line.indent < ind {
            Ok((Node::Sequence(items), c))
        } else if line.indent == ind {
            if !is_seq_item(line.content) {
                Ok((Node::Sequence(items), c))
            } else {
                match sequence_item(ls, c + 1, line, ind) {
                    Err(e) => Err(e),
                    Ok((item, c2)) => if !(c < c2 <= ls.len()) {
                        Err((fault(Kind::UnexpectedEof, line_pos(line)), c2))
                    } else {
                        sequence_items(ls, c2, ind, items.push(item))
                    },
                }
            }
        } else {
            Err(
                (
                    fault(
                        Kind::InvalidIndentation { expected: ind, found: line.indent },
                        line_pos(line),
                    ),
                    c,
                ),
            )
        }
    }
}

/// The node of sequence item line `line` (of a sequence indented
/// `seq_indent`), whose following lines start at `c`.
#[verifier::opaque]
pub open spec fn sequence_item(ls: Seq<LineModel>, c: int, line: LineModel, seq_indent: int) -> Parsed
    decreases ls.len() - c, 3nat,
{
    let rest = after_dash(line.content);
    if rest.len() == 0 {
        if nested_or_empty(ls, c, seq_indent) {
            node_at(ls, c, ls[c].indent)
        } else {
            Ok((empty_scalar(), c))
        }
    } else if starts_flow(rest) {
        flow_in_line(rest, content_pos(line, dash_rest_start(line.content)), c)
    } else {
        match split_key_val(rest) {
            Some((k, v)) => {
                let key = Node::Scalar(scalar_or_quoted(k));
                let vt = trim(v);
                let value = if vt.len() == 0 {
                    if nested_or_empty(ls, c, seq_indent) {
                        node_at(ls, c, ls[c].indent)
                    } else {
                        Ok((empty_scalar(), c))
                    }
                } else if starts_flow(vt) {
                    flow_in_line(
                        vt,
                        content_pos(line, dash_rest_start(line.content) + value_start(k, v)),
                        c,
                    )
                } else {
                    Ok((Node::Scalar(scalar_or_quoted(vt)), c))
                };
                match value {
                    Err(e) => Err(e),
                    Ok((v, c2)) => if !(c <= c2 <= ls.len()) {
                        Err((fault(Kind::UnexpectedEof, line_pos(line)), c2))
                    } else {
                        mapping_entries_after(
                            ls,
                            c2,
                            seq_indent + 2,
                            seq![Pair { key, value: v }],
                        )
                    },
                }
            },
            None => Ok((Node::Scalar(scalar_or_quoted(rest)), c)),
        }
    }
}

/// The entries of a block mapping indented `ind`, from line `c` on, after `entries`.
#[verifier::opaque]
pub open spec fn mapping_entries(ls: Seq<LineModel>, c: int, ind: int, entries: Seq<Pair>) -> Parsed
    decreases ls.len() - c, 1nat,
{
    if c < 0 || c >= ls.len() {
        Ok((Node::Mapping(entries), c))
    } else {
        let line = ls[c];
        if is_doc_sep(line.content) || line.indent < ind {
            Ok((Node::Mapping(entries), c))
        } else if line.indent == ind {
            if is_seq_item(line.content) {
                Ok((Node::Mapping(entries), c))
            } else {
                match split_key_val(line.content) {
                    Some((k, v)) => match mapping_entry(ls, c + 1, line, k, v, ind) {
                        Err(e) => Err(e),
                        Ok((p, c2)) => if !(c < c2 <= ls.len()) {
                            Err((fault(Kind::UnexpectedEof, line_pos(line)), c2))
                        } else if is_duplicate(entries, p.key) {
                            Err((fault(Kind::DuplicateKey(p.key->Scalar_0), line_pos(line)), c2))
                        } else {
                            mapping_entries(ls, c2, ind, entries.push(p))
                        },
                    },
                    None => Err((fault(Kind::ExpectedColon, line_pos(line)), c)),
                }
            }
        } else {
            Err(
                (
                    fault(
                        Kind::InvalidIndentation { expected: ind, found: line.indent },
                        line_pos(line),
                    ),
                    c,
                ),
            )
        }
    }
}

/// The further entries of a compact mapping (one begun on a sequence item
/// line) whose keys are indented at least `ind`, from line `c` on, after `entries`.
#[verifier::opaque]
pub open spec fn mapping_entries_after(
    ls: Seq<LineModel>,
    c: int,
    ind: int,
    entries: Seq<Pair>,
) -> Parsed
    decreases ls.len() - c, 1nat,
{
    if c < 0 || c >= ls.len() {
        Ok((Node::Mapping(entries), c))
    } else {
        let line = ls[c];
        if is_doc_sep(line.content) || line.indent < ind || is_seq_item(line.content) {
            Ok((Node::Mapping(entries), c))
        } else {
            match split_key_val(line.content) {
                Some((k, v)) => match mapping_entry(ls, c + 1, line, k, v, line.indent) {
                    Err(e) => Err(e),
                    Ok((p, c2)) => if !(c < c2 <= ls.len()) {
                        Err((fault(Kind::UnexpectedEof, line_pos(line)), c2))
                    } else if is_duplicate(entries, p.key) {
                        Err((fault(Kind::DuplicateKey(p.key->Scalar_0), line_pos(line)), c2))
                    } else {
                        mapping_entries_after(ls, c2, ind, entries.push(p))
                    },
                },
                None => Ok((Node::Mapping(entries), c)),
            }
        }
    }
}

/// The entry of mapping line `line` (of a mapping indented `map_indent`) with
/// key text `k` and value text `v`, whose following lines start at `c`.
#[verifier::opaque]
pub open spec fn mapping_entry(
    ls: Seq<LineModel>,
    c: int,
    line: LineModel,
    k: Seq<char>,
    v: Seq<char>,
    map_indent: int,
) -> EntryParsed
    decreases ls.len() - c, 3nat,
{
    let key = Node::Scalar(scalar_or_quoted(k));
    let vt = trim(v);
    let value = if vt.len() == 0 {
        if nested_or_empty(ls, c, map_indent) {
            node_at(ls, c, ls[c].indent)
        } else {
            Ok((empty_scalar(), c))
        }
    } else if starts_flow(vt) {
        flow_in_line(vt, content_pos(line, value_start(k, v)), c)
    } else {
        Ok((Node::Scalar(scalar_or_quoted(vt)), c))
    };
    match value {
        Err(e) => Err(e),
        Ok((node, c2)) => Ok((Pair { key, value: node }, c2)),
    }
}

/// The document of `input`: its first node, after an optional `---` line.
pub open spec fn parse_document(input: Seq<char>) -> core::result::Result<Node, Fault> {
    match scan(input) {
        Err(e) => Err(e),
        Ok(ls) => if ls.len() == 0 {
            Ok(empty_scalar())
        } else {
            let c = if ls[0].content == seq!['-', '-', '-'] {
                1int
            } else {
                0int
            };
            match node_at(ls, c, 0) {
                Ok((v, _)) => Ok(v),
                Err((e, _)) => Err(e),
            }
        },
    }
}

/// `r` is what [`parse_document`] gives for `input`: the same document, or
/// the same error.
pub open spec fn parse_agrees(input: Seq<char>, r: Result<Yaml>) -> bool {
    match parse_document(input) {
        Ok(v) => r matches Ok(y) && y@ == v,
        Err(e) => r matches Err(x) && x@ == e,
    }
}

/// `r` is what the model `s` gives for a parse that moved the scanner from
/// `before` to `after`: the same node and next line, or the same error and
/// the line at which the scanner stopped.
pub open spec fn block_agrees(
    before: ScannerState,
    after: ScannerState,
    r: Result<Yaml>,
    s: Parsed,
) -> bool {
    &&& after.input == before.input
    &&& after.lines == before.lines
    &&& match s {
        Ok((v, c)) => r matches Ok(y) && y@ == v && after.cursor == c,
        Err((e, c)) => r matches Err(x) && x@ == e && after.cursor == c,
    }
}

/// Positions inside flow text `text`, the piece of the content of a line
/// that [`crate::scanner::line_fits`] starting at index `i`, are representable
/// when counted from the position of that index.
pub proof fn lemma_line_flow_fits(line: LineModel, text: Seq<char>, i: int)
    requires
        crate::scanner::line_fits(line),
        0 <= i,
        i + text.len() <= line.content.len(),
        text == line.content.subrange(i, i + text.len()),
    ensures
        crate::parser::flow::flow_fits(text, content_pos(line, i)),
{
    let content = line.content;
    crate::text::lemma_utf8_len_bounds(text);
    crate::text::lemma_utf8_len_bounds(content);
    crate::text::lemma_utf8_len_bounds(content.take(i));
    crate::text::lemma_utf8_len_subrange(content, i, i + text.len());
    assert(content.subrange(0, i) =~= content.take(i));
}

/// The source position of character `i` of a line's content.
pub(crate) fn content_position(line: &crate::scanner::Line, i: usize) -> (p: Position)
    requires
        crate::scanner::line_fits(line@),
        i <= line@.content.len(),
    ensures
        p@ == content_pos(line@, i as int),
{
    let ghost content = line@.content;
    proof {
        crate::text::lemma_utf8_len_subrange(content, 0, i as int);
        assert(content.subrange(0, i as int) =~= content.take(i as int));
        crate::text::lemma_utf8_len_bounds(content);
    }
    let head = line.content.substring_char(0, i);
    let bytes = crate::text::byte_len(head);
    Position::new(line.line_number, line.start_column + i, line.byte_offset + bytes)
}

/// Parses any YAML node at the specified minimum indentation level.
pub fn parse_node<'a>(scanner: &mut Scanner<'a>, min_indent: usize) -> (r: Result<Yaml<'a>>)
    ensures
        block_agrees(
            old(scanner)@,
            final(scanner)@,
            r,
            node_at(old(scanner)@.lines, old(scanner)@.cursor, min_indent as int),
        ),
        old(scanner)@.cursor <= final(scanner)@.cursor <= old(scanner)@.lines.len(),
    decreases old(scanner)@.lines.len() - old(scanner)@.cursor, 2nat,
{
    proof {
        reveal(node_at);
        reveal(sequence_items);
        reveal(mapping_entries);
    }
    let line = match scanner.peek() {
        Some(l) => *l,
        None => {
            proof {
                reveal_strlit("");
                assert(""@ =~= Seq::<char>::empty());
            }
            return Ok(Yaml::Scalar(""));
        },
    };
    proof {
        assert(scanner@.cursor < scanner@.lines.len());
        assert(line@ == scanner@.lines[scanner@.cursor]);
    }
    if line.is_document_separator() {
        proof {
            reveal_strlit("");
            assert(""@ =~= Seq::<char>::empty());
        }
        return Ok(Yaml::Scalar(""));
    }
    if line.indent < min_indent {
        let p = line.start_position();
        proof {
            let ls = scanner@.lines;
            let c = scanner@.cursor;
            assert(0 <= c < ls.len());
            assert(ls[c] == line@);
            assert(!is_doc_sep(ls[c].content));
            assert(ls[c].indent < min_indent);
            assert(node_at(ls, c, min_indent as int) == Parsed::Err((fault(
                    Kind::InvalidIndentation { expected: min_indent as int, found: line.indent as int },
                    line_pos(line@),
                ), c)));
        }
        return Err(
            YamlError::new(
                ErrorKind::InvalidIndentation { expected: min_indent, found: line.indent },
                p,
            ),
        );
    }
    let current_indent = line.indent;
    if line.is_sequence_item() {
        return crate::parser::sequence::parse_block_sequence(scanner, current_indent);
    }
    if opens_flow(line.content) {
        scanner.next_line();
        proof {
            assert(line@.content.subrange(0, line@.content.len() as int) =~= line@.content);
            assert(line@.content.take(0) =~= Seq::<char>::empty());
            lemma_line_flow_fits(line@, line@.content, 0);
            assert(content_pos(line@, 0) == line_pos(line@));
        }
        let mut cursor = FlowCursor::new(line.content, line.start_position());
        return parse_flow_value(&mut cursor);
    }
    if split_mapping_key_val(line.content).is_some() {
        return crate::parser::mapping::parse_block_mapping(scanner, current_indent);
    }
    scanner.next_line();
    Ok(parse_scalar_or_quoted(line.content))
}

/// Parses a YAML string into a zero-copy [`Yaml<'a>`] value.
///
/// The result is the document that [`parse_document`] gives for the input's
/// characters: the first node after an optional `---` line, or the first
/// error met on the way. The input's UTF-8 length is at most `isize::MAX`,
/// as for every `str`.
pub fn parse<'a>(input: &'a str) -> (r: Result<Yaml<'a>>)
    requires
        utf8_len(input@) <= isize::MAX,
    ensures
        parse_agrees(input@, r),
{
    let mut scanner = match Scanner::new(input) {
        Ok(s) => s,
        Err(e) => return Err(e),
    };
    if scanner.is_empty() {
        proof {
            reveal_strlit("");
            assert(""@ =~= Seq::<char>::empty());
        }
        return Ok(Yaml::Scalar(""));
    }
    let starts_with_marker = match scanner.peek() {
        Some(first_line) => str_eq(first_line.content, "---"),
        None => false,
    };
    proof {
        reveal_strlit("---");
        assert("---"@ =~= seq!['-', '-', '-']);
    }
    if starts_with_marker {
        scanner.next_line();
    }
    let root_node = match parse_node(&mut scanner, 0) {
        Ok(v) => v,
        Err(e) => return Err(e),
    };
    let at_separator = match scanner.peek() {
        Some(next_line) => next_line.is_document_separator(),
        None => false,
    };
    if at_separator {
        scanner.next_line();
    }
    Ok(root_node)
}

} // verus!
