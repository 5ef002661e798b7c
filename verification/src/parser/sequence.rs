//! Block-style YAML sequence parser for list items starting with `-`, and the
//! scalar helpers shared by the block parsers.

use vstd::prelude::*;
use crate::ast::{Entry, Node, Yaml, lemma_view_sequence, nodes};
use crate::error::{ErrorKind, Result, YamlError};
use crate::parser::{after_dash, block_agrees, content_position, dash_rest_start, lemma_line_flow_fits,
    mapping_entries_after, node_at, value_start,
    parse_node, sequence_item, sequence_items};
use crate::parser::flow::{FlowCursor, parse_flow_value};
use crate::parser::mapping::parse_block_mapping_with_first_entry;
use crate::scanner::{Line, Scanner, is_seq_item, line_fits};
use crate::text::{chars_of, trim, trim_lo, trim_hi, trim_str, trim_start_str, utf8_len,
    lemma_trim_bounds, lemma_utf8_len_subrange, lemma_skip_ws_from};

verus! {

// ==============================================================================
// Keys, values and scalars
// ==============================================================================

/// Index of the `:` that separates key and value in `text`, scanning from `i`
/// with the given quoting state and previous character: a `:` outside quotes
/// followed by a space, a tab or the end. `-1` when there is none.
pub open spec fn key_colon(
    text: Seq<char>,
    i: int,
    in_single: bool,
    in_double: bool,
    prev: Option<char>,
) -> int
    decreases text.len() - i,
{
    if i < 0 || i >= text.len() {
        -1
    } else {
        let ch = text[i];
        if ch == '\'' && !in_double {
            key_colon(text, i + 1, !in_single, in_double, Some(ch))
        } else if ch == '"' && !in_single && prev != Some('\\') {
            key_colon(text, i + 1, in_single, !in_double, Some(ch))
        } else if ch == ':' && !in_single && !in_double && (i + 1 == text.len() || text[i + 1]
            == ' ' || text[i + 1] == '\t') {
            i
        } else {
            key_colon(text, i + 1, in_single, in_double, Some(ch))
        }
    }
}

pub proof fn lemma_key_colon(
    text: Seq<char>,
    i: int,
    in_single: bool,
    in_double: bool,
    prev: Option<char>,
)
    requires
        0 <= i,
    ensures
        key_colon(text, i, in_single, in_double, prev) == -1 || (i <= key_colon(
            text,
            i,
            in_single,
            in_double,
            prev,
        ) < text.len() && text[key_colon(text, i, in_single, in_double, prev)] == ':'),
    decreases text.len() - i,
{
    if i < text.len() {
        let ch = text[i];
        if ch == '\'' && !in_double {
            lemma_key_colon(text, i + 1, !in_single, in_double, Some(ch));
        } else if ch == '"' && !in_single && prev != Some('\\') {
            lemma_key_colon(text, i + 1, in_single, !in_double, Some(ch));
        } else if ch == ':' && !in_single && !in_double && (i + 1 == text.len() || text[i + 1]
            == ' ' || text[i + 1] == '\t') {
        } else {
            lemma_key_colon(text, i + 1, in_single, in_double, Some(ch));
        }
    }
}

/// `text` split into the key before its separating `:` and the value after
/// the one blank that follows it (`None` when `text` has no such `:`).
pub open spec fn split_key_val(text: Seq<char>) -> Option<(Seq<char>, Seq<char>)> {
    let i = key_colon(text, 0, false, false, None);
    if i < 0 {
        None
    } else if i + 1 == text.len() {
        Some((text.take(i), Seq::empty()))
    } else {
        Some((text.take(i), text.subrange(i + 2, text.len() as int)))
    }
}

/// Key and value of a split are disjoint pieces of the text.
pub proof fn lemma_split_key_val(text: Seq<char>)
    ensures
        split_key_val(text) matches Some((k, v)) ==> k.len() + v.len() < text.len() && utf8_len(k)
            + utf8_len(v) < utf8_len(text),
{
    lemma_key_colon(text, 0, false, false, None);
    let i = key_colon(text, 0, false, false, None);
    if i >= 0 {
        lemma_utf8_len_subrange(text, 0, i);
        assert(text.subrange(0, i) =~= text.take(i));
        if i + 1 < text.len() {
            lemma_utf8_len_subrange(text, i, text.len() as int);
            lemma_utf8_len_subrange(text.subrange(i, text.len() as int), 2, text.len() - i);
            assert(text.subrange(i, text.len() as int).subrange(2, text.len() - i) =~= text.subrange(
                i + 2,
                text.len() as int,
            ));
            lemma_utf8_len_subrange(text.subrange(i, text.len() as int), 0, 2);
            assert(text.subrange(i, text.len() as int).subrange(0, 2)[0] == ':');
            assert(utf8_len(text.subrange(i, text.len() as int).subrange(0, 2)) > 0) by {
                let p = text.subrange(i, text.len() as int).subrange(0, 2);
                crate::text::lemma_utf8_len_bounds(p);
            }
        } else {
            lemma_utf8_len_subrange(text, i, text.len() as int);
            crate::text::lemma_utf8_len_bounds(text.subrange(i, text.len() as int));
        }
    }
}

/// The trimmed value of a split sits in the text at [`value_start`].
pub proof fn lemma_value_in_text(text: Seq<char>)
    ensures
        split_key_val(text) matches Some((k, v)) ==> (trim(v).len() > 0 ==> {
            &&& 0 <= value_start(k, v)
            &&& value_start(k, v) + trim(v).len() <= text.len()
            &&& trim(v) == text.subrange(value_start(k, v), value_start(k, v) + trim(v).len())
        }),
{
    lemma_key_colon(text, 0, false, false, None);
    let i = key_colon(text, 0, false, false, None);
    if i >= 0 && i + 1 < text.len() {
        let v = text.subrange(i + 2, text.len() as int);
        lemma_trim_bounds(v);
        let vs = i + 2 + trim_lo(v);
        assert(text.take(i).len() == i);
        assert(trim(v) =~= text.subrange(vs, vs + trim(v).len()));
    } else if i >= 0 {
        assert(trim(Seq::<char>::empty()).len() == 0) by {
            lemma_trim_bounds(Seq::<char>::empty());
        }
    }
}

/// What follows the dash sits in the content at [`dash_rest_start`].
pub proof fn lemma_rest_in_content(content: Seq<char>)
    ensures
        0 <= dash_rest_start(content) <= content.len(),
        after_dash(content) == content.subrange(dash_rest_start(content), content.len() as int),
{
    if content.len() > 1 {
        let s = content.subrange(2, content.len() as int);
        lemma_skip_ws_from(s, 0);
        assert(after_dash(content) =~= content.subrange(
            2 + crate::text::skip_ws_from(s, 0),
            content.len() as int,
        ));
    } else {
        assert(after_dash(content) =~= content.subrange(content.len() as int, content.len() as int));
    }
}

/// The scalar that a plain or quoted text stands for: trimmed, and without
/// its quotes when it is enclosed in a pair of single or double quotes.
pub open spec fn scalar_or_quoted(text: Seq<char>) -> Seq<char> {
    let t = trim(text);
    if t.len() >= 2 && ((t[0] == '\'' && t.last() == '\'') || (t[0] == '"' && t.last() == '"')) {
        t.subrange(1, t.len() - 1)
    } else {
        t
    }
}

/// A text that opens a flow collection.
pub open spec fn starts_flow(s: Seq<char>) -> bool {
    s.len() > 0 && (s[0] == '[' || s[0] == '{')
}

/// Helper function to split a string into `key` and `value` if it contains `: ` or ends with `:`.
pub fn split_mapping_key_val(text: &str) -> (r: Option<(&str, &str)>)
    ensures
        match split_key_val(text@) {
            None => r is None,
            Some((k, v)) => r matches Some((rk, rv)) && rk@ == k && rv@ == v,
        },
{
    let cs = chars_of(text);
    let ghost t = text@;
    let mut in_single = false;
    let mut in_double = false;
    let mut prev: Option<char> = None;
    let mut i: usize = 0;
    while i < cs.len()
        invariant
            cs@ == t,
            t == text@,
            i <= t.len(),
            key_colon(t, 0, false, false, None) == key_colon(
                t,
                i as int,
                in_single,
                in_double,
                prev,
            ),
        decreases t.len() - i,
    {
        let ch = cs[i];
        let after_backslash = match prev {
            Some(p) => p == '\\',
            None => false,
        };
        if ch == '\'' && !in_double {
            in_single = !in_single;
        } else if ch == '"' && !in_single && !after_backslash {
            in_double = !in_double;
        } else if ch == ':' && !in_single && !in_double {
            if i + 1 == cs.len() {
                let key = text.substring_char(0, i);
                let val = text.substring_char(cs.len(), cs.len());
                return Some((key, val));
            } else if cs[i + 1] == ' ' || cs[i + 1] == '\t' {
                let key = text.substring_char(0, i);
                let val = text.substring_char(i + 2, cs.len());
                return Some((key, val));
            }
        }
        prev = Some(ch);
        i = i + 1;
    }
    None
}

/// Parses plain or quoted scalar slice into `Yaml::Scalar`.
pub fn parse_scalar_or_quoted(text: &str) -> (r: Yaml<'_>)
    ensures
        r@ == Node::Scalar(scalar_or_quoted(text@)),
{
    let trimmed = trim_str(text);
    let n = trimmed.unicode_len();
    if n >= 2 {
        let first = trimmed.get_char(0);
        let last = trimmed.get_char(n - 1);
        if (first == '\'' && last == '\'') || (first == '"' && last == '"') {
            return Yaml::Scalar(trimmed.substring_char(1, n - 1));
        }
    }
    Yaml::Scalar(trimmed)
}

/// Whether `text` opens a flow collection.
pub fn opens_flow(text: &str) -> (b: bool)
    ensures
        b == starts_flow(text@),
{
    if text.unicode_len() == 0 {
        return false;
    }
    let c = text.get_char(0);
    c == '[' || c == '{'
}

// ==============================================================================
// Block sequences
// ==============================================================================

/// Parses a block sequence at the specified indentation level.
pub fn parse_block_sequence<'a>(scanner: &mut Scanner<'a>, expected_indent: usize) -> (r: Result<
    Yaml<'a>,
>)
    ensures
        block_agrees(
            old(scanner)@,
            final(scanner)@,
            r,
            sequence_items(
                old(scanner)@.lines,
                old(scanner)@.cursor,
                expected_indent as int,
                Seq::empty(),
            ),
        ),
        old(scanner)@.cursor <= final(scanner)@.cursor <= old(scanner)@.lines.len(),
    decreases old(scanner)@.lines.len() - old(scanner)@.cursor, 1nat,
{
    proof {
        reveal(sequence_items);
    }
    let ghost ls = scanner@.lines;
    let ghost input = scanner@.input;
    let ghost c0 = scanner@.cursor;
    let mut items: Vec<Yaml<'a>> = Vec::new();
    proof {
        assert(nodes(items@) =~= Seq::<Node>::empty());
    }
    loop
        invariant
            old(scanner)@.lines == ls,
            old(scanner)@.input == input,
            old(scanner)@.cursor == c0,
            scanner@.lines == ls,
            scanner@.input == input,
            c0 <= scanner@.cursor,
            scanner@.cursor == c0 || scanner@.cursor <= ls.len(),
            sequence_items(ls, c0, expected_indent as int, Seq::empty()) == sequence_items(
                ls,
                scanner@.cursor,
                expected_indent as int,
                nodes(items@),
            ),
        decreases ls.len() - scanner@.cursor,
    {
        proof {
            reveal(sequence_items);
            reveal(sequence_item);
        }
        let ghost before = nodes(items@);
        let line = match scanner.peek() {
            Some(l) => *l,
            None => {
                proof {
                    lemma_view_sequence(items);
                }
                return Ok(Yaml::Sequence(items));
            },
        };
        if line.is_document_separator() || line.indent < expected_indent {
            proof {
                lemma_view_sequence(items);
            }
            return Ok(Yaml::Sequence(items));
        }
        if line.indent == expected_indent {
            if !line.is_sequence_item() {
                proof {
                    lemma_view_sequence(items);
                }
                return Ok(Yaml::Sequence(items));
            }
            scanner.next_line();
            let item = match parse_sequence_item(scanner, line, expected_indent) {
                Ok(item) => item,
                Err(e) => return Err(e),
            };
            items.push(item);
            proof {
                assert(nodes(items@) =~= before.push(item@));
            }
        } else {
            let p = line.start_position();
            return Err(
                YamlError::new(
                    ErrorKind::InvalidIndentation { expected: expected_indent, found: line.indent },
                    p,
                ),
            );
        }
    }
}

/// Characters and bytes of what follows the dash are those of a piece of the line.
proof fn lemma_after_dash(content: Seq<char>)
    ensures
        utf8_len(after_dash(content)) <= utf8_len(content),
        after_dash(content).len() <= content.len(),
{
    crate::text::lemma_utf8_len_bounds(content);
    if content.len() > 1 {
        let s = content.subrange(2, content.len() as int);
        lemma_utf8_len_subrange(content, 2, content.len() as int);
        lemma_skip_ws_from(s, 0);
        lemma_utf8_len_subrange(s, crate::text::skip_ws_from(s, 0), s.len() as int);
    }
}

/// Characters and bytes of a trimmed text are those of a piece of it.
pub proof fn lemma_trim_within(v: Seq<char>)
    ensures
        utf8_len(trim(v)) <= utf8_len(v),
        trim(v).len() <= v.len(),
{
    lemma_trim_bounds(v);
    lemma_utf8_len_subrange(v, trim_lo(v), trim_hi(v));
}

/// What follows the `-` of sequence item line `content`.
fn item_text<'a>(content: &'a str) -> (r: &'a str)
    requires
        is_seq_item(content@),
    ensures
        r@ == after_dash(content@),
{
    let n = content.unicode_len();
    if n == 1 {
        content.substring_char(1, 1)
    } else {
        trim_start_str(content.substring_char(2, n))
    }
}

/// Parses the contents of a single sequence item following `-`.
#[verifier::rlimit(60)]
fn parse_sequence_item<'a>(scanner: &mut Scanner<'a>, line: Line<'a>, seq_indent: usize) -> (r: Result<
    Yaml<'a>,
>)
    requires
        is_seq_item(line.content@),
        line_fits(line@),
        seq_indent <= line@.byte_offset,
        old(scanner)@.cursor <= old(scanner)@.lines.len(),
    ensures
        block_agrees(
            old(scanner)@,
            final(scanner)@,
            r,
            sequence_item(old(scanner)@.lines, old(scanner)@.cursor, line@, seq_indent as int),
        ),
        old(scanner)@.cursor <= final(scanner)@.cursor <= old(scanner)@.lines.len(),
    decreases old(scanner)@.lines.len() - old(scanner)@.cursor, 3nat,
{
    proof {
        reveal(sequence_item);
        reveal(node_at);
        reveal(mapping_entries_after);
    }
    let ghost ls = scanner@.lines;
    let ghost c = scanner@.cursor;
    let after = item_text(line.content);
    proof {
        lemma_after_dash(line.content@);
    }
    if after.unicode_len() == 0 {
        match scanner.peek() {
            Some(next_line) => {
                if !next_line.is_document_separator() && next_line.indent > seq_indent {
                    let next_indent = next_line.indent;
                    return parse_node(scanner, next_indent);
                }
            },
            None => {},
        }
        proof {
            reveal_strlit("");
            assert(""@ =~= Seq::<char>::empty());
        }
        return Ok(Yaml::Scalar(""));
    }
    proof {
        lemma_rest_in_content(line@.content);
    }
    let rest_start = line.content.unicode_len() - after.unicode_len();
    if opens_flow(after) {
        let base = content_position(&line, rest_start);
        proof {
            lemma_line_flow_fits(line@, after@, rest_start as int);
        }
        let mut cursor = FlowCursor::new(after, base);
        return match parse_flow_value(&mut cursor) {
            Ok(v) => Ok(v),
            Err(e) => Err(e),
        };
    }
    match split_mapping_key_val(after) {
        Some((key_part, val_part)) => {
            proof {
                lemma_split_key_val(after@);
                lemma_trim_within(val_part@);
            }
            let key_node = parse_scalar_or_quoted(key_part);
            let val_trimmed = trim_str(val_part);
            let value_node = if val_trimmed.unicode_len() == 0 {
                let mut nested: Option<usize> = None;
                match scanner.peek() {
                    Some(next_line) => {
                        if !next_line.is_document_separator() && next_line.indent > seq_indent {
                            nested = Some(next_line.indent);
                        }
                    },
                    None => {},
                }
                match nested {
                    Some(next_indent) => match parse_node(scanner, next_indent) {
                        Ok(v) => v,
                        Err(e) => return Err(e),
                    },
                    None => {
                        proof {
                            reveal_strlit("");
                            assert(""@ =~= Seq::<char>::empty());
                        }
                        Yaml::Scalar("")
                    },
                }
            } else if opens_flow(val_trimmed) {
                proof {
                    lemma_value_in_text(after@);
                    lemma_skip_ws_from(val_part@, 0);
                }
                let lead = val_part.unicode_len() - trim_start_str(val_part).unicode_len();
                let at = rest_start + (key_part.unicode_len() + 2 + lead);
                proof {
                    let vs = value_start(key_part@, val_part@);
                    assert(lead == trim_lo(val_part@));
                    assert(val_trimmed@ =~= line@.content.subrange(at as int, at + val_trimmed@.len()));
                    lemma_line_flow_fits(line@, val_trimmed@, at as int);
                }
                let base = content_position(&line, at);
                let mut cursor = FlowCursor::new(val_trimmed, base);
                match parse_flow_value(&mut cursor) {
                    Ok(v) => v,
                    Err(e) => return Err(e),
                }
            } else {
                parse_scalar_or_quoted(val_trimmed)
            };
            let first_entry = Entry { key: key_node, value: value_node };
            let compact_map_indent = seq_indent + 2;
            parse_block_mapping_with_first_entry(scanner, compact_map_indent, first_entry)
        },
        None => Ok(parse_scalar_or_quoted(after)),
    }
}

} // verus!
