//! Properties of the library as a whole, each stated over the models that the
//! functions' own contracts use, and proved.

use vstd::prelude::*;
use crate::ast::{Node, Pair, Yaml};
use crate::error::Result;
use crate::parser::{after_dash, content_pos, dash_rest_start, value_start, flow_in_line, is_duplicate, mapping_entries, mapping_entries_after,
    mapping_entry, nested_or_empty, node_at, parse_agrees, sequence_item, sequence_items};
use crate::parser::sequence::starts_flow;
use crate::parser::sequence::split_key_val;
use crate::error::{Fault, Kind, Parsed, Pos};
use crate::parser::flow::{dq_end, flow_key, flow_mapping, flow_mapping_entries, flow_pos,
    flow_sequence, flow_sequence_items, flow_value, key_end, lemma_dq_end, lemma_key_end,
    lemma_nl_bounds, lemma_plain_end, lemma_skip_blank, peek_at, plain_end, skip_blank};
use crate::parser::parse_document;
use crate::scanner::{LineModel, ScannerState, is_doc_sep, is_seq_item, line_pos, read_step,
    read_steps, scan, scan_from, scan_line,
    space_run, strip_cr};
use crate::text::{ascii_lower, back_ws_from, find_from, is_ws, lemma_back_ws_from, lemma_find_from,
    lemma_skip_ws_from, lower, skip_ws_from, trim, utf8_len};
use crate::scanner::{comment_start, strip_comment};
use crate::parser::sequence::scalar_or_quoted;
use crate::ast::{IntError, bool_word, digits_from, parse_int};

verus! {

/// Parsing is deterministic: any two results that [`crate::parser::parse`]
/// may give for the same input text are the same document or the same error.
pub proof fn law_parse_deterministic(input: Seq<char>, r1: Result<Yaml>, r2: Result<Yaml>)
    requires
        parse_agrees(input, r1),
        parse_agrees(input, r2),
    ensures
        r1 is Ok <==> r2 is Ok,
        r1 matches Ok(a) ==> r2 matches Ok(b) && a@ == b@,
        r1 matches Err(a) ==> r2 matches Err(b) && a@ == b@,
{
}


/// No two entries of `es` have the same scalar key.
pub open spec fn distinct_keys(es: Seq<Pair>) -> bool {
    forall|i: int, j: int|
        0 <= i < j < es.len() && (#[trigger] es[j]).key is Scalar ==> (#[trigger] es[i]).key
            != es[j].key
}

/// An entry whose key is no duplicate keeps the keys distinct.
proof fn lemma_push_distinct(entries: Seq<Pair>, p: Pair)
    requires
        distinct_keys(entries),
        !is_duplicate(entries, p.key),
    ensures
        distinct_keys(entries.push(p)),
{
    let es = entries.push(p);
    assert forall|i: int, j: int|
        0 <= i < j < es.len() && (#[trigger] es[j]).key is Scalar implies (#[trigger] es[i]).key
        != es[j].key by {
        if j == entries.len() {
            assert(es[i] == entries[i]);
            if entries[i].key == p.key {
                assert(is_duplicate(entries, p.key));
            }
        } else {
            assert(es[i] == entries[i] && es[j] == entries[j]);
        }
    }
}

/// The entries that a block mapping gathers after distinct `entries` are distinct.
proof fn lemma_block_entries_distinct(
    ls: Seq<LineModel>,
    c: int,
    ind: int,
    entries: Seq<Pair>,
)
    requires
        distinct_keys(entries),
    ensures
        mapping_entries(ls, c, ind, entries) matches Ok((n, _)) ==> n matches Node::Mapping(es)
            && distinct_keys(es),
    decreases ls.len() - c,
{
    reveal(mapping_entries);
    reveal(mapping_entry);
    if 0 <= c < ls.len() {
        let line = ls[c];
        if !(is_doc_sep(line.content) || line.indent < ind) && line.indent == ind
            && !is_seq_item(line.content) {
            if let Some((k, v)) = split_key_val(line.content) {
                if let Ok((p, c2)) = mapping_entry(ls, c + 1, line, k, v, ind) {
                    if c < c2 <= ls.len() && !is_duplicate(entries, p.key) {
                        lemma_push_distinct(entries, p);
                        lemma_block_entries_distinct(ls, c2, ind, entries.push(p));
                    }
                }
            }
        }
    }
}

/// The entries that a compact mapping gathers after distinct `entries` are distinct.
proof fn lemma_compact_entries_distinct(
    ls: Seq<LineModel>,
    c: int,
    ind: int,
    entries: Seq<Pair>,
)
    requires
        distinct_keys(entries),
    ensures
        mapping_entries_after(ls, c, ind, entries) matches Ok((n, _)) ==> n matches Node::Mapping(
            es,
        ) && distinct_keys(es),
    decreases ls.len() - c,
{
    reveal(mapping_entries_after);
    reveal(mapping_entry);
    if 0 <= c < ls.len() {
        let line = ls[c];
        if !(is_doc_sep(line.content) || line.indent < ind || is_seq_item(line.content)) {
            if let Some((k, v)) = split_key_val(line.content) {
                if let Ok((p, c2)) = mapping_entry(ls, c + 1, line, k, v, line.indent) {
                    if c < c2 <= ls.len() && !is_duplicate(entries, p.key) {
                        lemma_push_distinct(entries, p);
                        lemma_compact_entries_distinct(ls, c2, ind, entries.push(p));
                    }
                }
            }
        }
    }
}


/// A block mapping holds no two entries with the same scalar key: a block
/// mapping that starts at line `c` with keys indented `ind` is, when it parses,
/// a mapping with distinct scalar keys.
pub proof fn law_block_mapping_keys_distinct(ls: Seq<LineModel>, c: int, ind: int)
    ensures
        mapping_entries(ls, c, ind, Seq::empty()) matches Ok((n, _)) ==> n matches Node::Mapping(
            es,
        ) && distinct_keys(es),
{
    lemma_block_entries_distinct(ls, c, ind, Seq::empty());
}

/// The same holds of a compact mapping (one begun on a sequence item line
/// with the entry `first`) whose further keys are indented at least `ind`
/// from line `c` on.
pub proof fn law_compact_mapping_keys_distinct(ls: Seq<LineModel>, c: int, ind: int, first: Pair)
    ensures
        mapping_entries_after(ls, c, ind, seq![first]) matches Ok((n, _)) ==> n matches Node::Mapping(
            es,
        ) && distinct_keys(es),
{
    lemma_compact_entries_distinct(ls, c, ind, seq![first]);
}

/// A tab right after the leading spaces of `raw`, a line without its break.
pub open spec fn tab_in_indentation(raw: Seq<char>) -> bool {
    let ind = space_run(raw, 0);
    ind < raw.len() && raw[ind] == '\t'
}

/// A line of `input` starts at character index `i`.
pub open spec fn line_starts_at(input: Seq<char>, i: int) -> bool {
    0 <= i <= input.len() && (i == 0 || input[i - 1] == '\n')
}

/// The line of `input` that starts at `i`, without its `'\n'`.
pub open spec fn line_at(input: Seq<char>, i: int) -> Seq<char> {
    input.subrange(i, find_from(input, i, '\n'))
}

/// Some line of `input` that starts at or after `from` has a tab in its indentation.
pub open spec fn tab_line_from(input: Seq<char>, from: int) -> bool {
    exists|i: int|
        from <= i && line_starts_at(input, i) && #[trigger] tab_in_indentation(line_at(input, i))
}

proof fn lemma_space_run_drop_last(s: Seq<char>, i: int)
    requires
        s.len() > 0,
        s.last() != ' ',
        0 <= i <= s.len() - 1,
    ensures
        space_run(s.drop_last(), i) == space_run(s, i),
        space_run(s, i) <= s.len() - 1,
    decreases s.len() - i,
{
    if i < s.len() - 1 && s[i] == ' ' {
        lemma_space_run_drop_last(s, i + 1);
    }
}

/// A trailing carriage return does not change whether the indentation holds a tab.
proof fn lemma_tab_strip_cr(raw: Seq<char>)
    ensures
        tab_in_indentation(strip_cr(raw)) == tab_in_indentation(raw),
{
    if raw.len() > 0 && raw.last() == '\r' {
        lemma_space_run_drop_last(raw, 0);
        crate::scanner::lemma_space_run(raw, 0);
        let r = space_run(raw, 0);
        assert(strip_cr(raw) == raw.drop_last());
        if r < raw.len() - 1 {
            assert(raw.drop_last()[r] == raw[r]);
        } else {
            assert(raw[r] == '\r');
        }
    }
}

/// The scanner refuses the lines from `i` on exactly when one of them has a
/// tab in its indentation, and then with that kind of error.
proof fn lemma_scan_from_tabs(input: Seq<char>, i: int, n: int, b: int, acc: Seq<LineModel>)
    requires
        line_starts_at(input, i),
    ensures
        scan_from(input, i, n, b, acc) is Err <==> tab_line_from(input, i),
        scan_from(input, i, n, b, acc) matches Err(e) ==> e.kind == Kind::TabInIndentation,
    decreases input.len() - i,
{
    let j = find_from(input, i, '\n');
    lemma_find_from(input, i, '\n');
    let raw = input.subrange(i, j);
    assert(line_at(input, i) == raw);
    lemma_tab_strip_cr(raw);
    let found = scan_line(strip_cr(raw), n, b);
    if found is Err {
        assert(tab_in_indentation(line_at(input, i)));
    } else {
        assert(!tab_in_indentation(line_at(input, i)));
        if j >= input.len() {
            assert forall|m: int|
                i <= m && line_starts_at(input, m) implies !#[trigger] tab_in_indentation(
                line_at(input, m),
            ) by {
                if m > i {
                    assert(input[m - 1] != '\n');
                }
            }
        } else {
            let acc2 = match found {
                Ok(Some(l)) => acc.push(l),
                _ => acc,
            };
            lemma_scan_from_tabs(input, j + 1, n + 1, b + crate::text::utf8_len(raw) + 1, acc2);
            if tab_line_from(input, i) {
                let m = choose|m: int|
                    i <= m && line_starts_at(input, m) && #[trigger] tab_in_indentation(
                        line_at(input, m),
                    );
                if m <= j {
                    if m > i {
                        assert(input[m - 1] != '\n');
                    }
                }
                assert(tab_line_from(input, j + 1));
            }
            if tab_line_from(input, j + 1) {
                let m = choose|m: int|
                    j + 1 <= m && line_starts_at(input, m) && #[trigger] tab_in_indentation(
                        line_at(input, m),
                    );
                assert(tab_line_from(input, i));
            }
        }
    }
}

/// Tabs are refused in indentation: the scanner, and so the parser, refuses
/// an input exactly when one of its lines has a tab after its leading spaces,
/// and always with [`crate::ErrorKind::TabInIndentation`].
pub proof fn law_tab_in_indentation_refused(input: Seq<char>)
    ensures
        scan(input) is Err <==> tab_line_from(input, 0),
        scan(input) matches Err(e) ==> e.kind == Kind::TabInIndentation,
        tab_line_from(input, 0) ==> (parse_document(input) matches Err(e) && e.kind
            == Kind::TabInIndentation),
{
    lemma_scan_from_tabs(input, 0, 1, 0, Seq::empty());
}


// ==============================================================================
// Error positions are 1-indexed
// ==============================================================================

/// A position whose line and column count from 1.
pub open spec fn one_indexed(p: Pos) -> bool {
    p.line >= 1 && p.column >= 1
}

/// An error result, if `r` is one, has a 1-indexed position.
pub open spec fn fails_one_indexed<T>(r: core::result::Result<T, Fault>) -> bool {
    r matches Err(e) ==> one_indexed(e.position)
}

/// The same for a parse result that also tells where parsing stopped.
pub open spec fn stops_one_indexed<T>(r: core::result::Result<T, (Fault, int)>) -> bool {
    r matches Err((e, _)) ==> one_indexed(e.position)
}

/// Positions inside flow text that starts at a 1-indexed position are 1-indexed.
proof fn lemma_flow_pos(t: Seq<char>, b: Pos, k: int)
    requires
        0 <= k <= t.len(),
        one_indexed(b),
    ensures
        one_indexed(flow_pos(t, b, k)),
{
    lemma_nl_bounds(t.take(k));
}

proof fn lemma_flow_key_pos(t: Seq<char>, b: Pos, k: int)
    requires
        0 <= k <= t.len(),
        one_indexed(b),
    ensures
        stops_one_indexed(flow_key(t, b, k)),
{
    lemma_skip_blank(t, k);
    let k1 = skip_blank(t, k);
    lemma_flow_pos(t, b, k1);
}

proof fn lemma_flow_value_pos(t: Seq<char>, b: Pos, k: int)
    requires
        0 <= k <= t.len(),
        one_indexed(b),
    ensures
        stops_one_indexed(flow_value(t, b, k)),
    decreases t.len() - k, 1nat,
{
    lemma_skip_blank(t, k);
    let k1 = skip_blank(t, k);
    lemma_flow_pos(t, b, k1);
    if k1 < t.len() {
        lemma_flow_sequence_pos(t, b, k1);
        lemma_flow_mapping_pos(t, b, k1);
    }
}

proof fn lemma_flow_sequence_pos(t: Seq<char>, b: Pos, k: int)
    requires
        0 <= k < t.len(),
        one_indexed(b),
    ensures
        stops_one_indexed(flow_sequence(t, b, k)),
    decreases t.len() - k, 0nat,
{
    lemma_flow_pos(t, b, k);
    lemma_flow_items_pos(t, b, k + 1, Seq::empty(), flow_pos(t, b, k));
}

proof fn lemma_flow_mapping_pos(t: Seq<char>, b: Pos, k: int)
    requires
        0 <= k < t.len(),
        one_indexed(b),
    ensures
        stops_one_indexed(flow_mapping(t, b, k)),
    decreases t.len() - k, 0nat,
{
    lemma_flow_pos(t, b, k);
    lemma_flow_entries_pos(t, b, k + 1, Seq::empty(), flow_pos(t, b, k));
}

proof fn lemma_flow_items_pos(t: Seq<char>, b: Pos, k: int, items: Seq<Node>, start: Pos)
    requires
        0 <= k <= t.len(),
        one_indexed(b),
        one_indexed(start),
    ensures
        stops_one_indexed(flow_sequence_items(t, b, k, items, start)),
    decreases t.len() - k, 2nat,
{
    lemma_skip_blank(t, k);
    let k1 = skip_blank(t, k);
    if !(peek_at(t, k1) == Some(']')) && !(k1 >= t.len() || k1 < k) {
        lemma_flow_value_pos(t, b, k1);
        if let Ok((item, k2)) = flow_value(t, b, k1) {
            if k1 < k2 <= t.len() {
                lemma_skip_blank(t, k2);
                let k3 = skip_blank(t, k2);
                lemma_flow_pos(t, b, k3);
                if peek_at(t, k3) == Some(',') {
                    lemma_skip_blank(t, k3 + 1);
                    let k4 = skip_blank(t, k3 + 1);
                    if !(peek_at(t, k4) == Some(']')) && !(k4 <= k) {
                        lemma_flow_items_pos(t, b, k4, items.push(item), start);
                    }
                }
            }
        }
    }
}

proof fn lemma_flow_entries_pos(t: Seq<char>, b: Pos, k: int, entries: Seq<Pair>, start: Pos)
    requires
        0 <= k <= t.len(),
        one_indexed(b),
        one_indexed(start),
    ensures
        stops_one_indexed(flow_mapping_entries(t, b, k, entries, start)),
    decreases t.len() - k, 2nat,
{
    lemma_skip_blank(t, k);
    let k1 = skip_blank(t, k);
    if !(peek_at(t, k1) == Some('}')) && !(k1 >= t.len() || k1 < k) {
        lemma_flow_key_pos(t, b, k1);
        lemma_flow_pos(t, b, k1);
        if let Ok((key, k2)) = flow_key(t, b, k1) {
            if k1 < k2 <= t.len() {
                lemma_skip_blank(t, k2);
                let k3 = skip_blank(t, k2);
                lemma_flow_pos(t, b, k3);
                if !(peek_at(t, k3) != Some(':') || k3 < k) {
                    lemma_flow_value_pos(t, b, k3 + 1);
                    if let Ok((value, k4)) = flow_value(t, b, k3 + 1) {
                        if k3 < k4 <= t.len() {
                            lemma_skip_blank(t, k4);
                            let k5 = skip_blank(t, k4);
                            lemma_flow_pos(t, b, k5);
                            if peek_at(t, k5) == Some(',') {
                                lemma_skip_blank(t, k5 + 1);
                                let k6 = skip_blank(t, k5 + 1);
                                if !(peek_at(t, k6) == Some('}')) && !(k6 <= k) {
                                    lemma_flow_entries_pos(
                                        t,
                                        b,
                                        k6,
                                        entries.push(Pair { key, value }),
                                        start,
                                    );
                                }
                            }
                        }
                    }
                }
            }
        }
    }
}


/// Every line of `ls` starts at a 1-indexed position.
pub open spec fn lines_one_indexed(ls: Seq<LineModel>) -> bool {
    forall|k: int| 0 <= k < ls.len() ==> one_indexed(#[trigger] line_pos(ls[k]))
}

proof fn lemma_flow_in_line_pos(text: Seq<char>, base: Pos, c: int)
    requires
        one_indexed(base),
    ensures
        stops_one_indexed(flow_in_line(text, base, c)),
{
    lemma_flow_value_pos(text, base, 0);
}

proof fn lemma_node_pos(ls: Seq<LineModel>, c: int, min_indent: int)
    requires
        lines_one_indexed(ls),
    ensures
        stops_one_indexed(node_at(ls, c, min_indent)),
    decreases ls.len() - c, 2nat,
{
    reveal(node_at);
    reveal(sequence_items);
    reveal(mapping_entries);
    if 0 <= c < ls.len() {
        let line = ls[c];
        assert(one_indexed(line_pos(ls[c])));
        lemma_items_pos(ls, c, line.indent, Seq::empty());
        lemma_entries_pos(ls, c, line.indent, Seq::empty());
        lemma_flow_in_line_pos(line.content, line_pos(line), c + 1);
    }
}

proof fn lemma_items_pos(ls: Seq<LineModel>, c: int, ind: int, items: Seq<Node>)
    requires
        lines_one_indexed(ls),
    ensures
        stops_one_indexed(sequence_items(ls, c, ind, items)),
    decreases ls.len() - c, 1nat,
{
    reveal(sequence_items);
    reveal(sequence_item);
    if 0 <= c < ls.len() {
        let line = ls[c];
        assert(one_indexed(line_pos(ls[c])));
        lemma_item_pos(ls, c + 1, line, ind);
        if let Ok((item, c2)) = sequence_item(ls, c + 1, line, ind) {
            if c < c2 <= ls.len() {
                lemma_items_pos(ls, c2, ind, items.push(item));
            }
        }
    }
}

proof fn lemma_item_pos(ls: Seq<LineModel>, c: int, line: LineModel, seq_indent: int)
    requires
        lines_one_indexed(ls),
        one_indexed(line_pos(line)),
        c <= ls.len(),
    ensures
        stops_one_indexed(sequence_item(ls, c, line, seq_indent)),
    decreases ls.len() - c, 3nat,
{
    reveal(sequence_item);
    reveal(node_at);
    reveal(mapping_entries_after);
    let rest = after_dash(line.content);
    if nested_or_empty(ls, c, seq_indent) {
        lemma_node_pos(ls, c, ls[c].indent);
    }
    crate::parser::sequence::lemma_rest_in_content(line.content);
    let rs = dash_rest_start(line.content);
    lemma_flow_in_line_pos(rest, content_pos(line, rs), c);
    if let Some((k, v)) = crate::parser::sequence::split_key_val(rest) {
        let vt = trim(v);
        crate::text::lemma_trim_bounds(v);
        let base = content_pos(line, rs + value_start(k, v));
        lemma_flow_in_line_pos(vt, base, c);
        let key = Node::Scalar(crate::parser::sequence::scalar_or_quoted(k));
        let value = if vt.len() == 0 {
            if nested_or_empty(ls, c, seq_indent) {
                node_at(ls, c, ls[c].indent)
            } else {
                Ok((crate::ast::empty_scalar(), c))
            }
        } else if starts_flow(vt) {
            flow_in_line(vt, base, c)
        } else {
            Ok((Node::Scalar(crate::parser::sequence::scalar_or_quoted(vt)), c))
        };
        if let Ok((v2, c2)) = value {
            if c <= c2 <= ls.len() {
                lemma_entries_after_pos(ls, c2, seq_indent + 2, seq![Pair { key, value: v2 }]);
            }
        }
    }
}

proof fn lemma_entries_pos(ls: Seq<LineModel>, c: int, ind: int, entries: Seq<Pair>)
    requires
        lines_one_indexed(ls),
    ensures
        stops_one_indexed(mapping_entries(ls, c, ind, entries)),
    decreases ls.len() - c, 1nat,
{
    reveal(mapping_entries);
    reveal(mapping_entry);
    if 0 <= c < ls.len() {
        let line = ls[c];
        assert(one_indexed(line_pos(ls[c])));
        if let Some((k, v)) = crate::parser::sequence::split_key_val(line.content) {
            lemma_entry_pos(ls, c + 1, line, k, v, ind);
            if let Ok((p, c2)) = mapping_entry(ls, c + 1, line, k, v, ind) {
                if c < c2 <= ls.len() {
                    lemma_entries_pos(ls, c2, ind, entries.push(p));
                }
            }
        }
    }
}

proof fn lemma_entries_after_pos(ls: Seq<LineModel>, c: int, ind: int, entries: Seq<Pair>)
    requires
        lines_one_indexed(ls),
    ensures
        stops_one_indexed(mapping_entries_after(ls, c, ind, entries)),
    decreases ls.len() - c, 1nat,
{
    reveal(mapping_entries_after);
    reveal(mapping_entry);
    if 0 <= c < ls.len() {
        let line = ls[c];
        assert(one_indexed(line_pos(ls[c])));
        if let Some((k, v)) = crate::parser::sequence::split_key_val(line.content) {
            lemma_entry_pos(ls, c + 1, line, k, v, line.indent);
            if let Ok((p, c2)) = mapping_entry(ls, c + 1, line, k, v, line.indent) {
                if c < c2 <= ls.len() {
                    lemma_entries_after_pos(ls, c2, ind, entries.push(p));
                }
            }
        }
    }
}

proof fn lemma_entry_pos(
    ls: Seq<LineModel>,
    c: int,
    line: LineModel,
    k: Seq<char>,
    v: Seq<char>,
    map_indent: int,
)
    requires
        lines_one_indexed(ls),
        one_indexed(line_pos(line)),
        c <= ls.len(),
    ensures
        stops_one_indexed(mapping_entry(ls, c, line, k, v, map_indent)),
    decreases ls.len() - c, 3nat,
{
    reveal(mapping_entry);
    reveal(node_at);
    if nested_or_empty(ls, c, map_indent) {
        lemma_node_pos(ls, c, ls[c].indent);
    }
    crate::text::lemma_trim_bounds(v);
    lemma_flow_in_line_pos(trim(v), content_pos(line, value_start(k, v)), c);
}

/// The scanner reports a tab at a 1-indexed position and gives lines that
/// start at 1-indexed positions.
proof fn lemma_scan_from_pos(input: Seq<char>, i: int, n: int, b: int, acc: Seq<LineModel>)
    requires
        n >= 1,
        lines_one_indexed(acc),
    ensures
        fails_one_indexed(scan_from(input, i, n, b, acc)),
        scan_from(input, i, n, b, acc) matches Ok(ls) ==> lines_one_indexed(ls),
    decreases input.len() - i,
{
    if 0 <= i <= input.len() {
        let j = find_from(input, i, '\n');
        lemma_find_from(input, i, '\n');
        let raw = input.subrange(i, j);
        let line = strip_cr(raw);
        crate::scanner::lemma_space_run(line, 0);
        match scan_line(line, n, b) {
            Err(e) => {},
            Ok(found) => {
                let acc2 = match found {
                    Some(l) => acc.push(l),
                    None => acc,
                };
                assert(lines_one_indexed(acc2)) by {
                    if let Some(l) = found {
                        assert forall|m: int| 0 <= m < acc2.len() implies one_indexed(
                            #[trigger] line_pos(acc2[m]),
                        ) by {
                            if m < acc.len() {
                                assert(acc2[m] == acc[m]);
                            }
                        }
                    }
                }
                if j < input.len() {
                    lemma_scan_from_pos(input, j + 1, n + 1, b + utf8_len(raw) + 1, acc2);
                }
            },
        }
    }
}

/// Errors are reported at 1-indexed positions: whatever error the parser
/// gives for an input, its line and its column are at least 1.
pub proof fn law_error_positions_one_indexed(input: Seq<char>)
    ensures
        fails_one_indexed(parse_document(input)),
        fails_one_indexed(scan(input)),
{
    lemma_scan_from_pos(input, 0, 1, 0, Seq::empty());
    if let Ok(ls) = scan(input) {
        lemma_node_pos(ls, 0, 0);
        lemma_node_pos(ls, 1, 0);
    }
}


// ==============================================================================
// Scalars are pieces of the input
// ==============================================================================

/// `s` occurs in `t` as a run of consecutive characters.
pub open spec fn piece_of(s: Seq<char>, t: Seq<char>) -> bool {
    exists|i: int, j: int| 0 <= i <= j <= t.len() && s == t.subrange(i, j)
}

/// Every scalar of `n`, keys included, is a piece of `t`.
pub open spec fn scalars_within(n: Node, t: Seq<char>) -> bool
    decreases n,
{
    match n {
        Node::Scalar(s) => piece_of(s, t),
        Node::Sequence(items) => forall|i: int|
            0 <= i < items.len() ==> scalars_within(#[trigger] items[i], t),
        Node::Mapping(es) => forall|i: int|
            0 <= i < es.len() ==> scalars_within((#[trigger] es[i]).key, t) && scalars_within(
                es[i].value,
                t,
            ),
    }
}

/// Every scalar of the nodes `items` is a piece of `t`.
pub open spec fn items_within(items: Seq<Node>, t: Seq<char>) -> bool {
    forall|i: int| 0 <= i < items.len() ==> scalars_within(#[trigger] items[i], t)
}

/// Every scalar of the entries `es` is a piece of `t`.
pub open spec fn entries_within(es: Seq<Pair>, t: Seq<char>) -> bool {
    forall|i: int|
        0 <= i < es.len() ==> scalars_within((#[trigger] es[i]).key, t) && scalars_within(
            es[i].value,
            t,
        )
}

/// The content of every line of `ls` is a piece of `t`.
pub open spec fn lines_within(ls: Seq<LineModel>, t: Seq<char>) -> bool {
    forall|k: int| 0 <= k < ls.len() ==> piece_of((#[trigger] ls[k]).content, t)
}

proof fn lemma_piece_subrange(t: Seq<char>, i: int, j: int)
    requires
        0 <= i <= j <= t.len(),
    ensures
        piece_of(t.subrange(i, j), t),
{
}

proof fn lemma_piece_trans(s: Seq<char>, u: Seq<char>, t: Seq<char>)
    requires
        piece_of(s, u),
        piece_of(u, t),
    ensures
        piece_of(s, t),
{
    let (i, j) = choose|i: int, j: int| 0 <= i <= j <= u.len() && s == u.subrange(i, j);
    let (i2, j2) = choose|i: int, j: int| 0 <= i <= j <= t.len() && u == t.subrange(i, j);
    assert(s =~= t.subrange(i2 + i, i2 + j));
}

proof fn lemma_piece_empty(t: Seq<char>)
    ensures
        piece_of(Seq::empty(), t),
{
    assert(Seq::<char>::empty() =~= t.subrange(0, 0));
}

proof fn lemma_piece_trim(x: Seq<char>)
    ensures
        piece_of(trim(x), x),
{
    crate::text::lemma_trim_bounds(x);
}

proof fn lemma_piece_scalar_or_quoted(x: Seq<char>)
    ensures
        piece_of(crate::parser::sequence::scalar_or_quoted(x), x),
{
    lemma_piece_trim(x);
    let t = trim(x);
    if t.len() >= 2 {
        lemma_piece_subrange(t, 1, t.len() - 1);
        lemma_piece_trans(t.subrange(1, t.len() - 1), t, x);
    }
}

/// Key and value of a split are pieces of the text.
proof fn lemma_piece_split(text: Seq<char>)
    ensures
        crate::parser::sequence::split_key_val(text) matches Some((k, v)) ==> piece_of(k, text)
            && piece_of(v, text),
{
    crate::parser::sequence::lemma_key_colon(text, 0, false, false, None);
    let i = crate::parser::sequence::key_colon(text, 0, false, false, None);
    if i >= 0 {
        lemma_piece_subrange(text, 0, i);
        assert(text.take(i) == text.subrange(0, i));
        lemma_piece_empty(text);
        if i + 1 < text.len() {
            lemma_piece_subrange(text, i + 2, text.len() as int);
        }
    }
}

proof fn lemma_piece_after_dash(content: Seq<char>)
    ensures
        piece_of(after_dash(content), content),
{
    lemma_piece_empty(content);
    if content.len() > 1 {
        let s = content.subrange(2, content.len() as int);
        lemma_piece_subrange(content, 2, content.len() as int);
        crate::text::lemma_skip_ws_from(s, 0);
        lemma_piece_subrange(s, crate::text::skip_ws_from(s, 0), s.len() as int);
        lemma_piece_trans(after_dash(content), s, content);
    }
}

/// Scalars within a piece of `t` are within `t`.
proof fn lemma_within_trans(n: Node, u: Seq<char>, t: Seq<char>)
    requires
        scalars_within(n, u),
        piece_of(u, t),
    ensures
        scalars_within(n, t),
    decreases n,
{
    match n {
        Node::Scalar(s) => {
            lemma_piece_trans(s, u, t);
        },
        Node::Sequence(items) => {
            assert forall|i: int| 0 <= i < items.len() implies scalars_within(
                #[trigger] items[i],
                t,
            ) by {
                lemma_within_trans(items[i], u, t);
            }
        },
        Node::Mapping(es) => {
            assert forall|i: int| 0 <= i < es.len() implies scalars_within(
                (#[trigger] es[i]).key,
                t,
            ) && scalars_within(es[i].value, t) by {
                assert(decreases_to!(es => es[i]));
                lemma_within_trans(es[i].key, u, t);
                lemma_within_trans(es[i].value, u, t);
            }
        },
    }
}

proof fn lemma_items_push(items: Seq<Node>, x: Node, t: Seq<char>)
    requires
        items_within(items, t),
        scalars_within(x, t),
    ensures
        items_within(items.push(x), t),
{
    assert forall|i: int| 0 <= i < items.push(x).len() implies scalars_within(
        #[trigger] items.push(x)[i],
        t,
    ) by {
        if i < items.len() {
            assert(items.push(x)[i] == items[i]);
        }
    }
}

proof fn lemma_entries_push(es: Seq<Pair>, p: Pair, t: Seq<char>)
    requires
        entries_within(es, t),
        scalars_within(p.key, t),
        scalars_within(p.value, t),
    ensures
        entries_within(es.push(p), t),
{
    assert forall|i: int| 0 <= i < es.push(p).len() implies scalars_within(
        (#[trigger] es.push(p)[i]).key,
        t,
    ) && scalars_within(es.push(p)[i].value, t) by {
        if i < es.len() {
            assert(es.push(p)[i] == es[i]);
        }
    }
}


proof fn lemma_flow_key_within(t: Seq<char>, b: Pos, k: int)
    requires
        0 <= k <= t.len(),
    ensures
        flow_key(t, b, k) matches Ok((n, _)) ==> scalars_within(n, t),
{
    lemma_skip_blank(t, k);
    let k1 = skip_blank(t, k);
    lemma_flow_scalars_within(t, b, k1);
}

/// The scalars that start at `k` (plain, plain key, single- or double-quoted)
/// are pieces of `t`.
proof fn lemma_flow_scalars_within(t: Seq<char>, b: Pos, k: int)
    requires
        0 <= k <= t.len(),
    ensures
        crate::parser::flow::flow_plain_scalar(t, b, k) matches Ok((n, _)) ==> scalars_within(n, t),
        crate::parser::flow::flow_plain_key(t, b, k) matches Ok((n, _)) ==> scalars_within(n, t),
        k < t.len() ==> (crate::parser::flow::flow_single_quoted(t, b, k) matches Ok((n, _))
            ==> scalars_within(n, t)),
        k < t.len() ==> (crate::parser::flow::flow_double_quoted(t, b, k) matches Ok((n, _))
            ==> scalars_within(n, t)),
{
    lemma_plain_end(t, k);
    let e = plain_end(t, k);
    lemma_piece_subrange(t, k, e);
    lemma_piece_trim(t.subrange(k, e));
    lemma_piece_trans(trim(t.subrange(k, e)), t.subrange(k, e), t);
    lemma_key_end(t, k);
    let e2 = key_end(t, k);
    lemma_piece_subrange(t, k, e2);
    lemma_piece_trim(t.subrange(k, e2));
    lemma_piece_trans(trim(t.subrange(k, e2)), t.subrange(k, e2), t);
    if k < t.len() {
        lemma_find_from(t, k + 1, '\'');
        let j = find_from(t, k + 1, '\'');
        if j < t.len() {
            lemma_piece_subrange(t, k + 1, j);
        }
        lemma_dq_end(t, k + 1, false);
        let j2 = dq_end(t, k + 1, false);
        if j2 < t.len() {
            lemma_piece_subrange(t, k + 1, j2);
        }
    }
}

proof fn lemma_flow_value_within(t: Seq<char>, b: Pos, k: int)
    requires
        0 <= k <= t.len(),
    ensures
        flow_value(t, b, k) matches Ok((n, _)) ==> scalars_within(n, t),
    decreases t.len() - k, 1nat,
{
    lemma_skip_blank(t, k);
    let k1 = skip_blank(t, k);
    lemma_flow_scalars_within(t, b, k1);
    if k1 < t.len() {
        lemma_flow_sequence_within(t, b, k1);
        lemma_flow_mapping_within(t, b, k1);
    }
}

proof fn lemma_flow_sequence_within(t: Seq<char>, b: Pos, k: int)
    requires
        0 <= k < t.len(),
    ensures
        flow_sequence(t, b, k) matches Ok((n, _)) ==> scalars_within(n, t),
    decreases t.len() - k, 0nat,
{
    lemma_flow_items_within(t, b, k + 1, Seq::empty(), flow_pos(t, b, k));
}

proof fn lemma_flow_mapping_within(t: Seq<char>, b: Pos, k: int)
    requires
        0 <= k < t.len(),
    ensures
        flow_mapping(t, b, k) matches Ok((n, _)) ==> scalars_within(n, t),
    decreases t.len() - k, 0nat,
{
    lemma_flow_entries_within(t, b, k + 1, Seq::empty(), flow_pos(t, b, k));
}

proof fn lemma_flow_items_within(t: Seq<char>, b: Pos, k: int, items: Seq<Node>, start: Pos)
    requires
        0 <= k <= t.len(),
        items_within(items, t),
    ensures
        flow_sequence_items(t, b, k, items, start) matches Ok((n, _)) ==> scalars_within(n, t),
    decreases t.len() - k, 2nat,
{
    lemma_skip_blank(t, k);
    let k1 = skip_blank(t, k);
    if !(peek_at(t, k1) == Some(']')) && !(k1 >= t.len() || k1 < k) {
        lemma_flow_value_within(t, b, k1);
        if let Ok((item, k2)) = flow_value(t, b, k1) {
            if k1 < k2 <= t.len() {
                lemma_items_push(items, item, t);
                lemma_skip_blank(t, k2);
                let k3 = skip_blank(t, k2);
                if peek_at(t, k3) == Some(',') {
                    lemma_skip_blank(t, k3 + 1);
                    let k4 = skip_blank(t, k3 + 1);
                    if !(peek_at(t, k4) == Some(']')) && !(k4 <= k) {
                        lemma_flow_items_within(t, b, k4, items.push(item), start);
                    }
                }
            }
        }
    }
}

proof fn lemma_flow_entries_within(t: Seq<char>, b: Pos, k: int, entries: Seq<Pair>, start: Pos)
    requires
        0 <= k <= t.len(),
        entries_within(entries, t),
    ensures
        flow_mapping_entries(t, b, k, entries, start) matches Ok((n, _)) ==> scalars_within(n, t),
    decreases t.len() - k, 2nat,
{
    lemma_skip_blank(t, k);
    let k1 = skip_blank(t, k);
    if !(peek_at(t, k1) == Some('}')) && !(k1 >= t.len() || k1 < k) {
        lemma_flow_key_within(t, b, k1);
        if let Ok((key, k2)) = flow_key(t, b, k1) {
            if k1 < k2 <= t.len() {
                lemma_skip_blank(t, k2);
                let k3 = skip_blank(t, k2);
                if !(peek_at(t, k3) != Some(':') || k3 < k) {
                    lemma_flow_value_within(t, b, k3 + 1);
                    if let Ok((value, k4)) = flow_value(t, b, k3 + 1) {
                        if k3 < k4 <= t.len() {
                            lemma_entries_push(entries, Pair { key, value }, t);
                            lemma_skip_blank(t, k4);
                            let k5 = skip_blank(t, k4);
                            if peek_at(t, k5) == Some(',') {
                                lemma_skip_blank(t, k5 + 1);
                                let k6 = skip_blank(t, k5 + 1);
                                if !(peek_at(t, k6) == Some('}')) && !(k6 <= k) {
                                    lemma_flow_entries_within(
                                        t,
                                        b,
                                        k6,
                                        entries.push(Pair { key, value }),
                                        start,
                                    );
                                }
                            }
                        }
                    }
                }
            }
        }
    }
}


proof fn lemma_flow_in_line_within(text: Seq<char>, base: Pos, c: int, t: Seq<char>)
    requires
        piece_of(text, t),
    ensures
        flow_in_line(text, base, c) matches Ok((n, _)) ==> scalars_within(n, t),
{
    lemma_flow_value_within(text, base, 0);
    if let Ok((n, _)) = flow_value(text, base, 0) {
        lemma_within_trans(n, text, t);
    }
}

/// The scalar of plain or quoted text that is a piece of `t` is within `t`.
proof fn lemma_scalar_within(x: Seq<char>, t: Seq<char>)
    requires
        piece_of(x, t),
    ensures
        scalars_within(Node::Scalar(crate::parser::sequence::scalar_or_quoted(x)), t),
{
    lemma_piece_scalar_or_quoted(x);
    lemma_piece_trans(crate::parser::sequence::scalar_or_quoted(x), x, t);
}

proof fn lemma_node_within(ls: Seq<LineModel>, c: int, min_indent: int, t: Seq<char>)
    requires
        lines_within(ls, t),
    ensures
        node_at(ls, c, min_indent) matches Ok((n, _)) ==> scalars_within(n, t),
    decreases ls.len() - c, 2nat,
{
    reveal(node_at);
    reveal(sequence_items);
    reveal(mapping_entries);
    lemma_piece_empty(t);
    if 0 <= c < ls.len() {
        let line = ls[c];
        assert(piece_of(ls[c].content, t));
        lemma_items_within(ls, c, line.indent, Seq::empty(), t);
        lemma_entries_within(ls, c, line.indent, Seq::empty(), t);
        lemma_flow_in_line_within(line.content, line_pos(line), c + 1, t);
        lemma_scalar_within(line.content, t);
    }
}

proof fn lemma_items_within(ls: Seq<LineModel>, c: int, ind: int, items: Seq<Node>, t: Seq<char>)
    requires
        lines_within(ls, t),
        items_within(items, t),
    ensures
        sequence_items(ls, c, ind, items) matches Ok((n, _)) ==> scalars_within(n, t),
    decreases ls.len() - c, 1nat,
{
    reveal(sequence_items);
    reveal(sequence_item);
    if 0 <= c < ls.len() {
        let line = ls[c];
        assert(piece_of(ls[c].content, t));
        lemma_item_within(ls, c + 1, line, ind, t);
        if let Ok((item, c2)) = sequence_item(ls, c + 1, line, ind) {
            if c < c2 <= ls.len() {
                lemma_items_push(items, item, t);
                lemma_items_within(ls, c2, ind, items.push(item), t);
            }
        }
    }
}

#[verifier::rlimit(40)]
proof fn lemma_item_within(ls: Seq<LineModel>, c: int, line: LineModel, seq_indent: int, t: Seq<char>)
    requires
        lines_within(ls, t),
        piece_of(line.content, t),
        c <= ls.len(),
    ensures
        sequence_item(ls, c, line, seq_indent) matches Ok((n, _)) ==> scalars_within(n, t),
    decreases ls.len() - c, 3nat,
{
    reveal(sequence_item);
    reveal(node_at);
    reveal(mapping_entries_after);
    lemma_piece_empty(t);
    let rest = after_dash(line.content);
    lemma_piece_after_dash(line.content);
    lemma_piece_trans(rest, line.content, t);
    if nested_or_empty(ls, c, seq_indent) {
        lemma_node_within(ls, c, ls[c].indent, t);
    }
    lemma_flow_in_line_within(rest, content_pos(line, dash_rest_start(line.content)), c, t);
    lemma_scalar_within(rest, t);
    lemma_piece_split(rest);
    if let Some((k, v)) = crate::parser::sequence::split_key_val(rest) {
        lemma_piece_trans(k, rest, t);
        lemma_piece_trans(v, rest, t);
        let vt = trim(v);
        lemma_piece_trim(v);
        lemma_piece_trans(vt, v, t);
        lemma_scalar_within(k, t);
        lemma_scalar_within(vt, t);
        let base = content_pos(line, dash_rest_start(line.content) + value_start(k, v));
        lemma_flow_in_line_within(vt, base, c, t);
        let key = Node::Scalar(crate::parser::sequence::scalar_or_quoted(k));
        let value = if vt.len() == 0 {
            if nested_or_empty(ls, c, seq_indent) {
                node_at(ls, c, ls[c].indent)
            } else {
                Ok((crate::ast::empty_scalar(), c))
            }
        } else if starts_flow(vt) {
            flow_in_line(vt, base, c)
        } else {
            Ok((Node::Scalar(crate::parser::sequence::scalar_or_quoted(vt)), c))
        };
        if let Ok((v2, c2)) = value {
            if c <= c2 <= ls.len() {
                let first = seq![Pair { key, value: v2 }];
                lemma_entries_push(Seq::empty(), Pair { key, value: v2 }, t);
                assert(Seq::<Pair>::empty().push(Pair { key, value: v2 }) == first);
                lemma_entries_after_within(ls, c2, seq_indent + 2, first, t);
            }
        }
    }
}

proof fn lemma_entries_within(ls: Seq<LineModel>, c: int, ind: int, entries: Seq<Pair>, t: Seq<char>)
    requires
        lines_within(ls, t),
        entries_within(entries, t),
    ensures
        mapping_entries(ls, c, ind, entries) matches Ok((n, _)) ==> scalars_within(n, t),
    decreases ls.len() - c, 1nat,
{
    reveal(mapping_entries);
    reveal(mapping_entry);
    if 0 <= c < ls.len() {
        let line = ls[c];
        assert(piece_of(ls[c].content, t));
        lemma_piece_split(line.content);
        if let Some((k, v)) = crate::parser::sequence::split_key_val(line.content) {
            lemma_piece_trans(k, line.content, t);
            lemma_piece_trans(v, line.content, t);
            lemma_entry_within(ls, c + 1, line, k, v, ind, t);
            if let Ok((p, c2)) = mapping_entry(ls, c + 1, line, k, v, ind) {
                if c < c2 <= ls.len() {
                    lemma_entries_push(entries, p, t);
                    lemma_entries_within(ls, c2, ind, entries.push(p), t);
                }
            }
        }
    }
}

proof fn lemma_entries_after_within(
    ls: Seq<LineModel>,
    c: int,
    ind: int,
    entries: Seq<Pair>,
    t: Seq<char>,
)
    requires
        lines_within(ls, t),
        entries_within(entries, t),
    ensures
        mapping_entries_after(ls, c, ind, entries) matches Ok((n, _)) ==> scalars_within(n, t),
    decreases ls.len() - c, 1nat,
{
    reveal(mapping_entries_after);
    reveal(mapping_entry);
    if 0 <= c < ls.len() {
        let line = ls[c];
        assert(piece_of(ls[c].content, t));
        lemma_piece_split(line.content);
        if let Some((k, v)) = crate::parser::sequence::split_key_val(line.content) {
            lemma_piece_trans(k, line.content, t);
            lemma_piece_trans(v, line.content, t);
            lemma_entry_within(ls, c + 1, line, k, v, line.indent, t);
            if let Ok((p, c2)) = mapping_entry(ls, c + 1, line, k, v, line.indent) {
                if c < c2 <= ls.len() {
                    lemma_entries_push(entries, p, t);
                    lemma_entries_after_within(ls, c2, ind, entries.push(p), t);
                }
            }
        }
    }
}

proof fn lemma_entry_within(
    ls: Seq<LineModel>,
    c: int,
    line: LineModel,
    k: Seq<char>,
    v: Seq<char>,
    map_indent: int,
    t: Seq<char>,
)
    requires
        lines_within(ls, t),
        piece_of(k, t),
        piece_of(v, t),
        c <= ls.len(),
    ensures
        mapping_entry(ls, c, line, k, v, map_indent) matches Ok((p, _)) ==> scalars_within(p.key, t)
            && scalars_within(p.value, t),
    decreases ls.len() - c, 3nat,
{
    reveal(mapping_entry);
    reveal(node_at);
    lemma_piece_empty(t);
    if nested_or_empty(ls, c, map_indent) {
        lemma_node_within(ls, c, ls[c].indent, t);
    }
    lemma_piece_trim(v);
    lemma_piece_trans(trim(v), v, t);
    lemma_scalar_within(k, t);
    lemma_scalar_within(trim(v), t);
    lemma_flow_in_line_within(trim(v), content_pos(line, value_start(k, v)), c, t);
}

/// Every scalar of a parsed document, keys included, is a piece of the input
/// text: parsing only cuts the input, it never builds new text.
pub proof fn law_scalars_are_pieces_of_input(input: Seq<char>)
    ensures
        parse_document(input) matches Ok(doc) ==> scalars_within(doc, input),
{
    law_scanned_lines(input);
    lemma_piece_empty(input);
    if let Ok(ls) = scan(input) {
        assert forall|k: int| 0 <= k < ls.len() implies piece_of((#[trigger] ls[k]).content, input) by {
            assert(scanned_line(input, ls[k]));
            let ci = choose|ci: int| cut_at(input, ls[k], ci);
            lemma_piece_subrange(input, ci, ci + ls[k].content.len());
        }
        lemma_node_within(ls, 0, 0, input);
        lemma_node_within(ls, 1, 0, input);
    }
}


// ==============================================================================
// Every mapping has distinct keys
// ==============================================================================

/// Every mapping in `n`, however deep, has distinct scalar keys.
pub open spec fn mappings_distinct(n: Node) -> bool
    decreases n,
{
    match n {
        Node::Scalar(_) => true,
        Node::Sequence(items) => forall|i: int|
            0 <= i < items.len() ==> mappings_distinct(#[trigger] items[i]),
        Node::Mapping(es) => distinct_keys(es) && forall|i: int|
            0 <= i < es.len() ==> mappings_distinct((#[trigger] es[i]).key) && mappings_distinct(
                es[i].value,
            ),
    }
}

/// Every mapping in the nodes `items` has distinct scalar keys.
pub open spec fn items_distinct(items: Seq<Node>) -> bool {
    forall|i: int| 0 <= i < items.len() ==> mappings_distinct(#[trigger] items[i])
}

/// The entries `es` have distinct scalar keys, and so has every mapping in them.
pub open spec fn entries_distinct(es: Seq<Pair>) -> bool {
    &&& distinct_keys(es)
    &&& forall|i: int|
        0 <= i < es.len() ==> mappings_distinct((#[trigger] es[i]).key) && mappings_distinct(
            es[i].value,
        )
}

proof fn lemma_items_push_distinct(items: Seq<Node>, x: Node)
    requires
        items_distinct(items),
        mappings_distinct(x),
    ensures
        items_distinct(items.push(x)),
{
    assert forall|i: int| 0 <= i < items.push(x).len() implies mappings_distinct(
        #[trigger] items.push(x)[i],
    ) by {
        if i < items.len() {
            assert(items.push(x)[i] == items[i]);
        }
    }
}

proof fn lemma_entries_push_distinct(es: Seq<Pair>, p: Pair)
    requires
        entries_distinct(es),
        !is_duplicate(es, p.key),
        mappings_distinct(p.key),
        mappings_distinct(p.value),
    ensures
        entries_distinct(es.push(p)),
{
    lemma_push_distinct(es, p);
    assert forall|i: int| 0 <= i < es.push(p).len() implies mappings_distinct(
        (#[trigger] es.push(p)[i]).key,
    ) && mappings_distinct(es.push(p)[i].value) by {
        if i < es.len() {
            assert(es.push(p)[i] == es[i]);
        }
    }
}

proof fn lemma_flow_value_distinct(t: Seq<char>, b: Pos, k: int)
    requires
        0 <= k <= t.len(),
    ensures
        flow_value(t, b, k) matches Ok((n, _)) ==> mappings_distinct(n),
    decreases t.len() - k, 1nat,
{
    lemma_skip_blank(t, k);
    let k1 = skip_blank(t, k);
    if k1 < t.len() {
        lemma_flow_sequence_distinct(t, b, k1);
        lemma_flow_mapping_distinct(t, b, k1);
    }
}

proof fn lemma_flow_sequence_distinct(t: Seq<char>, b: Pos, k: int)
    requires
        0 <= k < t.len(),
    ensures
        flow_sequence(t, b, k) matches Ok((n, _)) ==> mappings_distinct(n),
    decreases t.len() - k, 0nat,
{
    lemma_flow_items_distinct(t, b, k + 1, Seq::empty(), flow_pos(t, b, k));
}

proof fn lemma_flow_mapping_distinct(t: Seq<char>, b: Pos, k: int)
    requires
        0 <= k < t.len(),
    ensures
        flow_mapping(t, b, k) matches Ok((n, _)) ==> mappings_distinct(n),
    decreases t.len() - k, 0nat,
{
    lemma_flow_entries_distinct(t, b, k + 1, Seq::empty(), flow_pos(t, b, k));
}

proof fn lemma_flow_items_distinct(t: Seq<char>, b: Pos, k: int, items: Seq<Node>, start: Pos)
    requires
        0 <= k <= t.len(),
        items_distinct(items),
    ensures
        flow_sequence_items(t, b, k, items, start) matches Ok((n, _)) ==> mappings_distinct(n),
    decreases t.len() - k, 2nat,
{
    lemma_skip_blank(t, k);
    let k1 = skip_blank(t, k);
    if !(peek_at(t, k1) == Some(']')) && !(k1 >= t.len() || k1 < k) {
        lemma_flow_value_distinct(t, b, k1);
        if let Ok((item, k2)) = flow_value(t, b, k1) {
            if k1 < k2 <= t.len() {
                lemma_items_push_distinct(items, item);
                lemma_skip_blank(t, k2);
                let k3 = skip_blank(t, k2);
                if peek_at(t, k3) == Some(',') {
                    lemma_skip_blank(t, k3 + 1);
                    let k4 = skip_blank(t, k3 + 1);
                    if !(peek_at(t, k4) == Some(']')) && !(k4 <= k) {
                        lemma_flow_items_distinct(t, b, k4, items.push(item), start);
                    }
                }
            }
        }
    }
}

proof fn lemma_flow_entries_distinct(t: Seq<char>, b: Pos, k: int, entries: Seq<Pair>, start: Pos)
    requires
        0 <= k <= t.len(),
        entries_distinct(entries),
    ensures
        flow_mapping_entries(t, b, k, entries, start) matches Ok((n, _)) ==> mappings_distinct(n),
    decreases t.len() - k, 2nat,
{
    lemma_skip_blank(t, k);
    let k1 = skip_blank(t, k);
    if !(peek_at(t, k1) == Some('}')) && !(k1 >= t.len() || k1 < k) {
        if let Ok((key, k2)) = flow_key(t, b, k1) {
            if k1 < k2 <= t.len() && !is_duplicate(entries, key) {
                assert(key is Scalar) by {
                    lemma_skip_blank(t, k1);
                }
                lemma_skip_blank(t, k2);
                let k3 = skip_blank(t, k2);
                if !(peek_at(t, k3) != Some(':') || k3 < k) {
                    lemma_flow_value_distinct(t, b, k3 + 1);
                    if let Ok((value, k4)) = flow_value(t, b, k3 + 1) {
                        if k3 < k4 <= t.len() {
                            lemma_entries_push_distinct(entries, Pair { key, value });
                            lemma_skip_blank(t, k4);
                            let k5 = skip_blank(t, k4);
                            if peek_at(t, k5) == Some(',') {
                                lemma_skip_blank(t, k5 + 1);
                                let k6 = skip_blank(t, k5 + 1);
                                if !(peek_at(t, k6) == Some('}')) && !(k6 <= k) {
                                    lemma_flow_entries_distinct(
                                        t,
                                        b,
                                        k6,
                                        entries.push(Pair { key, value }),
                                        start,
                                    );
                                }
                            }
                        }
                    }
                }
            }
        }
    }
}

proof fn lemma_flow_in_line_distinct(text: Seq<char>, base: Pos, c: int)
    ensures
        flow_in_line(text, base, c) matches Ok((n, _)) ==> mappings_distinct(n),
{
    lemma_flow_value_distinct(text, base, 0);
}

proof fn lemma_node_distinct(ls: Seq<LineModel>, c: int, min_indent: int)
    ensures
        node_at(ls, c, min_indent) matches Ok((n, _)) ==> mappings_distinct(n),
    decreases ls.len() - c, 2nat,
{
    reveal(node_at);
    reveal(sequence_items);
    reveal(mapping_entries);
    if 0 <= c < ls.len() {
        let line = ls[c];
        lemma_items_distinct(ls, c, line.indent, Seq::empty());
        lemma_entries_distinct(ls, c, line.indent, Seq::empty());
        lemma_flow_in_line_distinct(line.content, line_pos(line), c + 1);
    }
}

proof fn lemma_items_distinct(ls: Seq<LineModel>, c: int, ind: int, items: Seq<Node>)
    requires
        items_distinct(items),
    ensures
        sequence_items(ls, c, ind, items) matches Ok((n, _)) ==> mappings_distinct(n),
    decreases ls.len() - c, 1nat,
{
    reveal(sequence_items);
    reveal(sequence_item);
    if 0 <= c < ls.len() {
        let line = ls[c];
        lemma_item_distinct(ls, c + 1, line, ind);
        if let Ok((item, c2)) = sequence_item(ls, c + 1, line, ind) {
            if c < c2 <= ls.len() {
                lemma_items_push_distinct(items, item);
                lemma_items_distinct(ls, c2, ind, items.push(item));
            }
        }
    }
}

proof fn lemma_item_distinct(ls: Seq<LineModel>, c: int, line: LineModel, seq_indent: int)
    requires
        c <= ls.len(),
    ensures
        sequence_item(ls, c, line, seq_indent) matches Ok((n, _)) ==> mappings_distinct(n),
    decreases ls.len() - c, 3nat,
{
    reveal(sequence_item);
    reveal(node_at);
    reveal(mapping_entries_after);
    let rest = after_dash(line.content);
    if nested_or_empty(ls, c, seq_indent) {
        lemma_node_distinct(ls, c, ls[c].indent);
    }
    lemma_flow_in_line_distinct(rest, content_pos(line, dash_rest_start(line.content)), c);
    if let Some((k, v)) = crate::parser::sequence::split_key_val(rest) {
        let vt = trim(v);
        let base = content_pos(line, dash_rest_start(line.content) + value_start(k, v));
        lemma_flow_in_line_distinct(vt, base, c);
        let key = Node::Scalar(crate::parser::sequence::scalar_or_quoted(k));
        let value = if vt.len() == 0 {
            if nested_or_empty(ls, c, seq_indent) {
                node_at(ls, c, ls[c].indent)
            } else {
                Ok((crate::ast::empty_scalar(), c))
            }
        } else if starts_flow(vt) {
            flow_in_line(vt, base, c)
        } else {
            Ok((Node::Scalar(crate::parser::sequence::scalar_or_quoted(vt)), c))
        };
        if let Ok((v2, c2)) = value {
            if c <= c2 <= ls.len() {
                let first = seq![Pair { key, value: v2 }];
                lemma_entries_push_distinct(Seq::empty(), Pair { key, value: v2 });
                assert(Seq::<Pair>::empty().push(Pair { key, value: v2 }) == first);
                lemma_entries_after_distinct(ls, c2, seq_indent + 2, first);
            }
        }
    }
}

proof fn lemma_entries_distinct(ls: Seq<LineModel>, c: int, ind: int, entries: Seq<Pair>)
    requires
        entries_distinct(entries),
    ensures
        mapping_entries(ls, c, ind, entries) matches Ok((n, _)) ==> mappings_distinct(n),
    decreases ls.len() - c, 1nat,
{
    reveal(mapping_entries);
    reveal(mapping_entry);
    if 0 <= c < ls.len() {
        let line = ls[c];
        if let Some((k, v)) = crate::parser::sequence::split_key_val(line.content) {
            lemma_entry_distinct(ls, c + 1, line, k, v, ind);
            if let Ok((p, c2)) = mapping_entry(ls, c + 1, line, k, v, ind) {
                if c < c2 <= ls.len() && !is_duplicate(entries, p.key) {
                    lemma_entries_push_distinct(entries, p);
                    lemma_entries_distinct(ls, c2, ind, entries.push(p));
                }
            }
        }
    }
}

proof fn lemma_entries_after_distinct(ls: Seq<LineModel>, c: int, ind: int, entries: Seq<Pair>)
    requires
        entries_distinct(entries),
    ensures
        mapping_entries_after(ls, c, ind, entries) matches Ok((n, _)) ==> mappings_distinct(n),
    decreases ls.len() - c, 1nat,
{
    reveal(mapping_entries_after);
    reveal(mapping_entry);
    if 0 <= c < ls.len() {
        let line = ls[c];
        if let Some((k, v)) = crate::parser::sequence::split_key_val(line.content) {
            lemma_entry_distinct(ls, c + 1, line, k, v, line.indent);
            if let Ok((p, c2)) = mapping_entry(ls, c + 1, line, k, v, line.indent) {
                if c < c2 <= ls.len() && !is_duplicate(entries, p.key) {
                    lemma_entries_push_distinct(entries, p);
                    lemma_entries_after_distinct(ls, c2, ind, entries.push(p));
                }
            }
        }
    }
}

proof fn lemma_entry_distinct(
    ls: Seq<LineModel>,
    c: int,
    line: LineModel,
    k: Seq<char>,
    v: Seq<char>,
    map_indent: int,
)
    requires
        c <= ls.len(),
    ensures
        mapping_entry(ls, c, line, k, v, map_indent) matches Ok((p, _)) ==> mappings_distinct(p.key)
            && mappings_distinct(p.value),
    decreases ls.len() - c, 3nat,
{
    reveal(mapping_entry);
    reveal(node_at);
    if nested_or_empty(ls, c, map_indent) {
        lemma_node_distinct(ls, c, ls[c].indent);
    }
    lemma_flow_in_line_distinct(trim(v), content_pos(line, value_start(k, v)), c);
}

/// Duplicate keys are refused everywhere: in a parsed document, every mapping,
/// block or flow and however deep, has pairwise distinct scalar keys.
pub proof fn law_mappings_have_distinct_keys(input: Seq<char>)
    ensures
        parse_document(input) matches Ok(doc) ==> mappings_distinct(doc),
{
    if let Ok(ls) = scan(input) {
        lemma_node_distinct(ls, 0, 0);
        lemma_node_distinct(ls, 1, 0);
    }
}


// ==============================================================================
// Error positions are exact source positions
// ==============================================================================

/// The source position of character `m` of `input` (of its end when `m` is
/// its length): line and column count from 1, the offset counts bytes.
pub open spec fn source_pos(input: Seq<char>, m: int) -> Pos {
    flow_pos(input, crate::error::pos(1, 1, 0), m)
}

/// `p` is the source position of some character of `input`, or of its end.
pub open spec fn at_source(input: Seq<char>, p: Pos) -> bool {
    exists|m: int| 0 <= m <= input.len() && p == #[trigger] source_pos(input, m)
}

/// `t` is the line-break-free piece of `input` that starts at character `s`,
/// and `b` is the source position of that character.
pub open spec fn flow_text_at(input: Seq<char>, s: int, t: Seq<char>, b: Pos) -> bool {
    &&& 0 <= s
    &&& s + t.len() <= input.len()
    &&& t == input.subrange(s, s + t.len())
    &&& forall|x: int| 0 <= x < t.len() ==> t[x] != '\n'
    &&& b == source_pos(input, s)
}

/// Line `l` was cut from `input`: its content is the piece of `input` at a
/// character `ci` whose source position is the line's, with no line break in
/// it, and `indent` spaces lie between the start of its source line and `ci`.
pub open spec fn line_from_source(input: Seq<char>, l: LineModel) -> bool {
    exists|ci: int| cut_at(input, l, ci)
}

/// The content of line `l` is the piece of `input` at character `ci`, as
/// [`line_from_source`] says.
pub open spec fn cut_at(input: Seq<char>, l: LineModel, ci: int) -> bool {
    &&& 0 <= l.indent <= ci
    &&& ci + l.content.len() <= input.len()
    &&& l.content == input.subrange(ci, ci + l.content.len())
    &&& line_pos(l) == source_pos(input, ci)
    &&& forall|x: int| ci <= x < ci + l.content.len() ==> input[x] != '\n'
    &&& forall|x: int| ci - l.indent <= x < ci ==> input[x] == ' '
    &&& (ci - l.indent == 0 || input[ci - l.indent - 1] == '\n')
}

/// What the scanner promises of every line it gives for `input`: a
/// non-empty content that starts with neither a space nor a tab and does not
/// end in whitespace, a start column one past the indentation, and a content
/// cut from `input` at the line's own source position.
pub open spec fn scanned_line(input: Seq<char>, l: LineModel) -> bool {
    &&& l.content.len() > 0
    &&& l.content[0] != ' ' && l.content[0] != '\t'
    &&& !crate::text::is_ws(l.content.last())
    &&& l.start_column == l.indent + 1
    &&& line_from_source(input, l)
}

/// Line numbers rise strictly along `ls`.
pub open spec fn rising_lines(ls: Seq<LineModel>) -> bool {
    forall|i: int, j: int| 0 <= i < j < ls.len() ==> (#[trigger] ls[i]).line_number < (#[trigger] ls[j]).line_number
}

/// Moving over characters other than line breaks moves the column by their
/// number and the offset by their bytes.
proof fn lemma_source_step(input: Seq<char>, m: int, m2: int)
    requires
        0 <= m <= m2 <= input.len(),
        forall|x: int| m <= x < m2 ==> input[x] != '\n',
    ensures
        source_pos(input, m2) == crate::error::pos(
            source_pos(input, m).line,
            source_pos(input, m).column + (m2 - m),
            source_pos(input, m).offset + utf8_len(input.subrange(m, m2)),
        ),
{
    crate::scanner::lemma_nl_no_break(input, m, m2);
    crate::text::lemma_utf8_len_concat(input.take(m), input.subrange(m, m2));
    assert(input.take(m) + input.subrange(m, m2) =~= input.take(m2));
}

proof fn lemma_flow_pos_source(input: Seq<char>, s: int, t: Seq<char>, b: Pos, k: int)
    requires
        flow_text_at(input, s, t, b),
        0 <= k <= t.len(),
    ensures
        flow_pos(t, b, k) == source_pos(input, s + k),
        at_source(input, flow_pos(t, b, k)),
{
    crate::scanner::lemma_nl_no_break(t, 0, k);
    assert(t.take(0) =~= Seq::<char>::empty());
    assert(input.subrange(s, s + k) =~= t.take(k));
    assert forall|x: int| s <= x < s + k implies input[x] != '\n' by {
        assert(input[x] == t[x - s]);
    }
    lemma_source_step(input, s, s + k);
}

/// An error result, if `r` is one, is reported at a source position of `input`.
pub open spec fn stops_at_source<T>(input: Seq<char>, r: core::result::Result<T, (Fault, int)>) -> bool {
    r matches Err((e, _)) ==> at_source(input, e.position)
}

proof fn lemma_flow_key_src(input: Seq<char>, s: int, t: Seq<char>, b: Pos, k: int)
    requires
        flow_text_at(input, s, t, b),
        0 <= k <= t.len(),
    ensures
        stops_at_source(input, flow_key(t, b, k)),
{
    lemma_skip_blank(t, k);
    lemma_flow_pos_source(input, s, t, b, skip_blank(t, k));
}

proof fn lemma_flow_value_src(input: Seq<char>, s: int, t: Seq<char>, b: Pos, k: int)
    requires
        flow_text_at(input, s, t, b),
        0 <= k <= t.len(),
    ensures
        stops_at_source(input, flow_value(t, b, k)),
    decreases t.len() - k, 1nat,
{
    lemma_skip_blank(t, k);
    let k1 = skip_blank(t, k);
    lemma_flow_pos_source(input, s, t, b, k1);
    if k1 < t.len() {
        lemma_flow_sequence_src(input, s, t, b, k1);
        lemma_flow_mapping_src(input, s, t, b, k1);
    }
}

proof fn lemma_flow_sequence_src(input: Seq<char>, s: int, t: Seq<char>, b: Pos, k: int)
    requires
        flow_text_at(input, s, t, b),
        0 <= k < t.len(),
    ensures
        stops_at_source(input, flow_sequence(t, b, k)),
    decreases t.len() - k, 0nat,
{
    lemma_flow_pos_source(input, s, t, b, k);
    lemma_flow_items_src(input, s, t, b, k + 1, Seq::empty(), flow_pos(t, b, k));
}

proof fn lemma_flow_mapping_src(input: Seq<char>, s: int, t: Seq<char>, b: Pos, k: int)
    requires
        flow_text_at(input, s, t, b),
        0 <= k < t.len(),
    ensures
        stops_at_source(input, flow_mapping(t, b, k)),
    decreases t.len() - k, 0nat,
{
    lemma_flow_pos_source(input, s, t, b, k);
    lemma_flow_entries_src(input, s, t, b, k + 1, Seq::empty(), flow_pos(t, b, k));
}

proof fn lemma_flow_items_src(
    input: Seq<char>,
    s: int,
    t: Seq<char>,
    b: Pos,
    k: int,
    items: Seq<Node>,
    start: Pos,
)
    requires
        flow_text_at(input, s, t, b),
        0 <= k <= t.len(),
        at_source(input, start),
    ensures
        stops_at_source(input, flow_sequence_items(t, b, k, items, start)),
    decreases t.len() - k, 2nat,
{
    lemma_skip_blank(t, k);
    let k1 = skip_blank(t, k);
    if !(peek_at(t, k1) == Some(']')) && !(k1 >= t.len() || k1 < k) {
        lemma_flow_value_src(input, s, t, b, k1);
        if let Ok((item, k2)) = flow_value(t, b, k1) {
            if k1 < k2 <= t.len() {
                lemma_skip_blank(t, k2);
                let k3 = skip_blank(t, k2);
                lemma_flow_pos_source(input, s, t, b, k3);
                if peek_at(t, k3) == Some(',') {
                    lemma_skip_blank(t, k3 + 1);
                    let k4 = skip_blank(t, k3 + 1);
                    if !(peek_at(t, k4) == Some(']')) && !(k4 <= k) {
                        lemma_flow_items_src(input, s, t, b, k4, items.push(item), start);
                    }
                }
            }
        }
    }
}

proof fn lemma_flow_entries_src(
    input: Seq<char>,
    s: int,
    t: Seq<char>,
    b: Pos,
    k: int,
    entries: Seq<Pair>,
    start: Pos,
)
    requires
        flow_text_at(input, s, t, b),
        0 <= k <= t.len(),
        at_source(input, start),
    ensures
        stops_at_source(input, flow_mapping_entries(t, b, k, entries, start)),
    decreases t.len() - k, 2nat,
{
    lemma_skip_blank(t, k);
    let k1 = skip_blank(t, k);
    if !(peek_at(t, k1) == Some('}')) && !(k1 >= t.len() || k1 < k) {
        lemma_flow_key_src(input, s, t, b, k1);
        lemma_flow_pos_source(input, s, t, b, k1);
        if let Ok((key, k2)) = flow_key(t, b, k1) {
            if k1 < k2 <= t.len() {
                lemma_skip_blank(t, k2);
                let k3 = skip_blank(t, k2);
                lemma_flow_pos_source(input, s, t, b, k3);
                if !(peek_at(t, k3) != Some(':') || k3 < k) {
                    lemma_flow_value_src(input, s, t, b, k3 + 1);
                    if let Ok((value, k4)) = flow_value(t, b, k3 + 1) {
                        if k3 < k4 <= t.len() {
                            lemma_skip_blank(t, k4);
                            let k5 = skip_blank(t, k4);
                            lemma_flow_pos_source(input, s, t, b, k5);
                            if peek_at(t, k5) == Some(',') {
                                lemma_skip_blank(t, k5 + 1);
                                let k6 = skip_blank(t, k5 + 1);
                                if !(peek_at(t, k6) == Some('}')) && !(k6 <= k) {
                                    lemma_flow_entries_src(
                                        input,
                                        s,
                                        t,
                                        b,
                                        k6,
                                        entries.push(Pair { key, value }),
                                        start,
                                    );
                                }
                            }
                        }
                    }
                }
            }
        }
    }
}


/// The line of `input` that starts at `i`, numbered `n` at byte `b`, has its
/// indentation spaces, its tab error and its content at source positions.
#[verifier::rlimit(40)]
proof fn lemma_scan_line_source(input: Seq<char>, i: int, n: int, b: int)
    requires
        0 <= i <= input.len(),
        i == 0 || input[i - 1] == '\n',
        source_pos(input, i) == crate::error::pos(n, 1, b),
    ensures
        ({
            let j = find_from(input, i, '\n');
            let line = strip_cr(input.subrange(i, j));
            &&& scan_line(line, n, b) matches Err(e) ==> at_source(input, e.position)
            &&& scan_line(line, n, b) matches Ok(Some(l)) ==> scanned_line(input, l) && l.line_number
                == n
        }),
{
    let j = find_from(input, i, '\n');
    lemma_find_from(input, i, '\n');
    let raw = input.subrange(i, j);
    let line = strip_cr(raw);
    assert forall|y: int| 0 <= y < line.len() implies line[y] == input[i + y] by {
        assert(line[y] == raw[y]);
    }
    crate::scanner::lemma_space_run(line, 0);
    let ind = space_run(line, 0);
    assert forall|x: int| i <= x < i + ind implies input[x] != '\n' && input[x] == ' ' by {
        assert(line[x - i] == ' ');
    }
    lemma_source_step(input, i, i + ind);
    let sp = input.subrange(i, i + ind);
    crate::scanner::lemma_utf8_len_spaces(sp, ind);
    assert(sp.take(ind) =~= sp);
    assert(source_pos(input, i + ind) == crate::error::pos(n, ind + 1, b + ind));
    if let Ok(Some(l)) = scan_line(line, n, b) {
        let after = line.subrange(ind, line.len() as int);
        crate::scanner::lemma_comment_start(after, 0, false, false, None);
        let stripped = crate::scanner::strip_comment(after);
        crate::text::lemma_back_ws_from(stripped, stripped.len() as int);
        let content = l.content;
        let ci = i + ind;
        assert forall|x: int| 0 <= x < content.len() implies content[x] == input[ci + x] by {
            assert(content[x] == stripped[x]);
            assert(stripped[x] == after[x]);
        }
        assert(content =~= input.subrange(ci, ci + content.len()));
        assert forall|x: int| ci <= x < ci + content.len() implies input[x] != '\n' by {
            assert(input[x] == content[x - ci]);
        }
        assert(content[0] == line[ind]);
        assert(content.last() == stripped[content.len() - 1]);
        assert(cut_at(input, l, ci));
    }
    if let Err(e) = scan_line(line, n, b) {
        assert(e.position == source_pos(input, i + ind));
    }
}

/// The lines that the scanner gives from `i` on, after `acc`, are all
/// scanned lines with rising line numbers, and a refusal is reported at a
/// source position.
proof fn lemma_scan_from_source(input: Seq<char>, i: int, n: int, b: int, acc: Seq<LineModel>)
    requires
        0 <= i <= input.len(),
        i == 0 || input[i - 1] == '\n',
        source_pos(input, i) == crate::error::pos(n, 1, b),
        forall|k: int| 0 <= k < acc.len() ==> scanned_line(input, #[trigger] acc[k]),
        forall|k: int| 0 <= k < acc.len() ==> (#[trigger] acc[k]).line_number < n,
        rising_lines(acc),
    ensures
        scan_from(input, i, n, b, acc) matches Ok(ls) ==> (forall|k: int|
            0 <= k < ls.len() ==> scanned_line(input, #[trigger] ls[k])) && rising_lines(ls),
        scan_from(input, i, n, b, acc) matches Err(e) ==> at_source(input, e.position),
    decreases input.len() - i,
{
    let j = find_from(input, i, '\n');
    lemma_find_from(input, i, '\n');
    let raw = input.subrange(i, j);
    lemma_scan_line_source(input, i, n, b);
    if let Ok(found) = scan_line(strip_cr(raw), n, b) {
        let acc2 = match found {
            Some(l) => acc.push(l),
            None => acc,
        };
        assert forall|k: int| 0 <= k < acc2.len() implies scanned_line(input, #[trigger] acc2[k])
            && acc2[k].line_number < n + 1 by {
            if k < acc.len() {
                assert(acc2[k] == acc[k]);
            }
        }
        assert(rising_lines(acc2)) by {
            assert forall|x: int, y: int| 0 <= x < y < acc2.len() implies (#[trigger] acc2[x]).line_number
                < (#[trigger] acc2[y]).line_number by {
                if y < acc.len() {
                    assert(acc2[x] == acc[x] && acc2[y] == acc[y]);
                } else {
                    assert(acc2[x] == acc[x]);
                }
            }
        }
        if j < input.len() {
            crate::scanner::lemma_nl_no_break(input, i, j);
            assert(input.take(j + 1).drop_last() =~= input.take(j));
            crate::parser::flow::lemma_nl_bounds(input.take(i));
            crate::text::lemma_utf8_len_concat(input.take(i), raw);
            assert(input.take(i) + raw =~= input.take(j));
            crate::text::lemma_utf8_len_take_next(input, j);
            assert(source_pos(input, j + 1) == crate::error::pos(n + 1, 1, b + utf8_len(raw) + 1));
            lemma_scan_from_source(input, j + 1, n + 1, b + utf8_len(raw) + 1, acc2);
        }
    }
}

/// What the scanner gives: for every input, each scanned line has a
/// non-empty content starting with neither a space nor a tab and ending in no
/// whitespace, a start column one past its indentation, and a content cut
/// from the input at the line's own source position after `indent` spaces
/// that begin a source line; line numbers rise strictly; and a refusal is
/// reported at a source position of the input.
pub proof fn law_scanned_lines(input: Seq<char>)
    ensures
        scan(input) matches Ok(ls) ==> (forall|k: int|
            0 <= k < ls.len() ==> scanned_line(input, #[trigger] ls[k])) && rising_lines(ls),
        scan(input) matches Err(e) ==> at_source(input, e.position),
{
    assert(input.take(0) =~= Seq::<char>::empty());
    lemma_scan_from_source(input, 0, 1, 0, Seq::empty());
}


/// Every line of `ls` was cut from `input`.
pub open spec fn lines_from_source(input: Seq<char>, ls: Seq<LineModel>) -> bool {
    forall|k: int| 0 <= k < ls.len() ==> line_from_source(input, #[trigger] ls[k])
}

/// Flow text cut from a line's content at index `i` and placed at the
/// position of that index reports its errors at source positions.
proof fn lemma_flow_in_line_src(input: Seq<char>, line: LineModel, i: int, text: Seq<char>, c: int)
    requires
        line_from_source(input, line),
        0 <= i,
        i + text.len() <= line.content.len(),
        text == line.content.subrange(i, i + text.len()),
    ensures
        stops_at_source(input, flow_in_line(text, content_pos(line, i), c)),
        at_source(input, line_pos(line)),
{
    let content = line.content;
    let ci = choose|ci: int| cut_at(input, line, ci);
    lemma_source_step(input, ci, ci + i);
    assert(input.subrange(ci, ci + i) =~= content.take(i));
    assert(text =~= input.subrange(ci + i, ci + i + text.len()));
    assert forall|x: int| 0 <= x < text.len() implies text[x] != '\n' by {
        assert(text[x] == input[ci + i + x]);
    }
    assert(flow_text_at(input, ci + i, text, content_pos(line, i)));
    lemma_flow_value_src(input, ci + i, text, content_pos(line, i), 0);
    assert(at_source(input, source_pos(input, ci)));
}

proof fn lemma_node_src(input: Seq<char>, ls: Seq<LineModel>, c: int, min_indent: int)
    requires
        lines_from_source(input, ls),
    ensures
        stops_at_source(input, node_at(ls, c, min_indent)),
    decreases ls.len() - c, 2nat,
{
    reveal(node_at);
    reveal(sequence_items);
    reveal(mapping_entries);
    if 0 <= c < ls.len() {
        let line = ls[c];
        assert(line_from_source(input, ls[c]));
        lemma_items_src(input, ls, c, line.indent, Seq::empty());
        lemma_entries_src(input, ls, c, line.indent, Seq::empty());
        assert(line.content.subrange(0, line.content.len() as int) =~= line.content);
        assert(line.content.take(0) =~= Seq::<char>::empty());
        assert(content_pos(line, 0) == line_pos(line));
        lemma_flow_in_line_src(input, line, 0, line.content, c + 1);
    }
}

proof fn lemma_items_src(input: Seq<char>, ls: Seq<LineModel>, c: int, ind: int, items: Seq<Node>)
    requires
        lines_from_source(input, ls),
    ensures
        stops_at_source(input, sequence_items(ls, c, ind, items)),
    decreases ls.len() - c, 1nat,
{
    reveal(sequence_items);
    reveal(sequence_item);
    if 0 <= c < ls.len() {
        let line = ls[c];
        assert(line_from_source(input, ls[c]));
        assert(line.content.subrange(0, 0) =~= Seq::<char>::empty());
        lemma_flow_in_line_src(input, line, 0, Seq::empty(), c);
        lemma_item_src(input, ls, c + 1, line, ind);
        if let Ok((item, c2)) = sequence_item(ls, c + 1, line, ind) {
            if c < c2 <= ls.len() {
                lemma_items_src(input, ls, c2, ind, items.push(item));
            }
        }
    }
}

#[verifier::rlimit(60)]
proof fn lemma_item_src(input: Seq<char>, ls: Seq<LineModel>, c: int, line: LineModel, seq_indent: int)
    requires
        lines_from_source(input, ls),
        line_from_source(input, line),
        c <= ls.len(),
    ensures
        stops_at_source(input, sequence_item(ls, c, line, seq_indent)),
    decreases ls.len() - c, 3nat,
{
    reveal(sequence_item);
    reveal(node_at);
    reveal(mapping_entries_after);
    let content = line.content;
    let rest = after_dash(content);
    let rs = dash_rest_start(content);
    crate::parser::sequence::lemma_rest_in_content(content);
    if nested_or_empty(ls, c, seq_indent) {
        lemma_node_src(input, ls, c, ls[c].indent);
    }
    lemma_flow_in_line_src(input, line, rs, rest, c);
    if let Some((k, v)) = crate::parser::sequence::split_key_val(rest) {
        let vt = trim(v);
        crate::parser::sequence::lemma_value_in_text(rest);
        let base = content_pos(line, rs + value_start(k, v));
        if vt.len() > 0 {
            assert(vt =~= content.subrange(rs + value_start(k, v), rs + value_start(k, v) + vt.len()));
            lemma_flow_in_line_src(input, line, rs + value_start(k, v), vt, c);
        }
        let key = Node::Scalar(crate::parser::sequence::scalar_or_quoted(k));
        let value = if vt.len() == 0 {
            if nested_or_empty(ls, c, seq_indent) {
                node_at(ls, c, ls[c].indent)
            } else {
                Ok((crate::ast::empty_scalar(), c))
            }
        } else if starts_flow(vt) {
            flow_in_line(vt, base, c)
        } else {
            Ok((Node::Scalar(crate::parser::sequence::scalar_or_quoted(vt)), c))
        };
        if let Ok((v2, c2)) = value {
            if c <= c2 <= ls.len() {
                lemma_entries_after_src(input, ls, c2, seq_indent + 2, seq![Pair { key, value: v2 }]);
            }
        }
    }
}

proof fn lemma_entries_src(input: Seq<char>, ls: Seq<LineModel>, c: int, ind: int, entries: Seq<Pair>)
    requires
        lines_from_source(input, ls),
    ensures
        stops_at_source(input, mapping_entries(ls, c, ind, entries)),
    decreases ls.len() - c, 1nat,
{
    reveal(mapping_entries);
    reveal(mapping_entry);
    if 0 <= c < ls.len() {
        let line = ls[c];
        assert(line_from_source(input, ls[c]));
        assert(line.content.subrange(0, 0) =~= Seq::<char>::empty());
        lemma_flow_in_line_src(input, line, 0, Seq::empty(), c);
        if let Some((k, v)) = crate::parser::sequence::split_key_val(line.content) {
            lemma_entry_src(input, ls, c + 1, line, k, v, ind);
            if let Ok((p, c2)) = mapping_entry(ls, c + 1, line, k, v, ind) {
                if c < c2 <= ls.len() {
                    lemma_entries_src(input, ls, c2, ind, entries.push(p));
                }
            }
        }
    }
}

proof fn lemma_entries_after_src(
    input: Seq<char>,
    ls: Seq<LineModel>,
    c: int,
    ind: int,
    entries: Seq<Pair>,
)
    requires
        lines_from_source(input, ls),
    ensures
        stops_at_source(input, mapping_entries_after(ls, c, ind, entries)),
    decreases ls.len() - c, 1nat,
{
    reveal(mapping_entries_after);
    reveal(mapping_entry);
    if 0 <= c < ls.len() {
        let line = ls[c];
        assert(line_from_source(input, ls[c]));
        assert(line.content.subrange(0, 0) =~= Seq::<char>::empty());
        lemma_flow_in_line_src(input, line, 0, Seq::empty(), c);
        if let Some((k, v)) = crate::parser::sequence::split_key_val(line.content) {
            lemma_entry_src(input, ls, c + 1, line, k, v, line.indent);
            if let Ok((p, c2)) = mapping_entry(ls, c + 1, line, k, v, line.indent) {
                if c < c2 <= ls.len() {
                    lemma_entries_after_src(input, ls, c2, ind, entries.push(p));
                }
            }
        }
    }
}

proof fn lemma_entry_src(
    input: Seq<char>,
    ls: Seq<LineModel>,
    c: int,
    line: LineModel,
    k: Seq<char>,
    v: Seq<char>,
    map_indent: int,
)
    requires
        lines_from_source(input, ls),
        line_from_source(input, line),
        crate::parser::sequence::split_key_val(line.content) == Some((k, v)),
        c <= ls.len(),
    ensures
        stops_at_source(input, mapping_entry(ls, c, line, k, v, map_indent)),
    decreases ls.len() - c, 3nat,
{
    reveal(mapping_entry);
    reveal(node_at);
    if nested_or_empty(ls, c, map_indent) {
        lemma_node_src(input, ls, c, ls[c].indent);
    }
    let vt = trim(v);
    crate::parser::sequence::lemma_value_in_text(line.content);
    if vt.len() > 0 {
        lemma_flow_in_line_src(input, line, value_start(k, v), vt, c);
    }
}

/// Errors are reported at exact source positions: whatever error the parser
/// gives for an input, its line, column and byte offset are those of one
/// character of the input (or of its end), so the offset is at most the
/// input's length in bytes.
pub proof fn law_error_positions_exact(input: Seq<char>)
    ensures
        parse_document(input) matches Err(e) ==> at_source(input, e.position)
            && e.position.offset <= utf8_len(input),
{
    law_scanned_lines(input);
    if let Ok(ls) = scan(input) {
        assert forall|k: int| 0 <= k < ls.len() implies line_from_source(input, #[trigger] ls[k]) by {
            assert(scanned_line(input, ls[k]));
        }
        lemma_node_src(input, ls, 0, 0);
        lemma_node_src(input, ls, 1, 0);
    }
    if let Err(e) = parse_document(input) {
        let m = choose|m: int| 0 <= m <= input.len() && e.position == #[trigger] source_pos(input, m);
        crate::text::lemma_utf8_len_subrange(input, 0, m);
        assert(input.subrange(0, m) =~= input.take(m));
    }
}


// ==============================================================================
// Reading a scanner line by line
// ==============================================================================

/// Reading a scanner line by line: from a scanner at its first line (as
/// [`crate::Scanner::new`] makes it), the call of `next_line` after `k`
/// earlier calls hands out the `k`-th scanned line while there is one and
/// `None` after the last, leaving the input and lines as they were; once at
/// the end, further calls change nothing.
pub proof fn law_read_line_by_line(st: ScannerState, k: nat)
    requires
        st.cursor == 0,
    ensures
        read_steps(st, k).input == st.input,
        read_steps(st, k).lines == st.lines,
        read_steps(st, k).cursor == if k < st.lines.len() {
            k as int
        } else {
            st.lines.len() as int
        },
        read_step(read_steps(st, k)).0 == if k < st.lines.len() {
            Some(st.lines[k as int])
        } else {
            None::<LineModel>
        },
        k >= st.lines.len() ==> read_step(read_steps(st, k)).1 == read_steps(st, k),
    decreases k,
{
    if k > 0 {
        law_read_line_by_line(st, (k - 1) as nat);
    }
}

// ==============================================================================
// Comments, quotes and letter case
// ==============================================================================

/// Index `m` of `text` holds a `#` that opens a comment by its place: it is
/// first, or the character before it is whitespace.
pub open spec fn hash_after_space(text: Seq<char>, m: int) -> bool {
    &&& 0 <= m < text.len()
    &&& text[m] == '#'
    &&& (m == 0 || is_ws(text[m - 1]))
}

/// No quote character stands in `text` before index `m`.
pub open spec fn unquoted_before(text: Seq<char>, m: int) -> bool {
    forall|j: int| 0 <= j < m ==> text[j] != '\'' && text[j] != '"'
}

/// The previous-character state that a scan from `i` carries.
pub open spec fn prev_of(text: Seq<char>, i: int) -> Option<char> {
    if i == 0 {
        None
    } else {
        Some(text[i - 1])
    }
}

proof fn lemma_comment_cut_at_spaced_hash(
    text: Seq<char>,
    i: int,
    in_single: bool,
    in_double: bool,
)
    requires
        0 <= i <= text.len(),
    ensures
        comment_start(text, i, in_single, in_double, prev_of(text, i)) < text.len()
            ==> hash_after_space(
            text,
            comment_start(text, i, in_single, in_double, prev_of(text, i)),
        ),
    decreases text.len() - i,
{
    if i < text.len() {
        let ch = text[i];
        let prev = prev_of(text, i);
        assert(prev_of(text, i + 1) == Some(ch));
        if ch == '\'' && !in_double {
            lemma_comment_cut_at_spaced_hash(text, i + 1, !in_single, in_double);
        } else if ch == '"' && !in_single && prev != Some('\\') {
            lemma_comment_cut_at_spaced_hash(text, i + 1, in_single, !in_double);
        } else if ch == '#' && !in_single && !in_double && (i == 0 || (prev matches Some(p)
            && is_ws(p))) {
        } else {
            lemma_comment_cut_at_spaced_hash(text, i + 1, in_single, in_double);
        }
    }
}

proof fn lemma_comment_cut_no_later(text: Seq<char>, i: int, m: int)
    requires
        0 <= i <= m,
        hash_after_space(text, m),
        forall|j: int| i <= j < m ==> text[j] != '\'' && text[j] != '"',
    ensures
        comment_start(text, i, false, false, prev_of(text, i)) <= m,
    decreases m - i,
{
    let ch = text[i];
    assert(prev_of(text, i + 1) == Some(ch));
    if i < m {
        assert(ch != '\'' && ch != '"');
        if !(ch == '#' && (i == 0 || is_ws(text[i - 1]))) {
            lemma_comment_cut_no_later(text, i + 1, m);
        }
    }
}

/// Inline comments: what the scanner keeps of a line is a prefix of it, cut
/// only at a `#` that is first or follows whitespace, and cut at the first
/// such `#` when no quote comes before it. So a `#` that directly follows a
/// non-whitespace character (as in `http://host/page#part`) never starts a
/// comment, and a line without a `#` after whitespace is kept whole.
pub proof fn law_comment_starts_after_space(text: Seq<char>)
    ensures
        strip_comment(text).len() <= text.len(),
        strip_comment(text) == text.take(strip_comment(text).len() as int),
        strip_comment(text).len() < text.len() ==> hash_after_space(
            text,
            strip_comment(text).len() as int,
        ),
        forall|m: int|
            #[trigger] hash_after_space(text, m) && unquoted_before(text, m) ==> strip_comment(
                text,
            ).len() <= m,
        (forall|m: int| !#[trigger] hash_after_space(text, m)) ==> strip_comment(text) == text,
{
    crate::scanner::lemma_comment_start(text, 0, false, false, None);
    lemma_comment_cut_at_spaced_hash(text, 0, false, false);
    let k = comment_start(text, 0, false, false, None);
    assert(prev_of(text, 0) == None::<char>);
    assert(strip_comment(text).len() == k);
    assert forall|m: int| #[trigger]
        hash_after_space(text, m) && unquoted_before(text, m) implies k <= m by {
        lemma_comment_cut_no_later(text, 0, m);
    }
    if forall|m: int| !#[trigger] hash_after_space(text, m) {
        if k < text.len() {
            assert(hash_after_space(text, k));
        }
        assert(text.take(text.len() as int) =~= text);
    }
}

/// Scanning index `m` of `text` in quoting state (`in_single`, `in_double`)
/// neither opens nor closes a quote nor starts a comment.
spec fn quiet_at(text: Seq<char>, m: int, in_single: bool, in_double: bool) -> bool {
    let ch = text[m];
    &&& !(ch == '\'' && !in_double)
    &&& !(ch == '"' && !in_single && prev_of(text, m) != Some('\\'))
    &&& !(ch == '#' && !in_single && !in_double && (m == 0 || is_ws(text[m - 1])))
}

proof fn lemma_comment_start_quiet(text: Seq<char>, i: int, e: int, s: bool, d: bool)
    requires
        0 <= i <= e <= text.len(),
        forall|m: int| i <= m < e ==> #[trigger] quiet_at(text, m, s, d),
    ensures
        comment_start(text, i, s, d, prev_of(text, i)) == comment_start(
            text,
            e,
            s,
            d,
            prev_of(text, e),
        ),
    decreases e - i,
{
    if i < e {
        assert(quiet_at(text, i, s, d));
        assert(prev_of(text, i + 1) == Some(text[i]));
        lemma_comment_start_quiet(text, i + 1, e, s, d);
    }
}

/// `a` may stand before a part quoted with `qc`: it holds no quote and no
/// `#` that would open a comment, and before a double quote it does not end
/// in a backslash (which would escape that quote).
pub open spec fn plain_lead(a: Seq<char>, qc: char) -> bool {
    &&& forall|m: int|
        0 <= m < a.len() ==> #[trigger] a[m] != '\'' && a[m] != '"' && !(a[m] == '#' && (m
            == 0 || is_ws(a[m - 1])))
    &&& (qc == '"' && a.len() > 0 ==> a.last() != '\\')
}

/// `q` may stand between a pair of quotes `qc`: between single quotes it
/// holds no single quote; between double quotes each double quote in it is
/// escaped by a backslash, and it does not end in a backslash.
pub open spec fn quoted_part(q: Seq<char>, qc: char) -> bool {
    &&& qc == '\'' ==> forall|m: int| 0 <= m < q.len() ==> #[trigger] q[m] != '\''
    &&& qc == '"' ==> (forall|m: int|
        0 <= m < q.len() && #[trigger] q[m] == '"' ==> m > 0 && q[m - 1] == '\\') && (q.len() > 0
        ==> q.last() != '\\')
}

/// The line `a`, then `q` enclosed in a pair of quotes `qc`, then `c`.
pub open spec fn quoted_line(a: Seq<char>, qc: char, q: Seq<char>, c: Seq<char>) -> Seq<char> {
    a + seq![qc] + q + seq![qc] + c
}

/// No comment starts inside quotes: in a line made of a lead without quotes
/// or comment, then a part enclosed in single or double quotes (escaped
/// double quotes included), then anything, what the scanner keeps reaches at
/// least past the closing quote, whatever `#` the quoted part holds; and
/// after the closing quote a comment starts again at the first `#` that
/// follows whitespace, when no quote comes before it.
pub proof fn law_comment_not_inside_quotes(a: Seq<char>, qc: char, q: Seq<char>, c: Seq<char>)
    requires
        qc == '\'' || qc == '"',
        plain_lead(a, qc),
        quoted_part(q, qc),
    ensures
        strip_comment(quoted_line(a, qc, q, c)).len() >= a.len() + q.len() + 2,
        forall|m: int|
            #[trigger] hash_after_space(quoted_line(a, qc, q, c), m) && a.len() + q.len() + 2 <= m
                && (forall|j: int|
                a.len() + q.len() + 2 <= j < m ==> quoted_line(a, qc, q, c)[j] != '\''
                    && quoted_line(a, qc, q, c)[j] != '"') ==> strip_comment(
                quoted_line(a, qc, q, c),
            ).len() <= m,
{
    let text = quoted_line(a, qc, q, c);
    let n = a.len() as int;
    let e = n + 1 + q.len();
    assert(text[n] == qc);
    assert(text[e] == qc);
    assert forall|m: int| 0 <= m < n implies #[trigger] quiet_at(text, m, false, false) by {
        assert(text[m] == a[m]);
        if m > 0 {
            assert(text[m - 1] == a[m - 1]);
        }
    }
    lemma_comment_start_quiet(text, 0, n, false, false);
    assert(prev_of(text, 0) == None::<char>);
    if n > 0 {
        assert(text[n - 1] == a.last());
    }
    assert(prev_of(text, n + 1) == Some(qc));
    let s = qc == '\'';
    let d = qc == '"';
    assert forall|m: int| n + 1 <= m < e implies #[trigger] quiet_at(text, m, s, d) by {
        assert(text[m] == q[m - n - 1]);
        if text[m] == '"' && d {
            assert(text[m - 1] == q[m - n - 2]);
        }
    }
    lemma_comment_start_quiet(text, n + 1, e, s, d);
    if q.len() > 0 {
        assert(text[e - 1] == q.last());
    }
    assert(prev_of(text, e + 1) == Some(qc));
    crate::scanner::lemma_comment_start(text, e + 1, false, false, Some(qc));
    crate::scanner::lemma_comment_start(text, 0, false, false, None);
    assert(comment_start(text, n, false, false, prev_of(text, n)) == comment_start(
        text,
        n + 1,
        s,
        d,
        Some(qc),
    ));
    assert(comment_start(text, e, s, d, prev_of(text, e)) == comment_start(
        text,
        e + 1,
        false,
        false,
        Some(qc),
    ));
    assert(strip_comment(text).len() == comment_start(text, 0, false, false, None));
    assert forall|m: int|
        #[trigger] hash_after_space(text, m) && e + 1 <= m && (forall|j: int|
            e + 1 <= j < m ==> text[j] != '\'' && text[j] != '"') implies strip_comment(
        text,
    ).len() <= m by {
        lemma_comment_cut_no_later(text, e + 1, m);
    }
}

proof fn lemma_skip_ws_to(s: Seq<char>, i: int, e: int)
    requires
        0 <= i <= e < s.len(),
        forall|k: int| i <= k < e ==> is_ws(#[trigger] s[k]),
        !is_ws(s[e]),
    ensures
        skip_ws_from(s, i) == e,
    decreases e - i,
{
    if i < e {
        lemma_skip_ws_to(s, i + 1, e);
    }
}

proof fn lemma_back_ws_to(s: Seq<char>, j: int, e: int)
    requires
        0 < e <= j <= s.len(),
        forall|k: int| e <= k < j ==> is_ws(#[trigger] s[k]),
        !is_ws(s[e - 1]),
    ensures
        back_ws_from(s, j) == e,
    decreases j - e,
{
    if e < j {
        lemma_back_ws_to(s, j - 1, e);
    }
}

/// Quoted scalars: a text enclosed in a matching pair of single or double
/// quotes, with any whitespace around the pair, stands for exactly what lies
/// between the quotes, the empty text included (`""` and `''` are the empty
/// scalar).
pub proof fn law_quoted_scalar_is_its_content(
    q: char,
    t: Seq<char>,
    lead: Seq<char>,
    trail: Seq<char>,
)
    requires
        q == '\'' || q == '"',
        forall|k: int| 0 <= k < lead.len() ==> is_ws(#[trigger] lead[k]),
        forall|k: int| 0 <= k < trail.len() ==> is_ws(#[trigger] trail[k]),
    ensures
        scalar_or_quoted(lead + seq![q] + t + seq![q] + trail) == t,
{
    let quoted = seq![q] + t + seq![q];
    let x = lead + seq![q] + t + seq![q] + trail;
    assert(x =~= lead + quoted + trail);
    let n = lead.len() as int;
    let m = n + quoted.len();
    assert(!is_ws(q));
    assert(x[n] == q);
    assert(x[m - 1] == q);
    assert forall|k: int| 0 <= k < n implies is_ws(#[trigger] x[k]) by {
        assert(x[k] == lead[k]);
    }
    assert forall|k: int| m <= k < x.len() implies is_ws(#[trigger] x[k]) by {
        assert(x[k] == trail[k - m]);
    }
    lemma_skip_ws_to(x, 0, n);
    lemma_back_ws_to(x, x.len() as int, m);
    assert(trim(x) =~= quoted);
    assert(quoted[0] == q && quoted.last() == q);
    assert(quoted.subrange(1, quoted.len() - 1) =~= t);
}

/// Two letters that are the same but for ASCII case.
pub open spec fn same_but_case(x: char, y: char) -> bool {
    ||| x == y
    ||| ('A' <= x <= 'Z' && y as u32 == x as u32 + 32)
    ||| ('A' <= y <= 'Z' && x as u32 == y as u32 + 32)
}

/// `a` and `b` spell the same text but for the ASCII case of their letters.
pub open spec fn case_variant(a: Seq<char>, b: Seq<char>) -> bool {
    &&& a.len() == b.len()
    &&& forall|i: int| 0 <= i < a.len() ==> same_but_case(#[trigger] a[i], b[i])
}

proof fn lemma_lower_same_but_case(x: char, y: char)
    requires
        same_but_case(x, y),
    ensures
        ascii_lower(x) == ascii_lower(y),
        is_ws(x) == is_ws(y),
{
}

/// ASCII lowering forgets case: every uppercase letter `A`..`Z` is lowered to
/// the letter 32 code points above it, so texts that differ only in the
/// ASCII case of their letters lower to the same text.
pub proof fn law_lower_ignores_case(a: Seq<char>, b: Seq<char>)
    requires
        case_variant(a, b),
    ensures
        lower(a) == lower(b),
{
    assert forall|i: int| 0 <= i < a.len() implies #[trigger] lower(a)[i] == lower(b)[i] by {
        lemma_lower_same_but_case(a[i], b[i]);
    }
    assert(lower(a) =~= lower(b));
}

/// ASCII lowering changes the uppercase ASCII letters and nothing else: it
/// keeps the length, lowers each of `A`..`Z` to the letter 32 code points
/// above it, and keeps every other character.
pub proof fn law_lower_changes_only_uppercase(a: Seq<char>)
    ensures
        lower(a).len() == a.len(),
        forall|i: int|
            0 <= i < a.len() && 'A' <= #[trigger] a[i] <= 'Z' ==> lower(a)[i] as u32 == a[i] as u32
                + 32 && 'a' <= lower(a)[i] <= 'z',
        forall|i: int| 0 <= i < a.len() && !('A' <= #[trigger] a[i] <= 'Z') ==> lower(a)[i] == a[i],
{
}

/// Trimming removes the whitespace around a text and nothing else: the
/// result is a piece of the text with only whitespace before and after it,
/// it neither starts nor ends with whitespace, and it is empty exactly when
/// the text is all whitespace.
pub proof fn law_trim_strips_whitespace(s: Seq<char>)
    ensures
        trim(s).len() == 0 <==> (forall|k: int| 0 <= k < s.len() ==> is_ws(#[trigger] s[k])),
        trim(s).len() > 0 ==> !is_ws(trim(s)[0]) && !is_ws(trim(s).last()),
        exists|lo: int|
            0 <= lo <= s.len() - trim(s).len() && #[trigger] s.subrange(lo, lo + trim(s).len())
                == trim(s) && (forall|k: int| 0 <= k < lo ==> is_ws(#[trigger] s[k])) && (forall|
                k: int,
            |
                lo + trim(s).len() <= k < s.len() ==> is_ws(#[trigger] s[k])),
{
    crate::text::lemma_trim_bounds(s);
    lemma_skip_ws_from(s, 0);
    lemma_back_ws_from(s, s.len() as int);
    let lo = crate::text::trim_lo(s);
    let hi = crate::text::trim_hi(s);
    let t = trim(s);
    assert(s.subrange(lo, lo + t.len()) == t);
    if t.len() == 0 {
        assert forall|k: int| 0 <= k < s.len() implies is_ws(#[trigger] s[k]) by {
            if k >= lo {
                assert(back_ws_from(s, s.len() as int) <= lo);
            }
        }
    } else {
        assert(t[0] == s[lo]);
        assert(t.last() == s[hi - 1]);
    }
    if forall|k: int| 0 <= k < s.len() ==> is_ws(#[trigger] s[k]) {
        if lo < s.len() {
            assert(is_ws(s[lo]));
        }
    }
}

/// A text that is not enclosed in a matching pair of quotes stands for
/// itself, trimmed: only a matching pair of quotes is taken off.
pub proof fn law_unquoted_scalar_is_trimmed(x: Seq<char>)
    requires
        !(trim(x).len() >= 2 && (trim(x)[0] == '\'' || trim(x)[0] == '"') && trim(x).last()
            == trim(x)[0]),
    ensures
        scalar_or_quoted(x) == trim(x),
{
}

proof fn lemma_skip_ws_case(a: Seq<char>, b: Seq<char>, i: int)
    requires
        case_variant(a, b),
        0 <= i <= a.len(),
    ensures
        skip_ws_from(a, i) == skip_ws_from(b, i),
    decreases a.len() - i,
{
    if i < a.len() {
        lemma_lower_same_but_case(a[i], b[i]);
        lemma_skip_ws_case(a, b, i + 1);
    }
}

proof fn lemma_back_ws_case(a: Seq<char>, b: Seq<char>, j: int)
    requires
        case_variant(a, b),
        0 <= j <= a.len(),
    ensures
        back_ws_from(a, j) == back_ws_from(b, j),
    decreases j,
{
    if j > 0 {
        lemma_lower_same_but_case(a[j - 1], b[j - 1]);
        lemma_back_ws_case(a, b, j - 1);
    }
}

/// Boolean conversion ignores ASCII case: a scalar that differs from another
/// only in the case of its letters is trimmed and lowered to the same word,
/// so [`crate::Yaml::to_bool`] gives the same answer for both (`Yes`, `YES`
/// and `yes` all read as true).
pub proof fn law_to_bool_ignores_case(a: Seq<char>, b: Seq<char>)
    requires
        case_variant(a, b),
    ensures
        lower(trim(a)) == lower(trim(b)),
        bool_word(lower(trim(a))) == bool_word(lower(trim(b))),
{
    lemma_skip_ws_case(a, b, 0);
    lemma_back_ws_case(a, b, a.len() as int);
    crate::text::lemma_trim_bounds(a);
    let ta = trim(a);
    let tb = trim(b);
    assert(case_variant(ta, tb)) by {
        assert forall|i: int| 0 <= i < ta.len() implies same_but_case(#[trigger] ta[i], tb[i]) by {
            assert(ta[i] == a[i + crate::text::trim_lo(a)]);
            assert(tb[i] == b[i + crate::text::trim_lo(a)]);
        }
    }
    law_lower_ignores_case(ta, tb);
}

// ==============================================================================
// Keys and values
// ==============================================================================

/// Index `m` of `text` holds a `:` that may separate a key from its value:
/// it is followed by a space, a tab or the end of the text.
pub open spec fn key_separator(text: Seq<char>, m: int) -> bool {
    &&& 0 <= m < text.len()
    &&& text[m] == ':'
    &&& (m + 1 == text.len() || text[m + 1] == ' ' || text[m + 1] == '\t')
}

proof fn lemma_key_colon_is_separator(
    text: Seq<char>,
    i: int,
    in_single: bool,
    in_double: bool,
    prev: Option<char>,
)
    requires
        0 <= i,
    ensures
        crate::parser::sequence::key_colon(text, i, in_single, in_double, prev) == -1
            || key_separator(text, crate::parser::sequence::key_colon(text, i, in_single, in_double, prev)),
    decreases text.len() - i,
{
    if i < text.len() {
        let ch = text[i];
        if ch == '\'' && !in_double {
            lemma_key_colon_is_separator(text, i + 1, !in_single, in_double, Some(ch));
        } else if ch == '"' && !in_single && prev != Some('\\') {
            lemma_key_colon_is_separator(text, i + 1, in_single, !in_double, Some(ch));
        } else if ch == ':' && !in_single && !in_double && (i + 1 == text.len() || text[i + 1]
            == ' ' || text[i + 1] == '\t') {
        } else {
            lemma_key_colon_is_separator(text, i + 1, in_single, in_double, Some(ch));
        }
    }
}

proof fn lemma_key_colon_no_later(text: Seq<char>, i: int, m: int, prev: Option<char>)
    requires
        0 <= i <= m,
        key_separator(text, m),
        forall|j: int| i <= j < m ==> text[j] != '\'' && text[j] != '"',
    ensures
        0 <= crate::parser::sequence::key_colon(text, i, false, false, prev) <= m,
    decreases m - i,
{
    let ch = text[i];
    if i < m {
        if !(ch == ':' && (i + 1 == text.len() || text[i + 1] == ' ' || text[i + 1] == '\t')) {
            lemma_key_colon_no_later(text, i + 1, m, Some(ch));
        }
    }
}

/// Splitting `key: value`: a line is split at a `:` followed by a space, a
/// tab or the end, into the text before it and the text after the one blank
/// that follows it; at the first such `:` when no quote comes before it; and
/// a line without such a `:` is not split. So `a:b: c` splits into `a:b` and
/// `c`, and `url: http://host` into `url` and `http://host`.
pub proof fn law_key_value_split(text: Seq<char>)
    ensures
        split_key_val(text) matches Some((k, v)) ==> key_separator(text, k.len() as int) && k
            == text.take(k.len() as int) && v == (if k.len() + 1 == text.len() {
            Seq::<char>::empty()
        } else {
            text.skip(k.len() as int + 2)
        }),
        forall|m: int|
            #[trigger] key_separator(text, m) && unquoted_before(text, m) ==> (split_key_val(text)
                matches Some((k, _)) && k.len() <= m),
        (forall|m: int| !#[trigger] key_separator(text, m)) ==> split_key_val(text) is None,
{
    crate::parser::sequence::lemma_key_colon(text, 0, false, false, None);
    lemma_key_colon_is_separator(text, 0, false, false, None);
    let i = crate::parser::sequence::key_colon(text, 0, false, false, None);
    if i >= 0 {
        assert(text.subrange(i + 2, text.len() as int) =~= text.skip(i + 2)) by {
            if i + 1 < text.len() {
            }
        }
    }
    assert forall|m: int| #[trigger]
        key_separator(text, m) && unquoted_before(text, m) implies (split_key_val(text) matches Some(
        (k, _),
    ) && k.len() <= m) by {
        lemma_key_colon_no_later(text, 0, m, None);
    }
    if forall|m: int| !#[trigger] key_separator(text, m) {
        if i >= 0 {
            assert(key_separator(text, i));
        }
    }
}

// ==============================================================================
// Plain scalars inside flow collections
// ==============================================================================

/// A character that ends an entry of a flow collection.
pub open spec fn flow_indicator(c: char) -> bool {
    c == ',' || c == ']' || c == '}'
}

/// A character that ends a line.
pub open spec fn line_break(c: char) -> bool {
    c == '\n' || c == '\r'
}

/// Index `m` of `t` ends a plain scalar inside a flow collection: it holds a
/// flow indicator or a line break, or a `:` that is last or followed by
/// whitespace or a flow indicator.
pub open spec fn ends_plain(t: Seq<char>, m: int) -> bool {
    &&& 0 <= m < t.len()
    &&& {
        ||| flow_indicator(t[m])
        ||| line_break(t[m])
        ||| (t[m] == ':' && (m + 1 == t.len() || is_ws(t[m + 1]) || flow_indicator(t[m + 1])))
    }
}

/// Plain scalars in flow collections: the scalar that starts at `i` runs to
/// the first index that ends it, or to the end of the text. In particular a
/// `:` followed by anything but whitespace or a flow indicator (as in
/// `http://host`) belongs to the scalar.
pub proof fn law_plain_flow_scalar_end(t: Seq<char>, i: int)
    requires
        0 <= i <= t.len(),
    ensures
        i <= plain_end(t, i) <= t.len(),
        forall|m: int| i <= m < plain_end(t, i) ==> !#[trigger] ends_plain(t, m),
        plain_end(t, i) < t.len() ==> ends_plain(t, plain_end(t, i)),
    decreases t.len() - i,
{
    if i < t.len() {
        law_plain_flow_scalar_end(t, i + 1);
    }
}

/// Index `m` of `t` ends a plain key inside a flow mapping: it holds a `:`,
/// a `,`, a `}` or a line break.
pub open spec fn ends_plain_key(t: Seq<char>, m: int) -> bool {
    &&& 0 <= m < t.len()
    &&& (t[m] == ':' || t[m] == ',' || t[m] == '}' || line_break(t[m]))
}

/// Plain keys in flow mappings: the key that starts at `i` runs to the first
/// `:`, `,`, `}` or line break, or to the end of the text.
pub proof fn law_plain_flow_key_end(t: Seq<char>, i: int)
    requires
        0 <= i <= t.len(),
    ensures
        i <= key_end(t, i) <= t.len(),
        forall|m: int| i <= m < key_end(t, i) ==> !#[trigger] ends_plain_key(t, m),
        key_end(t, i) < t.len() ==> ends_plain_key(t, key_end(t, i)),
    decreases t.len() - i,
{
    if i < t.len() {
        law_plain_flow_key_end(t, i + 1);
    }
}

/// Number of backslashes that stand right before index `j` of `t`, at or after `i`.
pub open spec fn backslashes_before(t: Seq<char>, i: int, j: int) -> nat
    decreases j - i,
{
    if i < j && t[j - 1] == '\\' {
        1 + backslashes_before(t, i, j - 1)
    } else {
        0
    }
}

/// Index `j` of `t` holds a `"` that closes a double-quoted scalar whose
/// content starts at `i`: an even number of backslashes stands right before it.
pub open spec fn closes_double_quoted(t: Seq<char>, i: int, j: int) -> bool {
    &&& i <= j < t.len()
    &&& t[j] == '"'
    &&& backslashes_before(t, i, j) % 2 == 0
}

proof fn lemma_dq_scan(t: Seq<char>, i: int, p: int, escaped: bool)
    requires
        0 <= i <= p <= t.len(),
        escaped == (backslashes_before(t, i, p) % 2 == 1),
        forall|m: int| i <= m < p ==> !#[trigger] closes_double_quoted(t, i, m),
    ensures
        p <= dq_end(t, p, escaped) <= t.len(),
        forall|m: int| i <= m < dq_end(t, p, escaped) ==> !#[trigger] closes_double_quoted(t, i, m),
        dq_end(t, p, escaped) < t.len() ==> closes_double_quoted(t, i, dq_end(t, p, escaped)),
    decreases t.len() - p,
{
    if p < t.len() {
        let c = t[p];
        assert(backslashes_before(t, i, p + 1) == if c == '\\' {
            1 + backslashes_before(t, i, p)
        } else {
            0
        });
        if escaped {
            lemma_dq_scan(t, i, p + 1, false);
        } else if c == '\\' {
            lemma_dq_scan(t, i, p + 1, true);
        } else if c == '"' {
        } else {
            lemma_dq_scan(t, i, p + 1, false);
        }
    }
}

/// Double-quoted scalars in flow collections: the content that starts at
/// `i` runs to the first `"` with an even number of backslashes right before
/// it (a backslash escapes the character after it, a backslash included), or
/// to the end of the text when there is none. So `"a\"b"` holds `a\"b` and
/// `"a\\"` holds `a\\`.
pub proof fn law_double_quoted_end(t: Seq<char>, i: int)
    requires
        0 <= i <= t.len(),
    ensures
        i <= dq_end(t, i, false) <= t.len(),
        forall|m: int| i <= m < dq_end(t, i, false) ==> !#[trigger] closes_double_quoted(t, i, m),
        dq_end(t, i, false) < t.len() ==> closes_double_quoted(t, i, dq_end(t, i, false)),
{
    assert(backslashes_before(t, i, i) == 0);
    lemma_dq_scan(t, i, i, false);
}

/// `s` is the text of one plain scalar as it may stand in a flow sequence:
/// no flow indicator or line break in it, every `:` followed by a character
/// that is not whitespace, and its first non-whitespace character opens
/// neither a collection, a quoted scalar nor a comment.
pub open spec fn plain_in_flow(s: Seq<char>) -> bool {
    &&& forall|m: int| 0 <= m < s.len() ==> !flow_indicator(#[trigger] s[m]) && !line_break(s[m])
    &&& forall|m: int| 0 <= m < s.len() && #[trigger] s[m] == ':' ==> m + 1 < s.len() && !is_ws(s[m + 1])
    &&& skip_ws_from(s, 0) < s.len()
    &&& {
        let f = s[skip_ws_from(s, 0)];
        f != '[' && f != '{' && f != '\'' && f != '"' && f != '#'
    }
}

proof fn lemma_skip_blank_over_ws(t: Seq<char>, i: int, e: int)
    requires
        0 <= i <= e < t.len(),
        forall|k: int| i <= k < e ==> is_ws(#[trigger] t[k]),
        !is_ws(t[e]),
        t[e] != '#',
    ensures
        skip_blank(t, i) == e,
    decreases e - i,
{
    if i < e {
        lemma_skip_blank_over_ws(t, i + 1, e);
    }
}

proof fn lemma_trim_after_ws(s: Seq<char>, j: int, p: int)
    requires
        0 <= j < p <= s.len(),
        !is_ws(s[j]),
    ensures
        back_ws_from(s.subrange(j, s.len() as int), p - j) == back_ws_from(s, p) - j,
        back_ws_from(s, p) > j,
    decreases p,
{
    let u = s.subrange(j, s.len() as int);
    assert(u[p - j - 1] == s[p - 1]);
    if is_ws(s[p - 1]) {
        lemma_trim_after_ws(s, j, p - 1);
    }
}

/// The texts `xs` written one after another with a `,` between each two.
pub open spec fn joined_by_commas(xs: Seq<Seq<char>>) -> Seq<char>
    decreases xs.len(),
{
    if xs.len() == 0 {
        Seq::empty()
    } else if xs.len() == 1 {
        xs[0]
    } else {
        xs[0] + seq![','] + joined_by_commas(xs.drop_first())
    }
}

/// The scalars that the plain texts `xs` stand for: each trimmed.
pub open spec fn plain_nodes(xs: Seq<Seq<char>>) -> Seq<Node> {
    Seq::new(xs.len(), |i: int| Node::Scalar(trim(xs[i])))
}

/// The plain scalar `s` whose text starts at index `k0` of `t` and is
/// followed by a flow indicator is read, from any `k` in its leading
/// whitespace, as `s` trimmed, up to that indicator.
proof fn lemma_plain_item_at(t: Seq<char>, b: Pos, k0: int, k: int, s: Seq<char>)
    requires
        plain_in_flow(s),
        0 <= k0 <= k <= k0 + skip_ws_from(s, 0),
        k0 + s.len() < t.len(),
        forall|m: int| 0 <= m < s.len() ==> t[k0 + m] == #[trigger] s[m],
        flow_indicator(t[k0 + s.len()]),
    ensures
        skip_blank(t, k) == k0 + skip_ws_from(s, 0),
        skip_ws_from(s, 0) < s.len(),
        t[k0 + skip_ws_from(s, 0)] == s[skip_ws_from(s, 0)],
        !flow_indicator(s[skip_ws_from(s, 0)]),
        flow_value(t, b, k0 + skip_ws_from(s, 0)) matches Ok((x, e)) && x == Node::Scalar(trim(s))
            && e == k0 + s.len(),
        skip_blank(t, k0 + s.len()) == k0 + s.len(),
{
    let n = s.len() as int;
    let j = skip_ws_from(s, 0);
    lemma_skip_ws_from(s, 0);
    assert(t[k0 + j] == s[j]);
    assert forall|m: int| k <= m < k0 + j implies is_ws(#[trigger] t[m]) by {
        assert(t[k0 + (m - k0)] == s[m - k0]);
    }
    lemma_skip_blank_over_ws(t, k, k0 + j);
    lemma_skip_blank_over_ws(t, k0 + j, k0 + j);
    assert forall|m: int| k0 + j <= m < k0 + n implies !#[trigger] ends_plain(t, m) by {
        assert(t[k0 + (m - k0)] == s[m - k0]);
        if t[m] == ':' {
            assert(t[k0 + (m - k0 + 1)] == s[m - k0 + 1]);
        }
    }
    assert(ends_plain(t, k0 + n));
    law_plain_flow_scalar_end(t, k0 + j);
    let e = plain_end(t, k0 + j);
    if e < k0 + n {
        assert(ends_plain(t, e));
        assert(false);
    }
    assert(t.subrange(k0 + j, k0 + n) =~= s.subrange(j, n));
    let u = s.subrange(j, n);
    lemma_skip_ws_to(u, 0, 0);
    lemma_trim_after_ws(s, j, n);
    lemma_back_ws_from(s, n);
    assert(trim(u) =~= trim(s));
    assert(trim(s).len() > 0);
    let item: Parsed = Ok((Node::Scalar(trim(s)), k0 + n));
    assert(crate::parser::flow::flow_plain_scalar(t, b, k0 + j) == item);
    lemma_skip_blank_over_ws(t, k0 + n, k0 + n);
}

/// `joined_by_commas` of two or more texts begins with the first, then a comma.
proof fn lemma_joined_first(xs: Seq<Seq<char>>)
    requires
        xs.len() >= 1,
    ensures
        joined_by_commas(xs).len() >= xs[0].len(),
        forall|m: int| 0 <= m < xs[0].len() ==> joined_by_commas(xs)[m] == #[trigger] xs[0][m],
        xs.len() == 1 ==> joined_by_commas(xs) == xs[0],
        xs.len() > 1 ==> joined_by_commas(xs) == xs[0] + seq![','] + joined_by_commas(
            xs.drop_first(),
        ),
{
}

proof fn lemma_plain_items(
    t: Seq<char>,
    b: Pos,
    k0: int,
    k: int,
    items: Seq<Node>,
    start: Pos,
    xs: Seq<Seq<char>>,
)
    requires
        xs.len() >= 1,
        forall|i: int| 0 <= i < xs.len() ==> plain_in_flow(#[trigger] xs[i]),
        0 < k0 <= k <= k0 + skip_ws_from(xs[0], 0),
        k0 <= t.len(),
        t.subrange(k0, t.len() as int) == joined_by_commas(xs) + seq![']'],
    ensures
        flow_sequence_items(t, b, k, items, start) matches Ok((x, e)) && x == Node::Sequence(
            items + plain_nodes(xs),
        ) && e == t.len(),
    decreases xs.len(),
{
    let s = xs[0];
    let n = s.len() as int;
    let w = joined_by_commas(xs) + seq![']'];
    assert(plain_in_flow(s));
    lemma_joined_first(xs);
    assert forall|m: int| 0 <= m < w.len() implies t[k0 + m] == #[trigger] w[m] by {
        assert(t.subrange(k0, t.len() as int)[m] == t[k0 + m]);
    }
    assert forall|m: int| 0 <= m < n implies t[k0 + m] == #[trigger] s[m] by {
        assert(w[m] == s[m]);
    }
    let items2 = items.push(Node::Scalar(trim(s)));
    let j = skip_ws_from(s, 0);
    if xs.len() == 1 {
        assert(joined_by_commas(xs) == s);
        assert(w.len() == n + 1);
        assert(t.subrange(k0, t.len() as int).len() == t.len() - k0);
        assert(w[n] == ']');
        lemma_plain_item_at(t, b, k0, k, s);
        assert(k0 + n + 1 == t.len());
        assert(peek_at(t, k0 + j) == Some(s[j]));
        assert(peek_at(t, k0 + n) == Some(']'));
        assert(items + plain_nodes(xs) =~= items2);
    } else {
        let rest = xs.drop_first();
        assert(w =~= s + seq![','] + (joined_by_commas(rest) + seq![']']));
        assert(w[n] == ',');
        lemma_plain_item_at(t, b, k0, k, s);
        let r0 = k0 + n + 1;
        assert(t.subrange(r0, t.len() as int) =~= joined_by_commas(rest) + seq![']']) by {
            assert forall|m: int| 0 <= m < t.len() - r0 implies t.subrange(r0, t.len() as int)[m]
                == (joined_by_commas(rest) + seq![']'])[m] by {
                assert(w[n + 1 + m] == t[k0 + (n + 1 + m)]);
            }
        }
        assert forall|i: int| 0 <= i < rest.len() implies plain_in_flow(#[trigger] rest[i]) by {
            assert(rest[i] == xs[i + 1]);
        }
        let s2 = rest[0];
        assert(plain_in_flow(s2));
        lemma_joined_first(rest);
        lemma_skip_ws_from(s2, 0);
        let j2 = skip_ws_from(s2, 0);
        let w2 = joined_by_commas(rest) + seq![']'];
        assert forall|m: int| 0 <= m < s2.len() implies t[r0 + m] == #[trigger] s2[m] by {
            assert(t.subrange(r0, t.len() as int)[m] == t[r0 + m]);
            assert(w2[m] == s2[m]);
        }
        assert(t[r0 + j2] == s2[j2]);
        assert forall|m: int| r0 <= m < r0 + j2 implies is_ws(#[trigger] t[m]) by {
            assert(t[r0 + (m - r0)] == s2[m - r0]);
        }
        lemma_skip_blank_over_ws(t, r0, r0 + j2);
        assert(peek_at(t, k0 + j) == Some(s[j]));
        assert(peek_at(t, k0 + n) == Some(','));
        assert(peek_at(t, r0 + j2) == Some(s2[j2]));
        lemma_plain_items(t, b, r0, r0 + j2, items2, start, rest);
        assert(items + plain_nodes(xs) =~= items2 + plain_nodes(rest));
    }
}

/// Flow sequences of plain scalars: for every list `xs` of one or more texts
/// of plain scalars (see [`plain_in_flow`]), `[` followed by `xs` separated
/// by commas and `]` is the sequence of those texts, each trimmed. So
/// `[a:b, c]` holds `a:b` and `c`, and `[http://a.example, http://b.example]`
/// holds the two URLs.
pub proof fn law_flow_sequence_of_plain_scalars(xs: Seq<Seq<char>>, b: Pos)
    requires
        xs.len() >= 1,
        forall|i: int| 0 <= i < xs.len() ==> plain_in_flow(#[trigger] xs[i]),
    ensures
        flow_sequence(seq!['['] + joined_by_commas(xs) + seq![']'], b, 0) matches Ok((n, e))
            && n == Node::Sequence(plain_nodes(xs)) && e == joined_by_commas(xs).len() + 2,
{
    let t = seq!['['] + joined_by_commas(xs) + seq![']'];
    assert(t[0] == '[');
    assert(t.subrange(1, t.len() as int) =~= joined_by_commas(xs) + seq![']']);
    lemma_skip_ws_from(xs[0], 0);
    lemma_plain_items(t, b, 1, 1, Seq::empty(), flow_pos(t, b, 0), xs);
    assert(Seq::<Node>::empty() + plain_nodes(xs) =~= plain_nodes(xs));
}

// ==============================================================================
// Duplicate keys
// ==============================================================================

/// The entries of a block mapping as the grammar reads them with no check of
/// repeated keys: [`mapping_entries`] without its duplicate-key refusal.
pub open spec fn mapping_entries_any_keys(
    ls: Seq<LineModel>,
    c: int,
    ind: int,
    entries: Seq<Pair>,
) -> Parsed
    decreases ls.len() - c,
{
    if c < 0 || c >= ls.len() {
        Ok((Node::Mapping(entries), c))
    } else {
        let line = ls[c];
        if is_doc_sep(line.content) || line.indent < ind {
            Ok((Node::Mapping(entries), c))
        } else if line.indent == ind {
            if is_seq_item(line.content) {
                Ok((Node::Mapping(entries), c))
            } else {
                match split_key_val(line.content) {
                    Some((k, v)) => match mapping_entry(ls, c + 1, line, k, v, ind) {
                        Err(e) => Err(e),
                        Ok((p, c2)) => if !(c < c2 <= ls.len()) {
                            Err((crate::error::fault(Kind::UnexpectedEof, line_pos(line)), c2))
                        } else {
                            mapping_entries_any_keys(ls, c2, ind, entries.push(p))
                        },
                    },
                    None => Err((crate::error::fault(Kind::ExpectedColon, line_pos(line)), c)),
                }
            }
        } else {
            Err(
                (
                    crate::error::fault(
                        Kind::InvalidIndentation { expected: ind, found: line.indent },
                        line_pos(line),
                    ),
                    c,
                ),
            )
        }
    }
}

/// The mapping that `r` holds, when it is one, starts with `entries`.
pub open spec fn extends_entries(r: Parsed, entries: Seq<Pair>) -> bool {
    r matches Ok((n, _)) ==> n matches Node::Mapping(es) && entries.len() <= es.len() && (forall|
        i: int,
    | 0 <= i < entries.len() ==> #[trigger] es[i] == entries[i])
}

proof fn lemma_any_keys_extends(ls: Seq<LineModel>, c: int, ind: int, entries: Seq<Pair>)
    ensures
        extends_entries(mapping_entries_any_keys(ls, c, ind, entries), entries),
    decreases ls.len() - c,
{
    if 0 <= c < ls.len() {
        let line = ls[c];
        if !(is_doc_sep(line.content) || line.indent < ind) && line.indent == ind
            && !is_seq_item(line.content) {
            if let Some((k, v)) = split_key_val(line.content) {
                if let Ok((p, c2)) = mapping_entry(ls, c + 1, line, k, v, ind) {
                    if c < c2 <= ls.len() {
                        lemma_any_keys_extends(ls, c2, ind, entries.push(p));
                        let r = mapping_entries_any_keys(ls, c2, ind, entries.push(p));
                        if let Ok((Node::Mapping(es), _)) = r {
                            assert forall|i: int| 0 <= i < entries.len() implies #[trigger] es[i]
                                == entries[i] by {
                                assert(es[i] == entries.push(p)[i]);
                            }
                        }
                    }
                }
            }
        }
    }
}

/// An entry that comes after `entries` in a mapping with distinct keys is no duplicate.
proof fn lemma_new_key_no_duplicate(es: Seq<Pair>, entries: Seq<Pair>, p: Pair)
    requires
        distinct_keys(es),
        entries.push(p).len() <= es.len(),
        forall|i: int| 0 <= i < entries.push(p).len() ==> #[trigger] es[i] == entries.push(p)[i],
    ensures
        !is_duplicate(entries, p.key),
{
    let n = entries.len() as int;
    assert(es[n] == p);
    if is_duplicate(entries, p.key) {
        let j = choose|j: int| 0 <= j < entries.len() && entries[j].key == p.key;
        assert(es[j] == entries.push(p)[j]);
        assert(es[j].key != es[n].key);
    }
}

/// Block mappings refuse repeated keys and nothing else: where the grammar
/// without the duplicate-key check reads a mapping whose scalar keys are
/// pairwise distinct, the block mapping gives that same mapping (so
/// `a: 1` then `ab: 2` parses to both entries); whenever the block mapping
/// parses, it gives what that grammar gives; and where that grammar reads a
/// scalar key twice (after distinct `entries`), the block mapping is refused.
pub proof fn law_block_mapping_refuses_only_repeated_keys(
    ls: Seq<LineModel>,
    c: int,
    ind: int,
    entries: Seq<Pair>,
)
    ensures
        (mapping_entries_any_keys(ls, c, ind, entries) matches Ok((Node::Mapping(es), _))
            && distinct_keys(es)) ==> mapping_entries(ls, c, ind, entries)
            == mapping_entries_any_keys(ls, c, ind, entries),
        mapping_entries(ls, c, ind, entries) is Ok ==> mapping_entries(ls, c, ind, entries)
            == mapping_entries_any_keys(ls, c, ind, entries),
        distinct_keys(entries) && (mapping_entries_any_keys(ls, c, ind, entries) matches Ok(
            (Node::Mapping(es), _),
        ) && !distinct_keys(es)) ==> mapping_entries(ls, c, ind, entries) is Err,
    decreases ls.len() - c,
{
    reveal(mapping_entries);
    reveal(mapping_entry);
    if 0 <= c < ls.len() {
        let line = ls[c];
        if !(is_doc_sep(line.content) || line.indent < ind) && line.indent == ind
            && !is_seq_item(line.content) {
            if let Some((k, v)) = split_key_val(line.content) {
                if let Ok((p, c2)) = mapping_entry(ls, c + 1, line, k, v, ind) {
                    if c < c2 <= ls.len() {
                        law_block_mapping_refuses_only_repeated_keys(ls, c2, ind, entries.push(p));
                        if distinct_keys(entries) && !is_duplicate(entries, p.key) {
                            lemma_push_distinct(entries, p);
                        }
                        lemma_any_keys_extends(ls, c2, ind, entries.push(p));
                        let r = mapping_entries_any_keys(ls, c2, ind, entries.push(p));
                        if let Ok((Node::Mapping(es), _)) = r {
                            if distinct_keys(es) {
                                lemma_new_key_no_duplicate(es, entries, p);
                            }
                        }
                    }
                }
            }
        }
    }
}

/// The further entries of a compact mapping as the grammar reads them with
/// no check of repeated keys: [`mapping_entries_after`] without its
/// duplicate-key refusal.
pub open spec fn mapping_entries_after_any_keys(
    ls: Seq<LineModel>,
    c: int,
    ind: int,
    entries: Seq<Pair>,
) -> Parsed
    decreases ls.len() - c,
{
    if c < 0 || c >= ls.len() {
        Ok((Node::Mapping(entries), c))
    } else {
        let line = ls[c];
        if is_doc_sep(line.content) || line.indent < ind || is_seq_item(line.content) {
            Ok((Node::Mapping(entries), c))
        } else {
            match split_key_val(line.content) {
                Some((k, v)) => match mapping_entry(ls, c + 1, line, k, v, line.indent) {
                    Err(e) => Err(e),
                    Ok((p, c2)) => if !(c < c2 <= ls.len()) {
                        Err((crate::error::fault(Kind::UnexpectedEof, line_pos(line)), c2))
                    } else {
                        mapping_entries_after_any_keys(ls, c2, ind, entries.push(p))
                    },
                },
                None => Ok((Node::Mapping(entries), c)),
            }
        }
    }
}

proof fn lemma_after_any_keys_extends(ls: Seq<LineModel>, c: int, ind: int, entries: Seq<Pair>)
    ensures
        extends_entries(mapping_entries_after_any_keys(ls, c, ind, entries), entries),
    decreases ls.len() - c,
{
    if 0 <= c < ls.len() {
        let line = ls[c];
        if !(is_doc_sep(line.content) || line.indent < ind || is_seq_item(line.content)) {
            if let Some((k, v)) = split_key_val(line.content) {
                if let Ok((p, c2)) = mapping_entry(ls, c + 1, line, k, v, line.indent) {
                    if c < c2 <= ls.len() {
                        lemma_after_any_keys_extends(ls, c2, ind, entries.push(p));
                        let r = mapping_entries_after_any_keys(ls, c2, ind, entries.push(p));
                        if let Ok((Node::Mapping(es), _)) = r {
                            assert forall|i: int| 0 <= i < entries.len() implies #[trigger] es[i]
                                == entries[i] by {
                                assert(es[i] == entries.push(p)[i]);
                            }
                        }
                    }
                }
            }
        }
    }
}

/// The same holds of compact mappings (those begun on a sequence item line):
/// they refuse repeated keys and nothing else, and refuse every repeated key.
pub proof fn law_compact_mapping_refuses_only_repeated_keys(
    ls: Seq<LineModel>,
    c: int,
    ind: int,
    entries: Seq<Pair>,
)
    ensures
        (mapping_entries_after_any_keys(ls, c, ind, entries) matches Ok((Node::Mapping(es), _))
            && distinct_keys(es)) ==> mapping_entries_after(ls, c, ind, entries)
            == mapping_entries_after_any_keys(ls, c, ind, entries),
        mapping_entries_after(ls, c, ind, entries) is Ok ==> mapping_entries_after(
            ls,
            c,
            ind,
            entries,
        ) == mapping_entries_after_any_keys(ls, c, ind, entries),
        distinct_keys(entries) && (mapping_entries_after_any_keys(ls, c, ind, entries) matches Ok(
            (Node::Mapping(es), _),
        ) && !distinct_keys(es)) ==> mapping_entries_after(ls, c, ind, entries) is Err,
    decreases ls.len() - c,
{
    reveal(mapping_entries_after);
    reveal(mapping_entry);
    if 0 <= c < ls.len() {
        let line = ls[c];
        if !(is_doc_sep(line.content) || line.indent < ind || is_seq_item(line.content)) {
            if let Some((k, v)) = split_key_val(line.content) {
                if let Ok((p, c2)) = mapping_entry(ls, c + 1, line, k, v, line.indent) {
                    if c < c2 <= ls.len() {
                        law_compact_mapping_refuses_only_repeated_keys(
                            ls,
                            c2,
                            ind,
                            entries.push(p),
                        );
                        if distinct_keys(entries) && !is_duplicate(entries, p.key) {
                            lemma_push_distinct(entries, p);
                        }
                        lemma_after_any_keys_extends(ls, c2, ind, entries.push(p));
                        let r = mapping_entries_after_any_keys(ls, c2, ind, entries.push(p));
                        if let Ok((Node::Mapping(es), _)) = r {
                            if distinct_keys(es) {
                                lemma_new_key_no_duplicate(es, entries, p);
                            }
                        }
                    }
                }
            }
        }
    }
}

/// The entries of a flow mapping as the grammar reads them with no check of
/// repeated keys: [`flow_mapping_entries`] without its duplicate-key refusal.
pub open spec fn flow_mapping_entries_any_keys(
    t: Seq<char>,
    b: Pos,
    k: int,
    entries: Seq<Pair>,
    start: Pos,
) -> Parsed
    decreases t.len() - k,
{
    let k1 = skip_blank(t, k);
    if peek_at(t, k1) == Some('}') {
        Ok((Node::Mapping(entries), k1 + 1))
    } else if k1 >= t.len() || k1 < k {
        Err((crate::error::fault(Kind::UnclosedDelimiter('{'), start), k1))
    } else {
        match flow_key(t, b, k1) {
            Err(e) => Err(e),
            Ok((key, k2)) => if !(k1 < k2 <= t.len()) {
                Err((crate::error::fault(Kind::UnclosedDelimiter('{'), start), k2))
            } else {
                let k3 = skip_blank(t, k2);
                if peek_at(t, k3) != Some(':') || k3 < k {
                    Err((crate::error::fault(Kind::ExpectedColon, flow_pos(t, b, k3)), k3))
                } else {
                    match flow_value(t, b, k3 + 1) {
                        Err(e) => Err(e),
                        Ok((value, k4)) => if !(k3 < k4 <= t.len()) {
                            Err((crate::error::fault(Kind::UnclosedDelimiter('{'), start), k4))
                        } else {
                            let entries2 = entries.push(Pair { key, value });
                            let k5 = skip_blank(t, k4);
                            proof {
                                lemma_skip_blank(t, k4);
                                if k5 < t.len() {
                                    lemma_skip_blank(t, k5 + 1);
                                }
                            }
                            if peek_at(t, k5) == Some(',') {
                                let k6 = skip_blank(t, k5 + 1);
                                if peek_at(t, k6) == Some('}') {
                                    Ok((Node::Mapping(entries2), k6 + 1))
                                } else if k6 <= k {
                                    Err((crate::error::fault(Kind::UnclosedDelimiter('{'), start), k6))
                                } else {
                                    flow_mapping_entries_any_keys(t, b, k6, entries2, start)
                                }
                            } else if peek_at(t, k5) == Some('}') {
                                Ok((Node::Mapping(entries2), k5 + 1))
                            } else if k5 >= t.len() {
                                Err((crate::error::fault(Kind::UnclosedDelimiter('{'), start), k5))
                            } else {
                                Err(
                                    (
                                        crate::error::fault(
                                            Kind::InvalidFlowSyntax(
                                                "expected ',' or '}' in flow mapping"@,
                                            ),
                                            flow_pos(t, b, k5),
                                        ),
                                        k5,
                                    ),
                                )
                            }
                        },
                    }
                }
            },
        }
    }
}

proof fn lemma_flow_any_keys_extends(
    t: Seq<char>,
    b: Pos,
    k: int,
    entries: Seq<Pair>,
    start: Pos,
)
    ensures
        extends_entries(flow_mapping_entries_any_keys(t, b, k, entries, start), entries),
    decreases t.len() - k,
{
    let k1 = skip_blank(t, k);
    if !(peek_at(t, k1) == Some('}')) && !(k1 >= t.len() || k1 < k) {
        if let Ok((key, k2)) = flow_key(t, b, k1) {
            if k1 < k2 <= t.len() {
                let k3 = skip_blank(t, k2);
                if !(peek_at(t, k3) != Some(':') || k3 < k) {
                    if let Ok((value, k4)) = flow_value(t, b, k3 + 1) {
                        if k3 < k4 <= t.len() {
                            let p = Pair { key, value };
                            let k5 = skip_blank(t, k4);
                            lemma_skip_blank(t, k4);
                            if peek_at(t, k5) == Some(',') {
                                lemma_skip_blank(t, k5 + 1);
                                let k6 = skip_blank(t, k5 + 1);
                                if !(peek_at(t, k6) == Some('}')) && !(k6 <= k) {
                                    lemma_flow_any_keys_extends(t, b, k6, entries.push(p), start);
                                    let r = flow_mapping_entries_any_keys(
                                        t,
                                        b,
                                        k6,
                                        entries.push(p),
                                        start,
                                    );
                                    if let Ok((Node::Mapping(es), _)) = r {
                                        assert forall|i: int| 0 <= i < entries.len() implies
                                            #[trigger] es[i] == entries[i] by {
                                            assert(es[i] == entries.push(p)[i]);
                                        }
                                    }
                                }
                            }
                        }
                    }
                }
            }
        }
    }
}

/// Flow mappings too refuse repeated keys and nothing else: where the grammar
/// without the duplicate-key check reads a flow mapping whose scalar keys are
/// pairwise distinct, the flow mapping gives that same mapping (so `{a: 1,
/// ab: 2}` holds both entries); whenever the flow mapping parses, it gives
/// what that grammar gives; and where that grammar reads a scalar key twice
/// (after distinct `entries`), the flow mapping is refused.
pub proof fn law_flow_mapping_refuses_only_repeated_keys(
    t: Seq<char>,
    b: Pos,
    k: int,
    entries: Seq<Pair>,
    start: Pos,
)
    ensures
        (flow_mapping_entries_any_keys(t, b, k, entries, start) matches Ok((Node::Mapping(es), _))
            && distinct_keys(es)) ==> flow_mapping_entries(t, b, k, entries, start)
            == flow_mapping_entries_any_keys(t, b, k, entries, start),
        flow_mapping_entries(t, b, k, entries, start) is Ok ==> flow_mapping_entries(
            t,
            b,
            k,
            entries,
            start,
        ) == flow_mapping_entries_any_keys(t, b, k, entries, start),
        distinct_keys(entries) && (flow_mapping_entries_any_keys(t, b, k, entries, start) matches Ok(
            (Node::Mapping(es), _),
        ) && !distinct_keys(es)) ==> flow_mapping_entries(t, b, k, entries, start) is Err,
    decreases t.len() - k,
{
    let k1 = skip_blank(t, k);
    if !(peek_at(t, k1) == Some('}')) && !(k1 >= t.len() || k1 < k) {
        if let Ok((key, k2)) = flow_key(t, b, k1) {
            if k1 < k2 <= t.len() {
                let k3 = skip_blank(t, k2);
                if !(peek_at(t, k3) != Some(':') || k3 < k) {
                    if let Ok((value, k4)) = flow_value(t, b, k3 + 1) {
                        if k3 < k4 <= t.len() {
                            let p = Pair { key, value };
                            if distinct_keys(entries) && !is_duplicate(entries, p.key) {
                                lemma_push_distinct(entries, p);
                            }
                            let k5 = skip_blank(t, k4);
                            lemma_skip_blank(t, k4);
                            if peek_at(t, k5) == Some(',') {
                                lemma_skip_blank(t, k5 + 1);
                                let k6 = skip_blank(t, k5 + 1);
                                if !(peek_at(t, k6) == Some('}')) && !(k6 <= k) {
                                    law_flow_mapping_refuses_only_repeated_keys(
                                        t,
                                        b,
                                        k6,
                                        entries.push(p),
                                        start,
                                    );
                                    lemma_flow_any_keys_extends(t, b, k6, entries.push(p), start);
                                    let r = flow_mapping_entries_any_keys(
                                        t,
                                        b,
                                        k6,
                                        entries.push(p),
                                        start,
                                    );
                                    if let Ok((Node::Mapping(es), _)) = r {
                                        if distinct_keys(es) {
                                            lemma_new_key_no_duplicate(es, entries, p);
                                        }
                                    }
                                } else {
                                    let es = entries.push(p);
                                    if distinct_keys(es) {
                                        lemma_new_key_no_duplicate(es, entries, p);
                                    }
                                }
                            } else {
                                let es = entries.push(p);
                                if distinct_keys(es) {
                                    lemma_new_key_no_duplicate(es, entries, p);
                                }
                            }
                        }
                    }
                }
            }
        }
    }
}

// ==============================================================================
// Integers
// ==============================================================================

proof fn lemma_digits_push(s: Seq<char>, d: char, i: int, acc: int, neg: bool)
    requires
        0 <= i <= s.len(),
        digits_from(s, i, acc, neg) is Ok,
    ensures
        digits_from(s.push(d), i, acc, neg) == digits_from(
            s.push(d),
            s.len() as int,
            digits_from(s, i, acc, neg)->Ok_0,
            neg,
        ),
    decreases s.len() - i,
{
    if i < s.len() {
        assert(s.push(d)[i] == s[i]);
        let next = if neg {
            acc * 10 - crate::ast::digit_value(s[i])
        } else {
            acc * 10 + crate::ast::digit_value(s[i])
        };
        lemma_digits_push(s, d, i + 1, next, neg);
    }
}

proof fn lemma_digits_sign(s: Seq<char>, i: int, acc: int, neg: bool)
    requires
        0 <= i <= s.len(),
        neg ==> acc <= 0,
        !neg ==> acc >= 0,
    ensures
        digits_from(s, i, acc, neg) matches Ok(y) ==> (neg ==> y <= 0) && (!neg ==> y >= 0),
    decreases s.len() - i,
{
    if i < s.len() && crate::ast::is_digit(s[i]) {
        let next = if neg {
            acc * 10 - crate::ast::digit_value(s[i])
        } else {
            acc * 10 + crate::ast::digit_value(s[i])
        };
        lemma_digits_sign(s, i + 1, next, neg);
    }
}

proof fn lemma_digits_shift(s: Seq<char>, c: char, i: int, acc: int, neg: bool)
    requires
        0 <= i <= s.len(),
    ensures
        digits_from(seq![c] + s, i + 1, acc, neg) == digits_from(s, i, acc, neg),
    decreases s.len() - i,
{
    if i < s.len() {
        assert((seq![c] + s)[i + 1] == s[i]);
        let next = if neg {
            acc * 10 - crate::ast::digit_value(s[i])
        } else {
            acc * 10 + crate::ast::digit_value(s[i])
        };
        lemma_digits_shift(s, c, i + 1, next, neg);
    }
}

proof fn lemma_digits_negate(s: Seq<char>, i: int, acc: int)
    requires
        0 <= i <= s.len(),
        0 <= acc,
        digits_from(s, i, acc, false) is Ok,
    ensures
        digits_from(s, i, -acc, true) matches Ok(y) && y == -(digits_from(s, i, acc, false)->Ok_0),
    decreases s.len() - i,
{
    if i < s.len() {
        let v = crate::ast::digit_value(s[i]);
        assert(-acc * 10 - v == -(acc * 10 + v));
        lemma_digits_negate(s, i + 1, acc * 10 + v);
    }
}

proof fn lemma_digits_junk(s: Seq<char>, i: int, m: int, acc: int, neg: bool)
    requires
        0 <= i <= m < s.len(),
        !crate::ast::is_digit(s[m]),
    ensures
        digits_from(s, i, acc, neg) is Err,
    decreases m - i,
{
    if i < m && crate::ast::is_digit(s[i]) {
        let next = if neg {
            acc * 10 - crate::ast::digit_value(s[i])
        } else {
            acc * 10 + crate::ast::digit_value(s[i])
        };
        lemma_digits_junk(s, i + 1, m, next, neg);
    }
}

/// Reading a decimal `i64` (as [`crate::Yaml::to_i64`] does): a single digit
/// is its value; appending a digit to a number multiplies it by ten and adds
/// the digit (subtracts it after a `-`), or overflows past the bounds of
/// `i64`; a `+` before a number that starts with a digit changes nothing and a
/// `-` negates it; and any other character that is not a digit (a sign
/// anywhere but first, a space, a letter) makes the text no integer.
pub proof fn law_decimal_integers(s: Seq<char>, d: char)
    requires
        '0' <= d <= '9',
    ensures
        parse_int(seq![d]) matches Ok(y) && y == d as int - '0' as int,
        parse_int(s) is Ok ==> {
            let x = parse_int(s)->Ok_0;
            let v = d as int - '0' as int;
            if s[0] == '-' {
                &&& x * 10 - v >= i64::MIN ==> parse_int(s.push(d)) == Ok::<int, IntError>(x * 10 - v)
                &&& x * 10 - v < i64::MIN ==> parse_int(s.push(d)) == Err::<int, IntError>(
                    IntError::NegOverflow,
                )
            } else {
                &&& x * 10 + v <= i64::MAX ==> parse_int(s.push(d)) == Ok::<int, IntError>(x * 10 + v)
                &&& x * 10 + v > i64::MAX ==> parse_int(s.push(d)) == Err::<int, IntError>(
                    IntError::PosOverflow,
                )
            }
        },
        s.len() > 0 && '0' <= s[0] <= '9' ==> parse_int(seq!['+'] + s) == parse_int(s),
        s.len() > 0 && '0' <= s[0] <= '9' && parse_int(s) is Ok ==> parse_int(seq!['-'] + s)
            == Ok::<int, IntError>(-(parse_int(s)->Ok_0)),
        forall|m: int|
            0 <= m < s.len() && !('0' <= #[trigger] s[m] <= '9') && !(m == 0 && (s[0] == '+' || s[0]
                == '-')) ==> parse_int(s) is Err,
{
    assert(seq![d][0] == d);
    assert('0' as int == 48);
    assert(crate::ast::digit_value(d) == d as int - '0' as int);
    assert(digits_from(seq![d], 1, d as int - 48, false) == Ok::<int, IntError>(d as int - 48));
    assert(digits_from(seq![d], 0, 0, false) == digits_from(seq![d], 1, d as int - 48, false));
    if parse_int(s) is Ok {
        let st: int = if s[0] == '+' || s[0] == '-' {
            1
        } else {
            0
        };
        let neg = s[0] == '-';
        assert(parse_int(s) == digits_from(s, st, 0, neg));
        lemma_digits_push(s, d, st, 0, neg);
        assert(s.push(d)[0] == s[0]);
        assert(s.push(d)[s.len() as int] == d);
        assert(parse_int(s.push(d)) == digits_from(s.push(d), st, 0, neg));
        let x = parse_int(s)->Ok_0;
        let n = s.len() as int;
        let next = if neg {
            x * 10 - crate::ast::digit_value(d)
        } else {
            x * 10 + crate::ast::digit_value(d)
        };
        assert(digits_from(s.push(d), n + 1, next, neg) == Ok::<int, IntError>(next));
        assert(digits_from(s.push(d), n, x, neg) == if next < i64::MIN || next > i64::MAX {
            Err(
                if neg {
                    IntError::NegOverflow
                } else {
                    IntError::PosOverflow
                },
            )
        } else {
            Ok::<int, IntError>(next)
        });
        lemma_digits_sign(s, st, 0, neg);
    }
    if s.len() > 0 && '0' <= s[0] <= '9' {
        lemma_digits_shift(s, '+', 0, 0, false);
        lemma_digits_shift(s, '-', 0, 0, true);
        assert((seq!['+'] + s)[0] == '+');
        assert((seq!['-'] + s)[0] == '-');
        if parse_int(s) is Ok {
            lemma_digits_negate(s, 0, 0);
        }
    }
    assert forall|m: int|
        0 <= m < s.len() && !('0' <= #[trigger] s[m] <= '9') && !(m == 0 && (s[0] == '+' || s[0]
            == '-')) implies parse_int(s) is Err by {
        if s.len() > 0 && (s[0] == '+' || s[0] == '-') {
            if s.len() > 1 {
                lemma_digits_junk(s, 1, m, 0, s[0] == '-');
            }
        } else {
            lemma_digits_junk(s, 0, m, 0, false);
        }
    }
}

// ==============================================================================
// Simple block mappings
// ==============================================================================

/// `l` is a line `key: value` of a block mapping indented `ind`, whose value
/// is a plain or quoted scalar on the same line.
pub open spec fn simple_line(l: LineModel, ind: int) -> bool {
    &&& l.indent == ind
    &&& !is_doc_sep(l.content)
    &&& !is_seq_item(l.content)
    &&& !starts_flow(l.content)
    &&& split_key_val(l.content) matches Some((k, v)) && trim(v).len() > 0 && !starts_flow(
        trim(v),
    )
}

/// The entry that a line `key: value` stands for: the key and the value, each
/// read as a plain or quoted scalar.
pub open spec fn simple_entry(l: LineModel) -> Pair {
    let kv = split_key_val(l.content)->Some_0;
    Pair {
        key: Node::Scalar(scalar_or_quoted(kv.0)),
        value: Node::Scalar(scalar_or_quoted(trim(kv.1))),
    }
}

/// The entries that the lines `ls` stand for, in order.
pub open spec fn simple_entries(ls: Seq<LineModel>) -> Seq<Pair> {
    Seq::new(ls.len(), |i: int| simple_entry(ls[i]))
}

proof fn lemma_simple_entries(ls: Seq<LineModel>, c: int, ind: int)
    requires
        0 <= c <= ls.len(),
        forall|i: int| 0 <= i < ls.len() ==> simple_line(#[trigger] ls[i], ind),
        distinct_keys(simple_entries(ls)),
    ensures
        mapping_entries(ls, c, ind, simple_entries(ls).take(c)) matches Ok((n, e)) && n
            == Node::Mapping(simple_entries(ls)) && e == ls.len(),
    decreases ls.len() - c,
{
    reveal(mapping_entries);
    reveal(mapping_entry);
    reveal(node_at);
    let se = simple_entries(ls);
    if c == ls.len() {
        assert(se.take(c) =~= se);
    } else {
        let line = ls[c];
        assert(simple_line(line, ind));
        let (k, v) = split_key_val(line.content)->Some_0;
        let p = simple_entry(line);
        assert(se[c] == p);
        assert(mapping_entry(ls, c + 1, line, k, v, ind) == Ok::<(Pair, int), (Fault, int)>(
            (p, c + 1),
        ));
        if is_duplicate(se.take(c), p.key) {
            let j = choose|j: int| 0 <= j < se.take(c).len() && se.take(c)[j].key == p.key;
            assert(se[j] == se.take(c)[j]);
            assert(se[j].key != se[c].key);
        }
        assert(se.take(c).push(p) =~= se.take(c + 1));
        lemma_simple_entries(ls, c + 1, ind);
    }
}

/// Block mappings read back what they write: lines `key: value` at one
/// indentation, with scalar values on the same lines and pairwise distinct
/// keys, are the mapping of those keys to those values, in order; so a
/// document scanned into such lines parses to that mapping.
pub proof fn law_simple_block_mapping(input: Seq<char>, ls: Seq<LineModel>, ind: int)
    requires
        ls.len() > 0,
        0 <= ind,
        forall|i: int| 0 <= i < ls.len() ==> simple_line(#[trigger] ls[i], ind),
        distinct_keys(simple_entries(ls)),
    ensures
        node_at(ls, 0, 0) matches Ok((n, e)) && n == Node::Mapping(simple_entries(ls)) && e
            == ls.len(),
        scan(input) == Ok::<Seq<LineModel>, Fault>(ls) ==> parse_document(input)
            == Ok::<Node, Fault>(Node::Mapping(simple_entries(ls))),
{
    reveal(node_at);
    reveal(mapping_entries);
    reveal(sequence_items);
    assert(simple_line(ls[0], ind));
    assert(simple_entries(ls).take(0) =~= Seq::<Pair>::empty());
    lemma_simple_entries(ls, 0, ind);
    assert(ls[0].content != seq!['-', '-', '-']);
}

/// `l` is an item line `- value` of a block sequence indented `ind`, whose
/// value is a plain or quoted scalar that holds no `key: value` split.
pub open spec fn simple_item_line(l: LineModel, ind: int) -> bool {
    &&& l.indent == ind
    &&& !is_doc_sep(l.content)
    &&& is_seq_item(l.content)
    &&& after_dash(l.content).len() > 0
    &&& !starts_flow(after_dash(l.content))
    &&& split_key_val(after_dash(l.content)) is None
}

/// The scalars that the item lines `ls` stand for, in order.
pub open spec fn simple_items(ls: Seq<LineModel>) -> Seq<Node> {
    Seq::new(ls.len(), |i: int| Node::Scalar(scalar_or_quoted(after_dash(ls[i].content))))
}

proof fn lemma_simple_items(ls: Seq<LineModel>, c: int, ind: int)
    requires
        0 <= c <= ls.len(),
        forall|i: int| 0 <= i < ls.len() ==> simple_item_line(#[trigger] ls[i], ind),
    ensures
        sequence_items(ls, c, ind, simple_items(ls).take(c)) matches Ok((n, e)) && n
            == Node::Sequence(simple_items(ls)) && e == ls.len(),
    decreases ls.len() - c,
{
    reveal(sequence_items);
    reveal(sequence_item);
    reveal(node_at);
    reveal(mapping_entries_after);
    let si = simple_items(ls);
    if c == ls.len() {
        assert(si.take(c) =~= si);
    } else {
        let line = ls[c];
        assert(simple_item_line(line, ind));
        assert(sequence_item(ls, c + 1, line, ind) == Ok::<(Node, int), (Fault, int)>(
            (si[c], c + 1),
        ));
        assert(si.take(c).push(si[c]) =~= si.take(c + 1));
        lemma_simple_items(ls, c + 1, ind);
    }
}

/// Block sequences read back what they write: item lines `- value` at one
/// indentation, with scalar values that are no `key: value` pairs, are the
/// sequence of those values, in order; so a document scanned into such
/// lines parses to that sequence.
pub proof fn law_simple_block_sequence(input: Seq<char>, ls: Seq<LineModel>, ind: int)
    requires
        ls.len() > 0,
        0 <= ind,
        forall|i: int| 0 <= i < ls.len() ==> simple_item_line(#[trigger] ls[i], ind),
    ensures
        node_at(ls, 0, 0) matches Ok((n, e)) && n == Node::Sequence(simple_items(ls)) && e
            == ls.len(),
        scan(input) == Ok::<Seq<LineModel>, Fault>(ls) ==> parse_document(input)
            == Ok::<Node, Fault>(Node::Sequence(simple_items(ls))),
{
    reveal(node_at);
    reveal(mapping_entries);
    reveal(sequence_items);
    assert(simple_item_line(ls[0], ind));
    assert(simple_items(ls).take(0) =~= Seq::<Node>::empty());
    lemma_simple_items(ls, 0, ind);
    assert(ls[0].content != seq!['-', '-', '-']);
}

proof fn lemma_decimal_starts_with_digit(n: nat)
    ensures
        crate::text::decimal(n).len() >= 1,
        '0' <= crate::text::decimal(n)[0] <= '9',
    decreases n,
{
    if n >= 10 {
        lemma_decimal_starts_with_digit(n / 10);
        assert(crate::text::decimal(n)[0] == crate::text::decimal(n / 10)[0]);
    }
}

/// Numbers written in decimal read back: for every `n` up to `i64::MAX`, the
/// numeral that error messages write for `n` is read by the integer
/// conversion as `n`.
pub proof fn law_decimal_round_trip(n: nat)
    requires
        n <= i64::MAX,
    ensures
        parse_int(crate::text::decimal(n)) == Ok::<int, IntError>(n as int),
    decreases n,
{
    if n < 10 {
        let d = crate::text::digit_char(n as int);
        assert(d as int == 48 + n);
        law_decimal_integers(Seq::empty(), d);
        assert(crate::text::decimal(n) == seq![d]);
    } else {
        let q = (n / 10) as nat;
        let r = n % 10;
        assert(n == q * 10 + r);
        law_decimal_round_trip(q);
        lemma_decimal_starts_with_digit(q);
        let d = crate::text::digit_char(r as int);
        assert(d as int == 48 + r);
        law_decimal_integers(crate::text::decimal(q), d);
        assert(crate::text::decimal(n) == crate::text::decimal(q).push(d));
    }
}

} // verus!
