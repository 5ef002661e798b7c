//! Block-style YAML mapping parser for key-value structures.
//!
//! Handles indentation-based mapping hierarchies, scalar keys and values,
//! nested mappings and sequences, flow values inside mappings, and compact entries.

use vstd::prelude::*;
use crate::ast::{Entry, Node, Pair, Yaml, lemma_view_mapping, pairs};
use crate::error::{ErrorKind, Kind, Parsed, Result, YamlError, fault};
use crate::parser::{EntryParsed, block_agrees, is_duplicate, lemma_line_flow_fits, mapping_entries,
    mapping_entries_after, mapping_entry, nested_or_empty, node_at, parse_node};
use crate::laws::{distinct_keys, law_block_mapping_keys_distinct, law_compact_mapping_keys_distinct};
use crate::parser::flow::{FlowCursor, parse_flow_value};
use crate::parser::sequence::{lemma_split_key_val, opens_flow, parse_scalar_or_quoted,
    split_key_val, split_mapping_key_val};
use crate::scanner::{Line, Scanner, ScannerState, is_doc_sep, is_seq_item, line_fits, line_pos};
use crate::text::{str_eq, trim_str, lemma_utf8_len_bounds, lemma_trim_bounds,
    lemma_utf8_len_subrange, trim_lo, trim_hi};

verus! {

/// `r` is what the model `s` gives for an entry parsed while the scanner
/// moved from `before` to `after`.
pub open spec fn entry_agrees(
    before: ScannerState,
    after: ScannerState,
    r: Result<Entry>,
    s: EntryParsed,
) -> bool {
    &&& after.input == before.input
    &&& after.lines == before.lines
    &&& match s {
        Ok((p, c)) => r matches Ok(e) && e@ == p && after.cursor == c,
        Err((e, c)) => r matches Err(x) && x@ == e && after.cursor == c,
    }
}

/// Whether some entry of `entries` has the scalar key `key`.
pub(crate) fn has_scalar_key(entries: &Vec<Entry>, key: &str) -> (b: bool)
    ensures
        b == is_duplicate(pairs(entries@), Node::Scalar(key@)),
{
    let mut i: usize = 0;
    while i < entries.len()
        invariant
            i <= entries@.len(),
            forall|j: int| 0 <= j < i ==> entries@[j].key@ != Node::Scalar(key@),
        decreases entries@.len() - i,
    {
        match &entries[i].key {
            Yaml::Scalar(k) => {
                if str_eq(k, key) {
                    proof {
                        assert(pairs(entries@)[i as int].key == Node::Scalar(key@));
                    }
                    return true;
                }
            },
            Yaml::Sequence(v) => {
                proof {
                    crate::ast::lemma_view_sequence(*v);
                }
            },
            Yaml::Mapping(v) => {
                proof {
                    lemma_view_mapping(*v);
                }
            },
        }
        i = i + 1;
    }
    proof {
        assert forall|j: int| 0 <= j < pairs(entries@).len() implies pairs(entries@)[j].key
            != Node::Scalar(key@) by {
            assert(entries@[j].key@ != Node::Scalar(key@));
        }
    }
    false
}

/// Parses a block mapping at the specified indentation level.
#[verifier::rlimit(40)]
pub fn parse_block_mapping<'a>(scanner: &mut Scanner<'a>, expected_indent: usize) -> (r: Result<
    Yaml<'a>,
>)
    ensures
        block_agrees(
            old(scanner)@,
            final(scanner)@,
            r,
            mapping_entries(
                old(scanner)@.lines,
                old(scanner)@.cursor,
                expected_indent as int,
                Seq::empty(),
            ),
        ),
        old(scanner)@.cursor <= final(scanner)@.cursor <= old(scanner)@.lines.len(),
        r matches Ok(y) ==> y@ matches Node::Mapping(es) && distinct_keys(es),
    decreases old(scanner)@.lines.len() - old(scanner)@.cursor, 1nat,
{
    let ghost ls = scanner@.lines;
    let ghost input = scanner@.input;
    let ghost c0 = scanner@.cursor;
    let mut entries: Vec<Entry<'a>> = Vec::new();
    proof {
        assert(pairs(entries@) =~= Seq::<Pair>::empty());
    }
    loop
        invariant
            old(scanner)@.lines == ls,
            old(scanner)@.input == input,
            old(scanner)@.cursor == c0,
            scanner@.lines == ls,
            scanner@.input == input,
            c0 <= scanner@.cursor,
            scanner@.cursor == c0 || scanner@.cursor <= ls.len(),
            mapping_entries(ls, c0, expected_indent as int, Seq::empty()) == mapping_entries(
                ls,
                scanner@.cursor,
                expected_indent as int,
                pairs(entries@),
            ),
        decreases ls.len() - scanner@.cursor,
    {
        proof {
            reveal(mapping_entries);
            reveal(mapping_entry);
            law_block_mapping_keys_distinct(ls, c0, expected_indent as int);
        }
        let ghost before = pairs(entries@);
        let ghost c = scanner@.cursor;
        let line = match scanner.peek() {
            Some(l) => *l,
            None => {
                proof {
                    lemma_view_mapping(entries);
                    assert(mapping_entries(ls, c, expected_indent as int, before) == Parsed::Ok((Node::Mapping(before), c)));
                }
                return Ok(Yaml::Mapping(entries));
            },
        };
        proof {
            assert(c < ls.len());
            assert(line@ == ls[c]);
        }
        if line.is_document_separator() || line.indent < expected_indent {
            proof {
                lemma_view_mapping(entries);
                assert(mapping_entries(ls, c, expected_indent as int, before) == Parsed::Ok(
                    (Node::Mapping(before), c),
                ));
            }
            return Ok(Yaml::Mapping(entries));
        }
        if line.indent == expected_indent {
            if line.is_sequence_item() {
                proof {
                    lemma_view_mapping(entries);
                    assert(mapping_entries(ls, c, expected_indent as int, before) == Parsed::Ok(
                        (Node::Mapping(before), c),
                    ));
                }
                return Ok(Yaml::Mapping(entries));
            }
            match split_mapping_key_val(line.content) {
                Some((key_part, val_part)) => {
                    proof {
                        assert(split_key_val(line@.content) == Some((key_part@, val_part@)));
                    }
                    scanner.next_line();
                    let ghost c1 = scanner@.cursor;
                    proof {
                        assert(c1 == c + 1);
                    }
                    let entry = match parse_mapping_entry(
                        scanner,
                        line,
                        key_part,
                        val_part,
                        expected_indent,
                    ) {
                        Ok(entry) => entry,
                        Err(e) => {
                            proof {
                                assert(mapping_entry(ls, c + 1, line@, key_part@, val_part@, expected_indent as int) == EntryParsed::Err((e@, scanner@.cursor)));
                                assert(ls[c] == line@);
                                assert(!is_seq_item(line@.content));
                                assert(line@.indent == expected_indent);
                                assert(!is_doc_sep(line@.content));
                                assert(mapping_entries(ls, c, expected_indent as int, before)
                                    == Parsed::Err((e@, scanner@.cursor))) by {
                                    reveal(mapping_entries);
                                }
                            }
                            return Err(e);
                        },
                    };
                    let ghost c2 = scanner@.cursor;
                    let duplicate = match &entry.key {
                        Yaml::Scalar(key_name) => {
                            if has_scalar_key(&entries, key_name) {
                                Some(*key_name)
                            } else {
                                None
                            }
                        },
                        _ => None,
                    };
                    match duplicate {
                        Some(key_name) => {
                            let p = line.start_position();
                            proof {
                                assert(mapping_entries(ls, c, expected_indent as int, before)
                                    == Parsed::Err(
                                    (fault(Kind::DuplicateKey(key_name@), line_pos(line@)), c2),
                                ));
                            }
                            return Err(
                                YamlError::new(
                                    ErrorKind::DuplicateKey(String::from_str(key_name)),
                                    p,
                                ),
                            );
                        },
                        None => {},
                    }
                    let ghost e = entry@;
                    entries.push(entry);
                    proof {
                        assert(pairs(entries@) =~= before.push(e));
                        assert(mapping_entries(ls, c, expected_indent as int, before)
                            == mapping_entries(ls, c2, expected_indent as int, before.push(e)));
                    }
                },
                None => {
                    let p = line.start_position();
                    proof {
                        assert(mapping_entries(ls, c, expected_indent as int, before) == Parsed::Err(
                            (fault(Kind::ExpectedColon, line_pos(line@)), c),
                        ));
                    }
                    return Err(YamlError::new(ErrorKind::ExpectedColon, p));
                },
            }
        } else {
            let p = line.start_position();
            proof {
                assert(mapping_entries(ls, c, expected_indent as int, before) == Parsed::Err(
                    (
                        fault(
                            Kind::InvalidIndentation {
                                expected: expected_indent as int,
                                found: line.indent as int,
                            },
                            line_pos(line@),
                        ),
                        c,
                    ),
                ));
            }
            return Err(
                YamlError::new(
                    ErrorKind::InvalidIndentation { expected: expected_indent, found: line.indent },
                    p,
                ),
            );
        }
    }
}

/// Parses a block mapping that already begins with an existing first entry (e.g. from compact list syntax).
#[verifier::rlimit(40)]
pub fn parse_block_mapping_with_first_entry<'a>(
    scanner: &mut Scanner<'a>,
    expected_indent: usize,
    first_entry: Entry<'a>,
) -> (r: Result<Yaml<'a>>)
    ensures
        block_agrees(
            old(scanner)@,
            final(scanner)@,
            r,
            mapping_entries_after(
                old(scanner)@.lines,
                old(scanner)@.cursor,
                expected_indent as int,
                seq![first_entry@],
            ),
        ),
        old(scanner)@.cursor <= final(scanner)@.cursor <= old(scanner)@.lines.len(),
        r matches Ok(y) ==> y@ matches Node::Mapping(es) && distinct_keys(es),
    decreases old(scanner)@.lines.len() - old(scanner)@.cursor, 1nat,
{

    let ghost ls = scanner@.lines;
    let ghost input = scanner@.input;
    let ghost c0 = scanner@.cursor;
    let ghost first = first_entry@;
    let mut entries: Vec<Entry<'a>> = Vec::new();
    entries.push(first_entry);
    proof {
        assert(pairs(entries@) =~= seq![first]);
    }
    loop
        invariant
            old(scanner)@.lines == ls,
            old(scanner)@.input == input,
            old(scanner)@.cursor == c0,
            scanner@.lines == ls,
            scanner@.input == input,
            c0 <= scanner@.cursor,
            scanner@.cursor == c0 || scanner@.cursor <= ls.len(),
            first == first_entry@,
            mapping_entries_after(ls, c0, expected_indent as int, seq![first])
                == mapping_entries_after(ls, scanner@.cursor, expected_indent as int, pairs(entries@)),
        decreases ls.len() - scanner@.cursor,
    {
        proof {
            reveal(mapping_entries_after);
            reveal(mapping_entry);
            law_compact_mapping_keys_distinct(ls, c0, expected_indent as int, first);
        }
        let ghost before = pairs(entries@);
        let ghost c = scanner@.cursor;
        let line = match scanner.peek() {
            Some(l) => *l,
            None => {
                proof {
                    lemma_view_mapping(entries);
                    assert(mapping_entries_after(ls, c, expected_indent as int, before) == Parsed::Ok((Node::Mapping(before), c)));
                }
                return Ok(Yaml::Mapping(entries));
            },
        };
        proof {
            assert(c < ls.len());
            assert(line@ == ls[c]);
        }
        let line_indent = line.indent;
        if line.is_document_separator() || line_indent < expected_indent || line.is_sequence_item() {
            proof {
                lemma_view_mapping(entries);
                assert(mapping_entries_after(ls, c, expected_indent as int, before) == Parsed::Ok(
                    (Node::Mapping(before), c),
                ));
            }
            return Ok(Yaml::Mapping(entries));
        }
        match split_mapping_key_val(line.content) {
            Some((key_part, val_part)) => {
                proof {
                    assert(split_key_val(line@.content) == Some((key_part@, val_part@)));
                }
                scanner.next_line();
                let ghost c1 = scanner@.cursor;
                proof {
                    assert(c1 == c + 1);
                }
                let entry = match parse_mapping_entry(scanner, line, key_part, val_part, line_indent) {
                    Ok(entry) => entry,
                    Err(e) => {
                        proof {
                            assert(mapping_entries_after(ls, c, expected_indent as int, before)
                                == Parsed::Err((e@, scanner@.cursor)));
                        }
                        return Err(e);
                    },
                };
                let ghost c2 = scanner@.cursor;
                let duplicate = match &entry.key {
                    Yaml::Scalar(key_name) => {
                        if has_scalar_key(&entries, key_name) {
                            Some(*key_name)
                        } else {
                            None
                        }
                    },
                    _ => None,
                };
                match duplicate {
                    Some(key_name) => {
                        let p = line.start_position();
                        proof {
                            assert(mapping_entries_after(ls, c, expected_indent as int, before)
                                == Parsed::Err((fault(Kind::DuplicateKey(key_name@), line_pos(line@)), c2)));
                        }
                        return Err(
                            YamlError::new(ErrorKind::DuplicateKey(String::from_str(key_name)), p),
                        );
                    },
                    None => {},
                }
                let ghost e = entry@;
                entries.push(entry);
                proof {
                    assert(pairs(entries@) =~= before.push(e));
                    assert(mapping_entries_after(ls, c, expected_indent as int, before)
                        == mapping_entries_after(ls, c2, expected_indent as int, before.push(e)));
                }
            },
            None => {
                proof {
                    lemma_view_mapping(entries);
                    assert(mapping_entries_after(ls, c, expected_indent as int, before) == Parsed::Ok(
                        (Node::Mapping(before), c),
                    ));
                }
                return Ok(Yaml::Mapping(entries));
            },
        }
    }
}

/// Parses a single key-value entry, resolving inline values, flow structures, or nested blocks.
#[verifier::rlimit(40)]
fn parse_mapping_entry<'a>(
    scanner: &mut Scanner<'a>,
    line_info: Line<'a>,
    key_part: &'a str,
    val_part: &'a str,
    map_indent: usize,
) -> (r: Result<Entry<'a>>)
    requires
        line_fits(line_info@),
        split_key_val(line_info@.content) == Some((key_part@, val_part@)),
        old(scanner)@.cursor <= old(scanner)@.lines.len(),
    ensures
        entry_agrees(
            old(scanner)@,
            final(scanner)@,
            r,
            mapping_entry(
                old(scanner)@.lines,
                old(scanner)@.cursor,
                line_info@,
                key_part@,
                val_part@,
                map_indent as int,
            ),
        ),
        old(scanner)@.cursor <= final(scanner)@.cursor <= old(scanner)@.lines.len(),
    decreases old(scanner)@.lines.len() - old(scanner)@.cursor, 3nat,
{
    proof {
        reveal(mapping_entry);
        reveal(node_at);
    }
    proof {
        lemma_split_key_val(line_info@.content);
        lemma_trim_bounds(val_part@);
        lemma_utf8_len_subrange(val_part@, trim_lo(val_part@), trim_hi(val_part@));
        lemma_utf8_len_bounds(key_part@);
        lemma_utf8_len_bounds(line_info@.content);
        crate::parser::sequence::lemma_trim_within(val_part@);
    }
    let key_node = parse_scalar_or_quoted(key_part);
    let val_trimmed = trim_str(val_part);
    let value_node = if val_trimmed.unicode_len() == 0 {
        let mut nested: Option<usize> = None;
        let ghost ls = scanner@.lines;
        let ghost c = scanner@.cursor;
        match scanner.peek() {
            Some(next_line) => {
                proof {
                    assert(c < ls.len());
                    assert(next_line@ == ls[c]);
                }
                if !next_line.is_document_separator() && next_line.indent > map_indent {
                    nested = Some(next_line.indent);
                }
            },
            None => {},
        }
        proof {
            assert(nested is Some <==> nested_or_empty(ls, c, map_indent as int));
            assert(nested matches Some(i) ==> i == ls[c].indent);
        }
        match nested {
            Some(next_indent) => match parse_node(scanner, next_indent) {
                Ok(v) => v,
                Err(e) => return Err(e),
            },
            None => {
                proof {
                    reveal_strlit("");
                    assert(""@ =~= Seq::<char>::empty());
                }
                Yaml::Scalar("")
            },
        }
    } else if opens_flow(val_trimmed) {
        proof {
            crate::parser::sequence::lemma_value_in_text(line_info@.content);
            crate::text::lemma_skip_ws_from(val_part@, 0);
        }
        let lead = val_part.unicode_len() - crate::text::trim_start_str(val_part).unicode_len();
        let at = key_part.unicode_len() + 2 + lead;
        proof {
            assert(lead == trim_lo(val_part@));
            assert(at == crate::parser::value_start(key_part@, val_part@));
            lemma_line_flow_fits(line_info@, val_trimmed@, at as int);
        }
        let base = crate::parser::content_position(&line_info, at);
        let mut cursor = FlowCursor::new(val_trimmed, base);
        match parse_flow_value(&mut cursor) {
            Ok(v) => v,
            Err(e) => return Err(e),
        }
    } else {
        parse_scalar_or_quoted(val_trimmed)
    };
    Ok(Entry { key: key_node, value: value_node })
}

} // verus!
