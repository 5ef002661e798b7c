//! Flow-style YAML parser handling JSON-compatible collections (`[...]` and `{...}`).
//!
//! Scalars are returned as slices of the flow text, with no copying of their
//! characters. The grammar is stated as spec functions over the characters of
//! the flow text and an index into them; each parsing function is proved to
//! return what those spec functions give.

use vstd::prelude::*;
use crate::ast::{Entry, Node, Pair, Yaml, lemma_view_mapping, lemma_view_sequence, nodes, pairs};
use crate::error::{ErrorKind, Parsed, Kind, Pos, Position, Result, YamlError, fault, pos};
use crate::parser::is_duplicate;
use crate::text::{find_from, find_char_from, chars_of, is_whitespace, is_ws, trim, trim_str,
    utf8_len, utf8_width, lemma_utf8_len_take_next, lemma_utf8_len_subrange, lemma_utf8_len_bounds};

verus! {

// ==============================================================================
// Positions inside flow text
// ==============================================================================

/// Number of `'\n'` characters in `s`.
pub open spec fn count_nl(s: Seq<char>) -> nat
    decreases s.len(),
{
    if s.len() == 0 {
        0
    } else {
        count_nl(s.drop_last()) + if s.last() == '\n' {
            1nat
        } else {
            0nat
        }
    }
}

/// Index just past the last `'\n'` of `s` (`0` when there is none).
pub open spec fn line_start(s: Seq<char>) -> nat
    decreases s.len(),
{
    if s.len() == 0 {
        0
    } else if s.last() == '\n' {
        s.len()
    } else {
        line_start(s.drop_last())
    }
}

pub proof fn lemma_nl_bounds(s: Seq<char>)
    ensures
        count_nl(s) <= s.len(),
        line_start(s) <= s.len(),
        count_nl(s) == 0 ==> line_start(s) == 0,
    decreases s.len(),
{
    if s.len() > 0 {
        lemma_nl_bounds(s.drop_last());
    }
}

/// Source position of the character at index `k` of flow text `t` that starts at `base`.
pub open spec fn flow_pos(t: Seq<char>, base: Pos, k: int) -> Pos {
    let prefix = t.take(k);
    let n = count_nl(prefix);
    if n == 0 {
        pos(base.line, base.column + k, base.offset + utf8_len(prefix))
    } else {
        pos(base.line + n, 1 + k - line_start(prefix), base.offset + utf8_len(prefix))
    }
}

/// Positions inside flow text `t` starting at `base` are representable.
pub open spec fn flow_fits(t: Seq<char>, base: Pos) -> bool {
    &&& 0 <= base.line
    &&& 0 <= base.column
    &&& 0 <= base.offset
    &&& base.line + t.len() <= usize::MAX
    &&& base.column + t.len() + 1 <= usize::MAX
    &&& base.offset + utf8_len(t) <= usize::MAX
}

// ==============================================================================
// Whitespace and comments
// ==============================================================================

/// Index of the first character at or after `i` that is neither whitespace
/// nor inside a `#` comment (comments run to the next `'\n'`).
pub open spec fn skip_blank(t: Seq<char>, i: int) -> int
    decreases t.len() - i, 0nat,
{
    if i >= t.len() {
        i
    } else if is_ws(t[i]) {
        skip_blank(t, i + 1)
    } else if t[i] == '#' {
        skip_comment(t, i + 1)
    } else {
        i
    }
}

/// Continuation of [`skip_blank`] inside a comment.
pub open spec fn skip_comment(t: Seq<char>, i: int) -> int
    decreases t.len() - i, 1nat,
{
    if i >= t.len() {
        t.len() as int
    } else if t[i] == '\n' {
        skip_blank(t, i + 1)
    } else {
        skip_comment(t, i + 1)
    }
}

pub proof fn lemma_skip_blank(t: Seq<char>, i: int)
    requires
        i <= t.len(),
    ensures
        i <= skip_blank(t, i) <= t.len(),
        skip_blank(t, skip_blank(t, i)) == skip_blank(t, i),
        skip_blank(t, i) < t.len() ==> !is_ws(t[skip_blank(t, i)]) && t[skip_blank(t, i)] != '#',
    decreases t.len() - i, 0nat,
{
    if i < t.len() {
        if is_ws(t[i]) {
            lemma_skip_blank(t, i + 1);
        } else if t[i] == '#' {
            lemma_skip_comment(t, i + 1);
        }
    }
}

pub proof fn lemma_skip_comment(t: Seq<char>, i: int)
    requires
        i <= t.len(),
    ensures
        i <= skip_comment(t, i) <= t.len(),
        skip_blank(t, skip_comment(t, i)) == skip_comment(t, i),
        skip_comment(t, i) < t.len() ==> !is_ws(t[skip_comment(t, i)]) && t[skip_comment(t, i)] != '#',
    decreases t.len() - i, 1nat,
{
    if i < t.len() {
        if t[i] == '\n' {
            lemma_skip_blank(t, i + 1);
        } else {
            lemma_skip_comment(t, i + 1);
        }
    }
}

/// The character at index `k` of `t`, if any.
pub open spec fn peek_at(t: Seq<char>, k: int) -> Option<char> {
    if 0 <= k < t.len() {
        Some(t[k])
    } else {
        None
    }
}

// ==============================================================================
// Scalars
// ==============================================================================

/// End of a plain scalar that starts at `i` inside a flow collection: the
/// first `,` `]` `}` `'\n'` `'\r'`, or `:` followed by whitespace, a flow
/// delimiter or the end.
pub open spec fn plain_end(t: Seq<char>, i: int) -> int
    decreases t.len() - i,
{
    if i < 0 || i >= t.len() {
        t.len() as int
    } else {
        let c = t[i];
        if c == ',' || c == ']' || c == '}' || c == '\n' || c == '\r' {
            i
        } else if c == ':' && (i + 1 >= t.len() || is_ws(t[i + 1]) || t[i + 1] == ',' || t[i + 1]
            == ']' || t[i + 1] == '}') {
            i
        } else {
            plain_end(t, i + 1)
        }
    }
}

/// End of a plain key that starts at `i` inside a flow mapping: the first
/// `:` `,` `}` `'\n'` `'\r'`.
pub open spec fn key_end(t: Seq<char>, i: int) -> int
    decreases t.len() - i,
{
    if i < 0 || i >= t.len() {
        t.len() as int
    } else {
        let c = t[i];
        if c == ':' || c == ',' || c == '}' || c == '\n' || c == '\r' {
            i
        } else {
            key_end(t, i + 1)
        }
    }
}

/// Index of the `"` that closes a double-quoted scalar whose content starts
/// at `i`; a backslash escapes the character after it. `t.len()` when unclosed.
pub open spec fn dq_end(t: Seq<char>, i: int, escaped: bool) -> int
    decreases t.len() - i,
{
    if i < 0 || i >= t.len() {
        t.len() as int
    } else if escaped {
        dq_end(t, i + 1, false)
    } else if t[i] == '\\' {
        dq_end(t, i + 1, true)
    } else if t[i] == '"' {
        i
    } else {
        dq_end(t, i + 1, false)
    }
}

pub proof fn lemma_plain_end(t: Seq<char>, i: int)
    requires
        0 <= i <= t.len(),
    ensures
        i <= plain_end(t, i) <= t.len(),
    decreases t.len() - i,
{
    if i < t.len() {
        lemma_plain_end(t, i + 1);
    }
}

pub proof fn lemma_key_end(t: Seq<char>, i: int)
    requires
        0 <= i <= t.len(),
    ensures
        i <= key_end(t, i) <= t.len(),
    decreases t.len() - i,
{
    if i < t.len() {
        lemma_key_end(t, i + 1);
    }
}

pub proof fn lemma_dq_end(t: Seq<char>, i: int, escaped: bool)
    requires
        0 <= i <= t.len(),
    ensures
        i <= dq_end(t, i, escaped) <= t.len(),
    decreases t.len() - i,
{
    if i < t.len() {
        if escaped {
            lemma_dq_end(t, i + 1, false);
        } else if t[i] == '\\' {
            lemma_dq_end(t, i + 1, true);
        } else if t[i] != '"' {
            lemma_dq_end(t, i + 1, false);
        }
    }
}

/// A plain scalar inside a flow collection, starting at `k`.
pub open spec fn flow_plain_scalar(t: Seq<char>, b: Pos, k: int) -> Parsed {
    let end = plain_end(t, k);
    let s = trim(t.subrange(k, end));
    if s.len() == 0 {
        Err((fault(Kind::ExpectedValue, flow_pos(t, b, k)), k))
    } else {
        Ok((Node::Scalar(s), end))
    }
}

/// A plain key inside a flow mapping, starting at `k`.
pub open spec fn flow_plain_key(t: Seq<char>, b: Pos, k: int) -> Parsed {
    let end = key_end(t, k);
    let s = trim(t.subrange(k, end));
    if s.len() == 0 {
        Err((fault(Kind::ExpectedKey, flow_pos(t, b, k)), k))
    } else {
        Ok((Node::Scalar(s), end))
    }
}

/// A single-quoted scalar whose opening quote is at `k`.
pub open spec fn flow_single_quoted(t: Seq<char>, b: Pos, k: int) -> Parsed {
    let j = find_from(t, k + 1, '\'');
    if j < t.len() {
        Ok((Node::Scalar(t.subrange(k + 1, j)), j + 1))
    } else {
        Err((fault(Kind::UnclosedDelimiter('\''), flow_pos(t, b, k)), k + 1))
    }
}

/// A double-quoted scalar whose opening quote is at `k`; its content is kept
/// as written, escapes included.
pub open spec fn flow_double_quoted(t: Seq<char>, b: Pos, k: int) -> Parsed {
    let j = dq_end(t, k + 1, false);
    if j < t.len() {
        Ok((Node::Scalar(t.subrange(k + 1, j)), j + 1))
    } else {
        Err((fault(Kind::UnclosedDelimiter('"'), flow_pos(t, b, k)), k + 1))
    }
}

/// A key of a flow mapping, after blanks from `k`.
pub open spec fn flow_key(t: Seq<char>, b: Pos, k: int) -> Parsed {
    let k1 = skip_blank(t, k);
    match peek_at(t, k1) {
        Some(c) => if c == '\'' {
            flow_single_quoted(t, b, k1)
        } else if c == '"' {
            flow_double_quoted(t, b, k1)
        } else if c == '[' || c == '{' || c == '}' || c == ']' || c == ',' {
            Err((fault(Kind::ExpectedKey, flow_pos(t, b, k1)), k1))
        } else {
            flow_plain_key(t, b, k1)
        },
        None => Err((fault(Kind::UnexpectedEof, flow_pos(t, b, k1)), k1)),
    }
}

// ==============================================================================
// Collections
// ==============================================================================

/// Any flow value (scalar, flow sequence or flow mapping), after blanks from `k`.
/// On success, the node and the index just past it.
pub open spec fn flow_value(t: Seq<char>, b: Pos, k: int) -> Parsed
    decreases t.len() - k, 1nat,
{
    let k1 = skip_blank(t, k);
    proof {
        if k <= t.len() {
            lemma_skip_blank(t, k);
        }
    }
    match peek_at(t, k1) {
        Some(c) => if c == '[' {
            flow_sequence(t, b, k1)
        } else if c == '{' {
            flow_mapping(t, b, k1)
        } else if c == '\'' {
            flow_single_quoted(t, b, k1)
        } else if c == '"' {
            flow_double_quoted(t, b, k1)
        } else if c == ']' || c == '}' || c == ',' {
            Err((fault(Kind::ExpectedValue, flow_pos(t, b, k1)), k1))
        } else {
            flow_plain_scalar(t, b, k1)
        },
        None => Err((fault(Kind::UnexpectedEof, flow_pos(t, b, k1)), k1)),
    }
}

/// A flow sequence whose `[` is expected at `k`.
pub open spec fn flow_sequence(t: Seq<char>, b: Pos, k: int) -> Parsed
    decreases t.len() - k, 0nat,
{
    let start = flow_pos(t, b, k);
    match peek_at(t, k) {
        Some(c) => if c == '[' {
            flow_sequence_items(t, b, k + 1, Seq::empty(), start)
        } else {
            Err((fault(Kind::UnexpectedCharacter(c), start), k))
        },
        None => Err((fault(Kind::UnexpectedCharacter('\0'), start), k)),
    }
}

/// The items of a flow sequence from `k` on, after `items`; `start` is the
/// position of its `[`.
pub open spec fn flow_sequence_items(
    t: Seq<char>,
    b: Pos,
    k: int,
    items: Seq<Node>,
    start: Pos,
) -> Parsed
    decreases t.len() - k, 2nat,
{
    let k1 = skip_blank(t, k);
    proof {
        if k <= t.len() {
            lemma_skip_blank(t, k);
        }
    }
    if peek_at(t, k1) == Some(']') {
        Ok((Node::Sequence(items), k1 + 1))
    } else if k1 >= t.len() || k1 < k {
        Err((fault(Kind::UnclosedDelimiter('['), start), k1))
    } else {
        match flow_value(t, b, k1) {
            Err(e) => Err(e),
            Ok((item, k2)) => if !(k1 < k2 <= t.len()) {
                Err((fault(Kind::UnclosedDelimiter('['), start), k2))
            } else {
                let items2 = items.push(item);
                let k3 = skip_blank(t, k2);
                proof {
                    lemma_skip_blank(t, k2);
                    if k3 < t.len() {
                        lemma_skip_blank(t, k3 + 1);
                    }
                }
                if peek_at(t, k3) == Some(',') {
                    let k4 = skip_blank(t, k3 + 1);
                    if peek_at(t, k4) == Some(']') {
                        Ok((Node::Sequence(items2), k4 + 1))
                    } else if k4 <= k {
                        Err((fault(Kind::UnclosedDelimiter('['), start), k4))
                    } else {
                        flow_sequence_items(t, b, k4, items2, start)
                    }
                } else if peek_at(t, k3) == Some(']') {
                    Ok((Node::Sequence(items2), k3 + 1))
                } else if k3 >= t.len() {
                    Err((fault(Kind::UnclosedDelimiter('['), start), k3))
                } else {
                    Err(
                        (
                            fault(
                                Kind::InvalidFlowSyntax("expected ',' or ']' in flow sequence"@),
                                flow_pos(t, b, k3),
                            ),
                            k3,
                        ),
                    )
                }
            },
        }
    }
}

/// A flow mapping whose `{` is expected at `k`.
pub open spec fn flow_mapping(t: Seq<char>, b: Pos, k: int) -> Parsed
    decreases t.len() - k, 0nat,
{
    let start = flow_pos(t, b, k);
    match peek_at(t, k) {
        Some(c) => if c == '{' {
            flow_mapping_entries(t, b, k + 1, Seq::empty(), start)
        } else {
            Err((fault(Kind::UnexpectedCharacter(c), start), k))
        },
        None => Err((fault(Kind::UnexpectedCharacter('\0'), start), k)),
    }
}

/// The entries of a flow mapping from `k` on, after `entries`; `start` is the
/// position of its `{`. A scalar key that an earlier entry has is refused.
pub open spec fn flow_mapping_entries(
    t: Seq<char>,
    b: Pos,
    k: int,
    entries: Seq<Pair>,
    start: Pos,
) -> Parsed
    decreases t.len() - k, 2nat,
{
    let k1 = skip_blank(t, k);
    proof {
        if k <= t.len() {
            lemma_skip_blank(t, k);
        }
    }
    if peek_at(t, k1) == Some('}') {
        Ok((Node::Mapping(entries), k1 + 1))
    } else if k1 >= t.len() || k1 < k {
        Err((fault(Kind::UnclosedDelimiter('{'), start), k1))
    } else {
        match flow_key(t, b, k1) {
            Err(e) => Err(e),
            Ok((key, k2)) => if !(k1 < k2 <= t.len()) {
                Err((fault(Kind::UnclosedDelimiter('{'), start), k2))
            } else if is_duplicate(entries, key) {
                Err((fault(Kind::DuplicateKey(key->Scalar_0), flow_pos(t, b, k1)), k2))
            } else {
                let k3 = skip_blank(t, k2);
                if peek_at(t, k3) != Some(':') || k3 < k {
                    Err((fault(Kind::ExpectedColon, flow_pos(t, b, k3)), k3))
                } else {
                    match flow_value(t, b, k3 + 1) {
                        Err(e) => Err(e),
                        Ok((value, k4)) => if !(k3 < k4 <= t.len()) {
                            Err((fault(Kind::UnclosedDelimiter('{'), start), k4))
                        } else {
                            let entries2 = entries.push(Pair { key, value });
                            let k5 = skip_blank(t, k4);
                            proof {
                                lemma_skip_blank(t, k4);
                                if k5 < t.len() {
                                    lemma_skip_blank(t, k5 + 1);
                                }
                            }
                            if peek_at(t, k5) == Some(',') {
                                let k6 = skip_blank(t, k5 + 1);
                                if peek_at(t, k6) == Some('}') {
                                    Ok((Node::Mapping(entries2), k6 + 1))
                                } else if k6 <= k {
                                    Err((fault(Kind::UnclosedDelimiter('{'), start), k6))
                                } else {
                                    flow_mapping_entries(t, b, k6, entries2, start)
                                }
                            } else if peek_at(t, k5) == Some('}') {
                                Ok((Node::Mapping(entries2), k5 + 1))
                            } else if k5 >= t.len() {
                                Err((fault(Kind::UnclosedDelimiter('{'), start), k5))
                            } else {
                                Err(
                                    (
                                        fault(
                                            Kind::InvalidFlowSyntax(
                                                "expected ',' or '}' in flow mapping"@,
                                            ),
                                            flow_pos(t, b, k5),
                                        ),
                                        k5,
                                    ),
                                )
                            }
                        },
                    }
                }
            },
        }
    }
}

// ==============================================================================
// Cursor
// ==============================================================================

/// Cursor tracking character index and source position inside a flow text segment.
#[derive(Debug)]
pub struct FlowCursor<'a> {
    /// Initial slice for this flow fragment.
    initial: &'a str,
    /// The characters of `initial`.
    chars: Vec<char>,
    /// Number of characters of `initial` consumed so far.
    at: usize,
    /// Base position of `initial` in the source text.
    base_position: Position,
}

/// Mathematical model of a [`FlowCursor`]: the flow text, the number of its
/// characters consumed, and the source position of the text.
pub struct FlowState {
    pub text: Seq<char>,
    pub at: int,
    pub base: Pos,
}

impl<'a> View for FlowCursor<'a> {
    type V = FlowState;

    closed spec fn view(&self) -> FlowState {
        FlowState { text: self.initial@, at: self.at as int, base: self.base_position@ }
    }
}

/// `state` with `at` moved to `k`.
pub open spec fn moved(state: FlowState, k: int) -> FlowState {
    FlowState { text: state.text, at: k, base: state.base }
}

impl<'a> Clone for FlowCursor<'a> {
    /// A copy of this cursor.
    fn clone(&self) -> (c: Self)
        ensures
            c@ == self@,
    {
        proof {
            use_type_invariant(self);
        }
        FlowCursor {
            initial: self.initial,
            chars: chars_of(self.initial),
            at: self.at,
            base_position: self.base_position,
        }
    }
}

impl<'a> FlowCursor<'a> {
    #[verifier::type_invariant]
    spec fn inv(&self) -> bool {
        &&& self.chars@ == self.initial@
        &&& self.at <= self.chars@.len()
        &&& flow_fits(self.initial@, self.base_position@)
    }

    /// Creates a new flow cursor at the given position.
    pub fn new(slice: &'a str, base_position: Position) -> (c: Self)
        requires
            flow_fits(slice@, base_position@),
        ensures
            c@.at <= c@.text.len(),
            c@ == (FlowState { text: slice@, at: 0, base: base_position@ }),
    {
        let chars = chars_of(slice);
        FlowCursor { initial: slice, chars, at: 0, base_position }
    }

    /// Returns the current source position.
    pub fn current_position(&self) -> (p: Position)
        ensures
            self@.at <= self@.text.len(),
            p@ == flow_pos(self@.text, self@.base, self@.at),
    {
        proof {
            use_type_invariant(self);
        }
        self.position_at(self.at)
    }

    /// The source position of character `k` of the flow text.
    fn position_at(&self, k: usize) -> (p: Position)
        requires
            k <= self@.text.len(),
        ensures
            p@ == flow_pos(self@.text, self@.base, k as int),
    {
        proof {
            use_type_invariant(self);
        }
        let ghost t = self.chars@;
        let mut i: usize = 0;
        let mut lines: usize = 0;
        let mut line_begin: usize = 0;
        let mut bytes: usize = 0;
        proof {
            lemma_utf8_len_subrange(t, 0, k as int);
            lemma_utf8_len_bounds(t);
        }
        while i < k
            invariant
                i <= k <= t.len(),
                t == self.chars@,
                lines == count_nl(t.take(i as int)),
                line_begin == line_start(t.take(i as int)),
                bytes == utf8_len(t.take(i as int)),
                utf8_len(t.take(k as int)) <= utf8_len(t),
                flow_fits(t, self.base_position@),
            decreases k - i,
        {
            let c = self.chars[i];
            proof {
                lemma_utf8_len_take_next(t, i as int);
                assert(t.take(i + 1).drop_last() =~= t.take(i as int));
                lemma_nl_bounds(t.take(i as int));
                lemma_utf8_len_subrange(t.take(k as int), 0, i + 1);
                assert(t.take(k as int).subrange(0, i + 1) =~= t.take(i + 1));
            }
            if c == '\n' {
                lines = lines + 1;
                line_begin = i + 1;
            }
            bytes = bytes + utf8_width(c);
            i = i + 1;
        }
        proof {
            lemma_nl_bounds(t.take(k as int));
        }
        if lines == 0 {
            Position::new(
                self.base_position.line,
                self.base_position.column + k,
                self.base_position.offset + bytes,
            )
        } else {
            Position::new(
                self.base_position.line + lines,
                1 + k - line_begin,
                self.base_position.offset + bytes,
            )
        }
    }

    /// Skips whitespace and full comments within flow syntax.
    pub fn skip_whitespace_and_comments(&mut self)
        ensures
            final(self)@.at <= final(self)@.text.len(),
            final(self)@ == moved(old(self)@, skip_blank(old(self)@.text, old(self)@.at)),
    {
        proof {
            use_type_invariant(&*self);
        }
        let ghost t = self.chars@;
        let mut k = self.at;
        while k < self.chars.len()
            invariant
                t == self.chars@,
                self.at <= k <= t.len(),
                skip_blank(t, self.at as int) == skip_blank(t, k as int),
            ensures
                skip_blank(t, self.at as int) == k,
            decreases t.len() - k,
        {
            let c = self.chars[k];
            if is_whitespace(c) {
                k = k + 1;
            } else if c == '#' {
                let mut j = k + 1;
                while j < self.chars.len() && self.chars[j] != '\n'
                    invariant
                        t == self.chars@,
                        k < j <= t.len(),
                        skip_blank(t, self.at as int) == skip_comment(t, j as int),
                    decreases t.len() - j,
                {
                    j = j + 1;
                }
                if j >= self.chars.len() {
                    k = self.chars.len();
                } else {
                    k = j + 1;
                }
            } else {
                break;
            }
        }
        self.at = k;
    }

    /// Returns the next character without advancing the cursor.
    pub fn peek_char(&self) -> (c: Option<char>)
        ensures
            self@.at <= self@.text.len(),
            c == peek_at(self@.text, self@.at),
    {
        proof {
            use_type_invariant(self);
        }
        if self.at < self.chars.len() {
            Some(self.chars[self.at])
        } else {
            None
        }
    }

    /// Advances the cursor by one character if it matches expected character.
    pub fn consume_char(&mut self, expected: char) -> (b: bool)
        ensures
            old(self)@.at <= final(self)@.at <= final(self)@.text.len(),
            b == (peek_at(old(self)@.text, old(self)@.at) == Some(expected)),
            final(self)@ == if b {
                moved(old(self)@, old(self)@.at + 1)
            } else {
                old(self)@
            },
    {
        proof {
            use_type_invariant(&*self);
        }
        if self.at < self.chars.len() && self.chars[self.at] == expected {
            self.at = self.at + 1;
            true
        } else {
            false
        }
    }

    /// Returns the remaining unconsumed slice.
    pub fn remaining(&self) -> (r: &'a str)
        ensures
            self@.at <= self@.text.len(),
            r@ == self@.text.subrange(self@.at, self@.text.len() as int),
    {
        proof {
            use_type_invariant(self);
        }
        self.initial.substring_char(self.at, self.chars.len())
    }
}

// ==============================================================================
// Flow Value Parsing
// ==============================================================================

/// `r` is what the model `s` gives for a parse that moved the cursor from
/// `before` to `after`: the same node and end index, or the same error and
/// the index where the cursor stopped.
pub open spec fn flow_agrees(before: FlowState, after: FlowState, r: Result<Yaml>, s: Parsed) -> bool {
    &&& after.text == before.text
    &&& after.base == before.base
    &&& match s {
        Ok((v, k)) => r matches Ok(y) && y@ == v && after.at == k,
        Err((e, k)) => r matches Err(x) && x@ == e && after.at == k,
    }
}

fn plain_end_at(cs: &Vec<char>, k: usize) -> (r: usize)
    requires
        k <= cs@.len(),
    ensures
        r == plain_end(cs@, k as int),
        k <= r <= cs@.len(),
{
    proof {
        lemma_plain_end(cs@, k as int);
    }
    let mut i = k;
    while i < cs.len()
        invariant
            k <= i <= cs@.len(),
            plain_end(cs@, k as int) == plain_end(cs@, i as int),
        decreases cs@.len() - i,
    {
        let c = cs[i];
        if c == ',' || c == ']' || c == '}' || c == '\n' || c == '\r' {
            return i;
        }
        if c == ':' && (i + 1 >= cs.len() || is_whitespace(cs[i + 1]) || cs[i + 1] == ','
            || cs[i + 1] == ']' || cs[i + 1] == '}') {
            return i;
        }
        i = i + 1;
    }
    i
}

fn key_end_at(cs: &Vec<char>, k: usize) -> (r: usize)
    requires
        k <= cs@.len(),
    ensures
        r == key_end(cs@, k as int),
        k <= r <= cs@.len(),
{
    proof {
        lemma_key_end(cs@, k as int);
    }
    let mut i = k;
    while i < cs.len()
        invariant
            k <= i <= cs@.len(),
            key_end(cs@, k as int) == key_end(cs@, i as int),
        decreases cs@.len() - i,
    {
        let c = cs[i];
        if c == ':' || c == ',' || c == '}' || c == '\n' || c == '\r' {
            return i;
        }
        i = i + 1;
    }
    i
}

fn dq_end_at(cs: &Vec<char>, k: usize) -> (r: usize)
    requires
        k <= cs@.len(),
    ensures
        r == dq_end(cs@, k as int, false),
        k <= r <= cs@.len(),
{
    proof {
        lemma_dq_end(cs@, k as int, false);
    }
    let mut i = k;
    let mut escaped = false;
    while i < cs.len()
        invariant
            k <= i <= cs@.len(),
            dq_end(cs@, k as int, false) == dq_end(cs@, i as int, escaped),
        decreases cs@.len() - i,
    {
        if escaped {
            escaped = false;
        } else if cs[i] == '\\' {
            escaped = true;
        } else if cs[i] == '"' {
            return i;
        }
        i = i + 1;
    }
    i
}

/// Parses a plain scalar within flow collections up to delimiters `,`, `]`, `}`, or newline.
fn parse_plain_flow_scalar<'a>(cursor: &mut FlowCursor<'a>) -> (r: Result<Yaml<'a>>)
    ensures
        flow_agrees(
            old(cursor)@,
            final(cursor)@,
            r,
            flow_plain_scalar(old(cursor)@.text, old(cursor)@.base, old(cursor)@.at),
        ),
        r is Ok ==> final(cursor)@.at > old(cursor)@.at,
        old(cursor)@.at <= final(cursor)@.at,
{
    proof {
        use_type_invariant(&*cursor);
    }
    let k = cursor.at;
    let end = plain_end_at(&cursor.chars, k);
    let raw = cursor.initial.substring_char(k, end);
    let s = trim_str(raw);
    if s.is_empty() {
        let p = cursor.current_position();
        return Err(YamlError::new(ErrorKind::ExpectedValue, p));
    }
    cursor.at = end;
    Ok(Yaml::Scalar(s))
}

/// Parses a plain key scalar within flow mapping up to `:`.
fn parse_plain_key_scalar<'a>(cursor: &mut FlowCursor<'a>) -> (r: Result<Yaml<'a>>)
    ensures
        flow_agrees(
            old(cursor)@,
            final(cursor)@,
            r,
            flow_plain_key(old(cursor)@.text, old(cursor)@.base, old(cursor)@.at),
        ),
        r is Ok ==> final(cursor)@.at > old(cursor)@.at,
        old(cursor)@.at <= final(cursor)@.at,
{
    proof {
        use_type_invariant(&*cursor);
    }
    let k = cursor.at;
    let end = key_end_at(&cursor.chars, k);
    let raw = cursor.initial.substring_char(k, end);
    let s = trim_str(raw);
    if s.is_empty() {
        let p = cursor.current_position();
        return Err(YamlError::new(ErrorKind::ExpectedKey, p));
    }
    cursor.at = end;
    Ok(Yaml::Scalar(s))
}

/// Parses single-quoted scalar `'...'`.
fn parse_single_quoted_scalar<'a>(cursor: &mut FlowCursor<'a>) -> (r: Result<Yaml<'a>>)
    requires
        peek_at(old(cursor)@.text, old(cursor)@.at) == Some('\''),
    ensures
        flow_agrees(
            old(cursor)@,
            final(cursor)@,
            r,
            flow_single_quoted(old(cursor)@.text, old(cursor)@.base, old(cursor)@.at),
        ),
        r is Ok ==> final(cursor)@.at > old(cursor)@.at,
        old(cursor)@.at <= final(cursor)@.at,
{
    proof {
        use_type_invariant(&*cursor);
    }
    let start_pos = cursor.current_position();
    let k = cursor.at;
    cursor.consume_char('\'');
    proof {
        use_type_invariant(&*cursor);
    }
    let j = find_char_from(&cursor.chars, k + 1, '\'');
    if j < cursor.chars.len() {
        let inner = cursor.initial.substring_char(k + 1, j);
        cursor.at = j + 1;
        Ok(Yaml::Scalar(inner))
    } else {
        Err(YamlError::new(ErrorKind::UnclosedDelimiter('\''), start_pos))
    }
}

/// Parses double-quoted scalar `"..."`.
fn parse_double_quoted_scalar<'a>(cursor: &mut FlowCursor<'a>) -> (r: Result<Yaml<'a>>)
    requires
        peek_at(old(cursor)@.text, old(cursor)@.at) == Some('"'),
    ensures
        flow_agrees(
            old(cursor)@,
            final(cursor)@,
            r,
            flow_double_quoted(old(cursor)@.text, old(cursor)@.base, old(cursor)@.at),
        ),
        r is Ok ==> final(cursor)@.at > old(cursor)@.at,
        old(cursor)@.at <= final(cursor)@.at,
{
    proof {
        use_type_invariant(&*cursor);
    }
    let start_pos = cursor.current_position();
    let k = cursor.at;
    cursor.consume_char('"');
    proof {
        use_type_invariant(&*cursor);
    }
    let j = dq_end_at(&cursor.chars, k + 1);
    if j < cursor.chars.len() {
        let inner = cursor.initial.substring_char(k + 1, j);
        cursor.at = j + 1;
        Ok(Yaml::Scalar(inner))
    } else {
        Err(YamlError::new(ErrorKind::UnclosedDelimiter('"'), start_pos))
    }
}

/// Parses a mapping key inside a flow mapping.
fn parse_flow_key<'a>(cursor: &mut FlowCursor<'a>) -> (r: Result<Yaml<'a>>)
    ensures
        flow_agrees(
            old(cursor)@,
            final(cursor)@,
            r,
            flow_key(old(cursor)@.text, old(cursor)@.base, old(cursor)@.at),
        ),
        r is Ok ==> final(cursor)@.at > old(cursor)@.at,
        old(cursor)@.at <= final(cursor)@.at,
{
    proof {
        use_type_invariant(&*cursor);
        lemma_skip_blank(cursor@.text, cursor@.at);
    }
    cursor.skip_whitespace_and_comments();
    match cursor.peek_char() {
        Some(c) => {
            if c == '\'' {
                parse_single_quoted_scalar(cursor)
            } else if c == '"' {
                parse_double_quoted_scalar(cursor)
            } else if c == '[' || c == '{' || c == '}' || c == ']' || c == ',' {
                let p = cursor.current_position();
                Err(YamlError::new(ErrorKind::ExpectedKey, p))
            } else {
                parse_plain_key_scalar(cursor)
            }
        },
        None => {
            let p = cursor.current_position();
            Err(YamlError::new(ErrorKind::UnexpectedEof, p))
        },
    }
}

/// Parses any flow value (scalar, flow sequence, or flow mapping).
pub fn parse_flow_value<'a>(cursor: &mut FlowCursor<'a>) -> (r: Result<Yaml<'a>>)
    ensures
        flow_agrees(
            old(cursor)@,
            final(cursor)@,
            r,
            flow_value(old(cursor)@.text, old(cursor)@.base, old(cursor)@.at),
        ),
        r is Ok ==> final(cursor)@.at > old(cursor)@.at,
        old(cursor)@.at <= final(cursor)@.at,
    decreases old(cursor)@.text.len() - old(cursor)@.at, 1nat,
{
    proof {
        use_type_invariant(&*cursor);
        lemma_skip_blank(cursor@.text, cursor@.at);
    }
    cursor.skip_whitespace_and_comments();
    proof {
        use_type_invariant(&*cursor);
    }
    match cursor.peek_char() {
        Some(c) => {
            if c == '[' {
                parse_flow_sequence(cursor)
            } else if c == '{' {
                parse_flow_mapping(cursor)
            } else if c == '\'' {
                parse_single_quoted_scalar(cursor)
            } else if c == '"' {
                parse_double_quoted_scalar(cursor)
            } else if c == ']' || c == '}' || c == ',' {
                let p = cursor.current_position();
                Err(YamlError::new(ErrorKind::ExpectedValue, p))
            } else {
                parse_plain_flow_scalar(cursor)
            }
        },
        None => {
            let p = cursor.current_position();
            Err(YamlError::new(ErrorKind::UnexpectedEof, p))
        },
    }
}

/// Parses a flow sequence enclosed in brackets `[...]`.
pub fn parse_flow_sequence<'a>(cursor: &mut FlowCursor<'a>) -> (r: Result<Yaml<'a>>)
    ensures
        flow_agrees(
            old(cursor)@,
            final(cursor)@,
            r,
            flow_sequence(old(cursor)@.text, old(cursor)@.base, old(cursor)@.at),
        ),
        r is Ok ==> final(cursor)@.at > old(cursor)@.at,
        old(cursor)@.at <= final(cursor)@.at,
    decreases old(cursor)@.text.len() - old(cursor)@.at, 0nat,
{
    proof {
        use_type_invariant(&*cursor);
    }
    let ghost t = cursor@.text;
    let ghost b = cursor@.base;
    let ghost k0 = cursor@.at;
    let start_pos = cursor.current_position();
    if !cursor.consume_char('[') {
        let c = match cursor.peek_char() {
            Some(c) => c,
            None => '\0',
        };
        return Err(YamlError::new(ErrorKind::UnexpectedCharacter(c), start_pos));
    }
    let mut items: Vec<Yaml<'a>> = Vec::new();
    proof {
        assert(nodes(items@) =~= Seq::<Node>::empty());
    }
    loop
        invariant
            old(cursor)@.text == t,
            old(cursor)@.base == b,
            old(cursor)@.at == k0,
            cursor@.text == t,
            cursor@.base == b,
            k0 < cursor@.at <= t.len(),
            flow_sequence(t, b, k0) == flow_sequence_items(
                t,
                b,
                cursor@.at,
                nodes(items@),
                start_pos@,
            ),
        decreases t.len() - cursor@.at,
    {
        proof {
            use_type_invariant(&*cursor);
            lemma_skip_blank(t, cursor@.at);
        }
        let ghost k = cursor@.at;
        let ghost before = nodes(items@);
        cursor.skip_whitespace_and_comments();
        let ghost k1 = cursor@.at;
        if cursor.consume_char(']') {
            proof {
                lemma_view_sequence(items);
            }
            return Ok(Yaml::Sequence(items));
        }
        if cursor.peek_char().is_none() {
            return Err(YamlError::new(ErrorKind::UnclosedDelimiter('['), start_pos));
        }
        proof {
            use_type_invariant(&*cursor);
            assert(k0 < cursor@.at <= t.len());
        }
        let item = match parse_flow_value(cursor) {
            Ok(item) => item,
            Err(e) => return Err(e),
        };
        let ghost k2 = cursor@.at;
        items.push(item);
        proof {
            assert(nodes(items@) =~= before.push(item@));
            use_type_invariant(&*cursor);
            lemma_skip_blank(t, k2);
        }
        cursor.skip_whitespace_and_comments();
        let ghost k3 = cursor@.at;
        if cursor.consume_char(',') {
            proof {
                use_type_invariant(&*cursor);
                lemma_skip_blank(t, k3 + 1);
            }
            cursor.skip_whitespace_and_comments();
            if cursor.consume_char(']') {
                proof {
                    lemma_view_sequence(items);
                }
                return Ok(Yaml::Sequence(items));
            }
        } else if cursor.consume_char(']') {
            proof {
                lemma_view_sequence(items);
            }
            return Ok(Yaml::Sequence(items));
        } else if cursor.peek_char().is_none() {
            return Err(YamlError::new(ErrorKind::UnclosedDelimiter('['), start_pos));
        } else {
            let p = cursor.current_position();
            return Err(
                YamlError::new(
                    ErrorKind::InvalidFlowSyntax("expected ',' or ']' in flow sequence"),
                    p,
                ),
            );
        }
    }
}

/// Parses a flow mapping enclosed in braces `{...}`.
pub fn parse_flow_mapping<'a>(cursor: &mut FlowCursor<'a>) -> (r: Result<Yaml<'a>>)
    ensures
        flow_agrees(
            old(cursor)@,
            final(cursor)@,
            r,
            flow_mapping(old(cursor)@.text, old(cursor)@.base, old(cursor)@.at),
        ),
        r is Ok ==> final(cursor)@.at > old(cursor)@.at,
        old(cursor)@.at <= final(cursor)@.at,
    decreases old(cursor)@.text.len() - old(cursor)@.at, 0nat,
{
    proof {
        use_type_invariant(&*cursor);
    }
    let ghost t = cursor@.text;
    let ghost b = cursor@.base;
    let ghost k0 = cursor@.at;
    let start_pos = cursor.current_position();
    if !cursor.consume_char('{') {
        let c = match cursor.peek_char() {
            Some(c) => c,
            None => '\0',
        };
        return Err(YamlError::new(ErrorKind::UnexpectedCharacter(c), start_pos));
    }
    let mut entries: Vec<Entry<'a>> = Vec::new();
    proof {
        assert(pairs(entries@) =~= Seq::<Pair>::empty());
    }
    loop
        invariant
            old(cursor)@.text == t,
            old(cursor)@.base == b,
            old(cursor)@.at == k0,
            cursor@.text == t,
            cursor@.base == b,
            k0 < cursor@.at <= t.len(),
            flow_mapping(t, b, k0) == flow_mapping_entries(
                t,
                b,
                cursor@.at,
                pairs(entries@),
                start_pos@,
            ),
        decreases t.len() - cursor@.at,
    {
        proof {
            use_type_invariant(&*cursor);
            lemma_skip_blank(t, cursor@.at);
        }
        let ghost k = cursor@.at;
        let ghost before = pairs(entries@);
        cursor.skip_whitespace_and_comments();
        if cursor.consume_char('}') {
            proof {
                lemma_view_mapping(entries);
            }
            return Ok(Yaml::Mapping(entries));
        }
        if cursor.peek_char().is_none() {
            return Err(YamlError::new(ErrorKind::UnclosedDelimiter('{'), start_pos));
        }
        let key_start = cursor.at;
        let key_node = match parse_flow_key(cursor) {
            Ok(key) => key,
            Err(e) => return Err(e),
        };
        let ghost k2 = cursor@.at;
        let duplicate = match &key_node {
            Yaml::Scalar(key_name) => {
                if crate::parser::mapping::has_scalar_key(&entries, key_name) {
                    Some(*key_name)
                } else {
                    None
                }
            },
            _ => None,
        };
        if let Some(key_name) = duplicate {
            proof {
                use_type_invariant(&*cursor);
            }
            let p = cursor.position_at(key_start);
            return Err(YamlError::new(ErrorKind::DuplicateKey(String::from_str(key_name)), p));
        }
        proof {
            use_type_invariant(&*cursor);
            lemma_skip_blank(t, k2);
        }
        cursor.skip_whitespace_and_comments();
        if !cursor.consume_char(':') {
            let p = cursor.current_position();
            return Err(YamlError::new(ErrorKind::ExpectedColon, p));
        }
        proof {
            use_type_invariant(&*cursor);
            assert(k0 < cursor@.at <= t.len());
        }
        let value_node = match parse_flow_value(cursor) {
            Ok(value) => value,
            Err(e) => return Err(e),
        };
        let ghost k4 = cursor@.at;
        let entry = Entry { key: key_node, value: value_node };
        entries.push(entry);
        proof {
            assert(pairs(entries@) =~= before.push(entry@));
            use_type_invariant(&*cursor);
            lemma_skip_blank(t, k4);
        }
        cursor.skip_whitespace_and_comments();
        let ghost k5 = cursor@.at;
        if cursor.consume_char(',') {
            proof {
                use_type_invariant(&*cursor);
                lemma_skip_blank(t, k5 + 1);
            }
            cursor.skip_whitespace_and_comments();
            if cursor.consume_char('}') {
                proof {
                    lemma_view_mapping(entries);
                }
                return Ok(Yaml::Mapping(entries));
            }
        } else if cursor.consume_char('}') {
            proof {
                lemma_view_mapping(entries);
            }
            return Ok(Yaml::Mapping(entries));
        } else if cursor.peek_char().is_none() {
            return Err(YamlError::new(ErrorKind::UnclosedDelimiter('{'), start_pos));
        } else {
            let p = cursor.current_position();
            return Err(
                YamlError::new(
                    ErrorKind::InvalidFlowSyntax("expected ',' or '}' in flow mapping"),
                    p,
                ),
            );
        }
    }
}

} // verus!
