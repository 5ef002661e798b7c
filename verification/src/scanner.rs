//! Line scanner and indentation tracker for YAML text.
//!
//! Splits the source `&'a str` into its non-empty, non-comment lines, each
//! with its space indentation, line number and byte offset. Line contents are
//! slices of the input.

use vstd::prelude::*;
use crate::error::{ErrorKind, Fault, Kind, Pos, Position, Result, YamlError, fault, pos};
use crate::parser::flow::{count_nl, flow_pos, lemma_nl_bounds, line_start};
use crate::text::{chars_of, find_char_from, find_from, is_ws, lemma_find_from,
    lemma_utf8_len_bounds, lemma_utf8_len_concat, lemma_utf8_len_subrange,
    lemma_utf8_len_take_next, trim_end, trim_end_str, utf8_len, char_width, utf8_width,
    is_whitespace, lemma_back_ws_from};

verus! {

// ==============================================================================
// Scanned Line Model
// ==============================================================================

/// Represents a single non-empty, non-comment line in the YAML source text.
#[derive(Debug, Clone, Copy, PartialEq, Eq)]
pub struct Line<'a> {
    /// The trimmed line content borrowing directly from the input buffer.
    pub content: &'a str,
    /// Number of leading space characters determining the indentation level.
    pub indent: usize,
    /// 1-based source column number where content starts (i.e. `1 + indent`).
    pub start_column: usize,
    /// 1-based source line number.
    pub line_number: usize,
    /// 0-based byte offset within the input text where `content` begins.
    pub byte_offset: usize,
}

/// Mathematical model of a [`Line`].
pub struct LineModel {
    pub content: Seq<char>,
    pub indent: int,
    pub start_column: int,
    pub line_number: int,
    pub byte_offset: int,
}

impl<'a> View for Line<'a> {
    type V = LineModel;

    open spec fn view(&self) -> LineModel {
        LineModel {
            content: self.content@,
            indent: self.indent as int,
            start_column: self.start_column as int,
            line_number: self.line_number as int,
            byte_offset: self.byte_offset as int,
        }
    }
}

/// The models of a sequence of lines.
pub open spec fn line_models(v: Seq<Line>) -> Seq<LineModel> {
    Seq::new(v.len(), |i: int| v[i]@)
}

/// Source position where the content of line `l` starts.
pub open spec fn line_pos(l: LineModel) -> Pos {
    pos(l.line_number, l.start_column, l.byte_offset)
}

/// A line starting with a block sequence indicator (`-` followed by space, tab or nothing).
pub open spec fn is_seq_item(s: Seq<char>) -> bool {
    &&& s.len() >= 1
    &&& s[0] == '-'
    &&& (s.len() == 1 || s[1] == ' ' || s[1] == '\t')
}

/// A document separator line (`---` or `...`).
pub open spec fn is_doc_sep(s: Seq<char>) -> bool {
    s == seq!['-', '-', '-'] || s == seq!['.', '.', '.']
}

/// The numbers of a line are consistent with each other and positions
/// computed from them are representable.
pub open spec fn line_fits(l: LineModel) -> bool {
    &&& 0 <= l.indent <= l.byte_offset
    &&& l.start_column == l.indent + 1
    &&& 1 <= l.line_number <= l.byte_offset + 1
    &&& l.byte_offset + utf8_len(l.content) <= isize::MAX
}

impl<'a> Line<'a> {
    /// Returns the start source position of this line's content.
    pub fn start_position(&self) -> (p: Position)
        ensures
            p@ == line_pos(self@),
    {
        Position::new(self.line_number, self.start_column, self.byte_offset)
    }

    /// Checks if this line starts with a block sequence indicator (`-` followed by space or EOL).
    pub fn is_sequence_item(&self) -> (b: bool)
        ensures
            b == is_seq_item(self.content@),
    {
        let n = self.content.unicode_len();
        if n == 0 || self.content.get_char(0) != '-' {
            return false;
        }
        if n == 1 {
            return true;
        }
        let c = self.content.get_char(1);
        c == ' ' || c == '\t'
    }

    /// Checks if this line represents a YAML document separator (`---` or `...`).
    pub fn is_document_separator(&self) -> (b: bool)
        ensures
            b == is_doc_sep(self.content@),
    {
        let s = self.content;
        if s.unicode_len() != 3 {
            proof {
                assert(seq!['-', '-', '-'].len() == 3);
                assert(seq!['.', '.', '.'].len() == 3);
            }
            return false;
        }
        let a = s.get_char(0);
        let b = s.get_char(1);
        let c = s.get_char(2);
        let r = (a == '-' && b == '-' && c == '-') || (a == '.' && b == '.' && c == '.');
        proof {
            if a == '-' && b == '-' && c == '-' {
                assert(s@ =~= seq!['-', '-', '-']);
            }
            if a == '.' && b == '.' && c == '.' {
                assert(s@ =~= seq!['.', '.', '.']);
            }
            if s@ == seq!['-', '-', '-'] {
                assert(s@[0] == '-' && s@[1] == '-' && s@[2] == '-');
            }
            if s@ == seq!['.', '.', '.'] {
                assert(s@[0] == '.' && s@[1] == '.' && s@[2] == '.');
            }
        }
        r
    }
}

// ==============================================================================
// The scanning rules
// ==============================================================================

/// Index just past the run of spaces that starts at `i`.
pub open spec fn space_run(s: Seq<char>, i: int) -> int
    decreases s.len() - i,
{
    if 0 <= i < s.len() && s[i] == ' ' {
        space_run(s, i + 1)
    } else {
        i
    }
}

/// Index where an inline comment of `text` starts, scanning from `i` with the
/// given quoting state and previous character: a `#` outside quotes that is
/// first or follows whitespace. `text.len()` when there is none.
pub open spec fn comment_start(
    text: Seq<char>,
    i: int,
    in_single: bool,
    in_double: bool,
    prev: Option<char>,
) -> int
    decreases text.len() - i,
{
    if i < 0 || i >= text.len() {
        text.len() as int
    } else {
        let ch = text[i];
        if ch == '\'' && !in_double {
            comment_start(text, i + 1, !in_single, in_double, Some(ch))
        } else if ch == '"' && !in_single && prev != Some('\\') {
            comment_start(text, i + 1, in_single, !in_double, Some(ch))
        } else if ch == '#' && !in_single && !in_double && (i == 0 || (prev matches Some(p)
            && is_ws(p))) {
            i
        } else {
            comment_start(text, i + 1, in_single, in_double, Some(ch))
        }
    }
}

/// `text` without its inline comment.
pub open spec fn strip_comment(text: Seq<char>) -> Seq<char> {
    text.take(comment_start(text, 0, false, false, None))
}

/// One raw line (without its line break) numbered `n`, starting at byte `b`:
/// a tab in the indentation is an error; a line that is blank or only a
/// comment gives nothing.
pub open spec fn scan_line(raw: Seq<char>, n: int, b: int) -> core::result::Result<Option<LineModel>, Fault> {
    let ind = space_run(raw, 0);
    if ind < raw.len() && raw[ind] == '\t' {
        Err(fault(Kind::TabInIndentation, pos(n, ind + 1, b + ind)))
    } else if ind == raw.len() {
        Ok(None)
    } else {
        let content = trim_end(strip_comment(raw.subrange(ind, raw.len() as int)));
        if content.len() == 0 {
            Ok(None)
        } else {
            Ok(
                Some(
                    LineModel {
                        content,
                        indent: ind,
                        start_column: ind + 1,
                        line_number: n,
                        byte_offset: b + ind,
                    },
                ),
            )
        }
    }
}

/// `raw` without one trailing carriage return.
pub open spec fn strip_cr(raw: Seq<char>) -> Seq<char> {
    if raw.len() > 0 && raw.last() == '\r' {
        raw.drop_last()
    } else {
        raw
    }
}

/// The lines of `input` from character index `i` on, where the line starting
/// at `i` is numbered `n` and starts at byte `b`, after the lines `acc`.
pub open spec fn scan_from(input: Seq<char>, i: int, n: int, b: int, acc: Seq<LineModel>) -> core::result::Result<
    Seq<LineModel>,
    Fault,
>
    decreases input.len() - i,
{
    if i < 0 || i > input.len() {
        Ok(acc)
    } else {
        let j = find_from(input, i, '\n');
        proof {
            lemma_find_from(input, i, '\n');
        }
        let raw = input.subrange(i, j);
        match scan_line(strip_cr(raw), n, b) {
            Err(e) => Err(e),
            Ok(found) => {
                let acc2 = match found {
                    Some(l) => acc.push(l),
                    None => acc,
                };
                if j >= input.len() {
                    Ok(acc2)
                } else {
                    scan_from(input, j + 1, n + 1, b + utf8_len(raw) + 1, acc2)
                }
            },
        }
    }
}

/// The non-empty, non-comment lines of `input`, or the first tab found in an indentation.
pub open spec fn scan(input: Seq<char>) -> core::result::Result<Seq<LineModel>, Fault> {
    scan_from(input, 0, 1, 0, Seq::empty())
}

pub proof fn lemma_space_run(s: Seq<char>, i: int)
    requires
        0 <= i <= s.len(),
    ensures
        i <= space_run(s, i) <= s.len(),
        forall|k: int| i <= k < space_run(s, i) ==> s[k] == ' ',
        space_run(s, i) < s.len() ==> s[space_run(s, i)] != ' ',
    decreases s.len() - i,
{
    if i < s.len() && s[i] == ' ' {
        lemma_space_run(s, i + 1);
    }
}

pub proof fn lemma_comment_start(
    text: Seq<char>,
    i: int,
    in_single: bool,
    in_double: bool,
    prev: Option<char>,
)
    requires
        0 <= i <= text.len(),
    ensures
        i <= comment_start(text, i, in_single, in_double, prev) <= text.len(),
    decreases text.len() - i,
{
    if i < text.len() {
        let ch = text[i];
        if ch == '\'' && !in_double {
            lemma_comment_start(text, i + 1, !in_single, in_double, Some(ch));
        } else if ch == '"' && !in_single && prev != Some('\\') {
            lemma_comment_start(text, i + 1, in_single, !in_double, Some(ch));
        } else if ch == '#' && !in_single && !in_double && (i == 0 || (prev matches Some(p)
            && is_ws(p))) {
        } else {
            lemma_comment_start(text, i + 1, in_single, in_double, Some(ch));
        }
    }
}

/// A run of spaces takes one byte per character.
pub proof fn lemma_utf8_len_spaces(s: Seq<char>, n: int)
    requires
        0 <= n <= s.len(),
        forall|k: int| 0 <= k < n ==> s[k] == ' ',
    ensures
        utf8_len(s.take(n)) == n,
    decreases n,
{
    if n > 0 {
        lemma_utf8_len_spaces(s, n - 1);
        lemma_utf8_len_take_next(s, n - 1);
    }
}

/// Source position just past the last character of `input`: its line is one
/// more than the line breaks of `input`, its column one more than the
/// characters after the last break.
pub open spec fn end_pos(input: Seq<char>) -> Pos {
    flow_pos(input, pos(1, 1, 0), input.len() as int)
}

/// Characters other than line breaks leave the count of breaks and the start
/// of the last line as they were.
pub(crate) proof fn lemma_nl_no_break(t: Seq<char>, i: int, j: int)
    requires
        0 <= i <= j <= t.len(),
        forall|m: int| i <= m < j ==> t[m] != '\n',
    ensures
        count_nl(t.take(j)) == count_nl(t.take(i)),
        line_start(t.take(j)) == line_start(t.take(i)),
    decreases j - i,
{
    if j > i {
        lemma_nl_no_break(t, i, j - 1);
        assert(t.take(j).drop_last() =~= t.take(j - 1));
    }
}

/// How the count of line breaks, the start of the last line and the bytes
/// read move over one raw line of `t` from `i` to its break at `j`.
proof fn lemma_scan_step(t: Seq<char>, i: int, j: int, n: int, b: int)
    requires
        0 <= i <= t.len(),
        j == find_from(t, i, '\n'),
        b == utf8_len(t.take(i)),
        n - 1 == count_nl(t.take(i)),
        line_start(t.take(i)) == i,
    ensures
        i <= j <= t.len(),
        j < t.len() ==> n == count_nl(t.take(j + 1)) && line_start(t.take(j + 1)) == j + 1
            && utf8_len(t.take(j + 1)) == b + utf8_len(t.subrange(i, j)) + 1,
        j >= t.len() ==> end_pos(t) == pos(n, 1 + (j - i), b + utf8_len(t.subrange(i, j))),
{
    lemma_find_from(t, i, '\n');
    lemma_nl_no_break(t, i, j);
    lemma_nl_bounds(t.take(i));
    lemma_utf8_len_concat(t.take(i), t.subrange(i, j));
    assert(t.take(i) + t.subrange(i, j) =~= t.take(j));
    if j < t.len() {
        assert(char_width('\n') == 1);
        lemma_utf8_len_take_next(t, j);
        assert(t.take(j + 1).drop_last() =~= t.take(j));
    } else {
        assert(t.take(j) =~= t);
    }
}

/// Sum of the UTF-8 widths of `cs[i..j]`.
fn utf8_len_between(cs: &Vec<char>, i: usize, j: usize) -> (r: usize)
    requires
        i <= j <= cs@.len(),
        utf8_len(cs@) <= usize::MAX,
    ensures
        r == utf8_len(cs@.subrange(i as int, j as int)),
{
    let ghost s = cs@.subrange(i as int, j as int);
    let mut k = i;
    let mut sum: usize = 0;
    proof {
        assert(s.take(0) =~= Seq::<char>::empty());
        lemma_utf8_len_subrange(cs@, i as int, j as int);
    }
    while k < j
        invariant
            i <= k <= j <= cs@.len(),
            s == cs@.subrange(i as int, j as int),
            sum == utf8_len(s.take(k - i)),
            utf8_len(s) <= usize::MAX,
        decreases j - k,
    {
        proof {
            lemma_utf8_len_take_next(s, k - i);
            lemma_utf8_len_subrange(s, 0, k - i + 1);
            assert(s.subrange(0, k - i + 1) =~= s.take(k - i + 1));
        }
        sum = sum + utf8_width(cs[k]);
        k = k + 1;
    }
    proof {
        assert(s.take(j - i) =~= s);
    }
    sum
}

// ==============================================================================
// Scanner Implementation
// ==============================================================================

/// A line-by-line scanner that extracts structured YAML lines while tracking indentation
/// and enforcing YAML indentation safety rules (e.g. rejecting tabs in indentation).
#[derive(Debug)]
pub struct Scanner<'a> {
    /// The input text.
    input: &'a str,
    /// Source position just past the end of `input`.
    end: Position,
    /// Filtered non-empty, non-comment lines.
    lines: Vec<Line<'a>>,
    /// Current cursor index within `lines`.
    cursor: usize,
}

/// Mathematical model of a [`Scanner`]: the input, its scanned lines, and the
/// index of the next line to hand out.
pub struct ScannerState {
    pub input: Seq<char>,
    pub lines: Seq<LineModel>,
    pub cursor: int,
}

impl<'a> View for Scanner<'a> {
    type V = ScannerState;

    closed spec fn view(&self) -> ScannerState {
        ScannerState { input: self.input@, lines: line_models(self.lines@), cursor: self.cursor as int }
    }
}


/// One call of [`Scanner::next_line`] on a scanner in state `st`: the line
/// it hands out, if any, and the state afterwards.
pub open spec fn read_step(st: ScannerState) -> (Option<LineModel>, ScannerState) {
    if 0 <= st.cursor < st.lines.len() {
        (Some(st.lines[st.cursor]), ScannerState { input: st.input, lines: st.lines, cursor: st.cursor + 1 })
    } else {
        (None, st)
    }
}

/// The state after `k` calls of [`Scanner::next_line`] from state `st`.
pub open spec fn read_steps(st: ScannerState, k: nat) -> ScannerState
    decreases k,
{
    if k == 0 {
        st
    } else {
        read_step(read_steps(st, (k - 1) as nat)).1
    }
}

/// What the model `spec` gives for one raw line, and `r` agree.
pub open spec fn line_agrees(r: Result<Option<Line>>, spec: core::result::Result<Option<LineModel>, Fault>) -> bool {
    match spec {
        Err(e) => r matches Err(x) && x@ == e,
        Ok(None) => r matches Ok(None),
        Ok(Some(l)) => r matches Ok(Some(line)) && line@ == l,
    }
}

impl<'a> Clone for Scanner<'a> {
    /// A copy of this scanner.
    fn clone(&self) -> (c: Self)
        ensures
            c@ == self@,
    {
        proof {
            use_type_invariant(self);
        }
        let mut lines: Vec<Line<'a>> = Vec::new();
        let mut i: usize = 0;
        while i < self.lines.len()
            invariant
                i <= self.lines@.len(),
                lines@ == self.lines@.take(i as int),
                forall|k: int| 0 <= k < self.lines@.len() ==> line_fits(#[trigger] self.lines@[k]@),
            decreases self.lines@.len() - i,
        {
            lines.push(self.lines[i]);
            i = i + 1;
            proof {
                assert(lines@ =~= self.lines@.take(i as int));
            }
        }
        proof {
            assert(lines@ =~= self.lines@);
        }
        Scanner { input: self.input, end: self.end, lines, cursor: self.cursor }
    }
}

impl<'a> Scanner<'a> {
    #[verifier::type_invariant]
    spec fn inv(&self) -> bool {
        &&& self.cursor <= self.lines@.len()
        &&& self.end@ == end_pos(self.input@)
        &&& forall|k: int| 0 <= k < self.lines@.len() ==> line_fits(#[trigger] self.lines@[k]@)
    }

    /// Scans the given YAML input string into a sequence of parsed lines.
    ///
    /// Validates indentation rules (tabs are prohibited in indentation positions)
    /// and strips comments while preserving string quotes.
    pub fn new(input: &'a str) -> (r: Result<Self>)
        requires
            utf8_len(input@) <= isize::MAX,
        ensures
            match scan(input@) {
                Ok(ls) => r matches Ok(sc) && sc@ == (ScannerState {
                    input: input@,
                    lines: ls,
                    cursor: 0,
                }),
                Err(e) => r matches Err(x) && x@ == e,
            },
    {
        let cs = chars_of(input);
        let ghost t = input@;
        let mut lines: Vec<Line<'a>> = Vec::new();
        let mut i: usize = 0;
        let mut n: usize = 1;
        let mut b: usize = 0;
        proof {
            assert(t.take(0) =~= Seq::<char>::empty());
            assert(line_models(lines@) =~= Seq::<LineModel>::empty());
        }
        loop
            invariant
                cs@ == t,
                t == input@,
                utf8_len(t) <= isize::MAX,
                i <= t.len(),
                b == utf8_len(t.take(i as int)),
                1 <= n <= b + 1,
                n - 1 == count_nl(t.take(i as int)),
                line_start(t.take(i as int)) == i,
                scan(t) == scan_from(t, i as int, n as int, b as int, line_models(lines@)),
                forall|k: int| 0 <= k < lines@.len() ==> line_fits(#[trigger] lines@[k]@),
            decreases t.len() - i,
        {
            let j = find_char_from(&cs, i, '\n');
            proof {
                lemma_utf8_len_subrange(t, i as int, j as int);
                lemma_utf8_len_subrange(t, 0, i as int);
                lemma_utf8_len_subrange(t, 0, j as int);
                assert(t.subrange(0, i as int) =~= t.take(i as int));
                assert(t.subrange(0, j as int) =~= t.take(j as int));
                lemma_utf8_len_concat(t.take(i as int), t.subrange(i as int, j as int));
                assert(t.take(i as int) + t.subrange(i as int, j as int) =~= t.take(j as int));
            }
            let raw_bytes = utf8_len_between(&cs, i, j);
            let line_end = if j > i && cs[j - 1] == '\r' {
                j - 1
            } else {
                j
            };
            let line_text = input.substring_char(i, line_end);
            proof {
                let raw = t.subrange(i as int, j as int);
                assert(line_text@ =~= strip_cr(raw));
                lemma_utf8_len_subrange(raw, 0, line_end - i);
                assert(raw.subrange(0, line_end - i) =~= line_text@);
            }
            let found = Self::process_line(line_text, n, b);
            let ghost before = line_models(lines@);
            match found {
                Err(e) => {
                    return Err(e);
                },
                Ok(Some(l)) => {
                    lines.push(l);
                    proof {
                        assert(line_models(lines@) =~= before.push(l@));
                    }
                },
                Ok(None) => {},
            }
            proof {
                lemma_scan_step(t, i as int, j as int, n as int, b as int);
                lemma_utf8_len_bounds(t);
            }
            if j >= cs.len() {
                let end = Position::new(n, 1 + (j - i), b + raw_bytes);
                let sc = Scanner { input, end, lines, cursor: 0 };
                return Ok(sc);
            }
            b = b + raw_bytes + 1;
            n = n + 1;
            i = j + 1;
        }
    }

    /// Returns a reference to the complete source text.
    pub fn input(&self) -> (r: &'a str)
        ensures
            r@ == self@.input,
    {
        self.input
    }

    /// Returns the total number of non-empty lines scanned.
    pub fn len(&self) -> (r: usize)
        ensures
            r == self@.lines.len(),
    {
        self.lines.len()
    }

    /// Returns `true` if no non-empty lines were found.
    pub fn is_empty(&self) -> (r: bool)
        ensures
            r == (self@.lines.len() == 0),
    {
        self.lines.len() == 0
    }

    /// Peeks at the current line without advancing the cursor.
    pub fn peek(&self) -> (r: Option<&Line<'a>>)
        ensures
            0 <= self@.cursor <= self@.lines.len(),
            r is Some <==> self@.cursor < self@.lines.len(),
            r matches Some(l) ==> l@ == self@.lines[self@.cursor] && line_fits(l@),
            read_step(self@).0 == match r {
                Some(l) => Some(l@),
                None => None,
            },
    {
        proof {
            use_type_invariant(self);
        }
        if self.cursor < self.lines.len() {
            Some(&self.lines[self.cursor])
        } else {
            None
        }
    }

    /// Advances the cursor and returns the next line.
    pub fn next_line(&mut self) -> (r: Option<Line<'a>>)
        ensures
            0 <= old(self)@.cursor <= old(self)@.lines.len(),
            final(self)@.input == old(self)@.input,
            final(self)@.lines == old(self)@.lines,
            r is Some <==> old(self)@.cursor < old(self)@.lines.len(),
            r matches Some(l) ==> l@ == old(self)@.lines[old(self)@.cursor] && line_fits(l@)
                && final(self)@.cursor == old(self)@.cursor + 1,
            r is None ==> final(self)@.cursor == old(self)@.cursor,
            read_step(old(self)@) == (
                match r {
                    Some(l) => Some(l@),
                    None => None,
                },
                final(self)@,
            ),
    {
        proof {
            use_type_invariant(&*self);
        }
        if self.cursor < self.lines.len() {
            let line = self.lines[self.cursor];
            self.cursor = self.cursor + 1;
            Some(line)
        } else {
            None
        }
    }

    /// Peeks at the indentation level of the next line, or `None` if EOF.
    pub fn peek_indent(&self) -> (r: Option<usize>)
        ensures
            r is Some <==> self@.cursor < self@.lines.len(),
            r matches Some(i) ==> i == self@.lines[self@.cursor].indent,
    {
        match self.peek() {
            Some(l) => Some(l.indent),
            None => None,
        }
    }

    /// Returns `true` if the cursor has consumed all lines.
    pub fn is_eof(&self) -> (r: bool)
        ensures
            r == (self@.cursor >= self@.lines.len()),
    {
        self.cursor >= self.lines.len()
    }

    /// Returns the current source position, or end-of-input position if at EOF.
    pub fn current_position(&self) -> (p: Position)
        ensures
            p@ == if self@.cursor < self@.lines.len() {
                line_pos(self@.lines[self@.cursor])
            } else {
                end_pos(self@.input)
            },
    {
        proof {
            use_type_invariant(self);
        }
        match self.peek() {
            Some(l) => l.start_position(),
            None => self.end,
        }
    }

    /// Processes a single raw line of text: computes indentation, rejects tabs,
    /// strips trailing comments, and returns `Some(Line)` if non-empty.
    fn process_line(raw: &'a str, line_number: usize, line_start_offset: usize) -> (r: Result<
        Option<Line<'a>>,
    >)
        requires
            line_start_offset + utf8_len(raw@) <= isize::MAX,
            1 <= line_number <= line_start_offset + 1,
        ensures
            line_agrees(r, scan_line(raw@, line_number as int, line_start_offset as int)),
            r matches Ok(Some(l)) ==> line_fits(l@),
    {
        let cs = chars_of(raw);
        let ghost t = raw@;
        proof {
            lemma_space_run(t, 0);
            lemma_utf8_len_bounds(t);
        }
        let mut ind: usize = 0;
        while ind < cs.len() && cs[ind] == ' '
            invariant
                cs@ == t,
                ind <= t.len(),
                space_run(t, 0) == space_run(t, ind as int),
                forall|k: int| 0 <= k < ind ==> t[k] == ' ',
            decreases t.len() - ind,
        {
            ind = ind + 1;
        }
        if ind < cs.len() && cs[ind] == '\t' {
            return Err(
                YamlError::new(
                    ErrorKind::TabInIndentation,
                    Position::new(line_number, ind + 1, line_start_offset + ind),
                ),
            );
        }
        if ind == cs.len() {
            return Ok(None);
        }
        let after = raw.substring_char(ind, cs.len());
        let stripped = Self::strip_comments(after);
        let trimmed = trim_end_str(stripped);
        proof {
            let a = after@;
            lemma_comment_start(a, 0, false, false, None);
            lemma_back_ws_from(strip_comment(a), strip_comment(a).len() as int);
            let m = back_ws_end(a);
            assert(trimmed@ =~= t.subrange(ind as int, ind + m));
            lemma_utf8_len_spaces(t, ind as int);
            lemma_utf8_len_subrange(t, ind as int, ind + m);
            lemma_utf8_len_subrange(t, 0, ind as int);
            assert(t.subrange(0, ind as int) =~= t.take(ind as int));
        }
        if trimmed.is_empty() {
            return Ok(None);
        }
        Ok(
            Some(
                Line {
                    content: trimmed,
                    indent: ind,
                    start_column: ind + 1,
                    line_number,
                    byte_offset: line_start_offset + ind,
                },
            ),
        )
    }

    /// Strips trailing inline comments (`# ...`) from a line, ensuring `#` characters
    /// inside single or double quoted substrings are not treated as comments.
    fn strip_comments(text: &'a str) -> (r: &'a str)
        ensures
            r@ == strip_comment(text@),
    {
        let cs = chars_of(text);
        let ghost t = text@;
        let mut in_single = false;
        let mut in_double = false;
        let mut prev: Option<char> = None;
        let mut i: usize = 0;
        while i < cs.len()
            invariant
                cs@ == t,
                t == text@,
                i <= t.len(),
                comment_start(t, 0, false, false, None) == comment_start(
                    t,
                    i as int,
                    in_single,
                    in_double,
                    prev,
                ),
            decreases t.len() - i,
        {
            let ch = cs[i];
            let after_backslash = match prev {
                Some(p) => p == '\\',
                None => false,
            };
            let after_space = match prev {
                Some(p) => is_whitespace(p),
                None => false,
            };
            if ch == '\'' && !in_double {
                in_single = !in_single;
            } else if ch == '"' && !in_single && !after_backslash {
                in_double = !in_double;
            } else if ch == '#' && !in_single && !in_double && (i == 0 || after_space) {
                return text.substring_char(0, i);
            }
            prev = Some(ch);
            i = i + 1;
        }
        proof {
            assert(t.take(t.len() as int) =~= t);
        }
        text
    }
}

/// Length of `trim_end(strip_comment(a))`.
pub open spec fn back_ws_end(a: Seq<char>) -> int {
    crate::text::back_ws_from(strip_comment(a), strip_comment(a).len() as int)
}

} // verus!
