//! Abstract Syntax Tree (AST) representations for parsed YAML data.
//!
//! The AST borrows from the source string: every scalar is a `&'a str` slice
//! of the input buffer.

use vstd::prelude::*;
use crate::error::{Fault, Kind, Position, Result, YamlError, fault, pos};
use crate::text::{chars_of, lower, push_char, str_eq, to_ascii_lowercase, trim, trim_str};

verus! {

/// A key-value association within a YAML mapping.
#[derive(Debug, PartialEq, Eq)]
pub struct Entry<'a> {
    /// The entry's key node.
    pub key: Yaml<'a>,
    /// The entry's associated value node.
    pub value: Yaml<'a>,
}

/// Represents any YAML node, borrowing string slices directly from the input.
#[derive(Debug, PartialEq, Eq)]
pub enum Yaml<'a> {
    /// A raw scalar value (unquoted text, quoted string, boolean literal, or number).
    Scalar(&'a str),
    /// A sequence of YAML nodes (block style `- item` or flow style `[a, b]`).
    Sequence(Vec<Yaml<'a>>),
    /// An ordered collection of key-value pairs (block style `k: v` or flow style `{k: v}`).
    Mapping(Vec<Entry<'a>>),
}

/// Mathematical model of a [`Yaml`] node: scalars as their characters,
/// sequences as sequences of nodes, mappings as sequences of key-value pairs.
pub enum Node {
    Scalar(Seq<char>),
    Sequence(Seq<Node>),
    Mapping(Seq<Pair>),
}

/// Mathematical model of an [`Entry`].
pub struct Pair {
    pub key: Node,
    pub value: Node,
}

/// The empty scalar, which stands for absent values.
pub open spec fn empty_scalar() -> Node {
    Node::Scalar(Seq::empty())
}

impl<'a> View for Yaml<'a> {
    type V = Node;

    open spec fn view(&self) -> Node
        decreases self,
    {
        match self {
            Yaml::Scalar(s) => Node::Scalar(s@),
            Yaml::Sequence(v) => Node::Sequence(
                Seq::new(
                    v@.len(),
                    |i: int|
                        if 0 <= i < v@.len() {
                            v@[i].view()
                        } else {
                            empty_scalar()
                        },
                ),
            ),
            Yaml::Mapping(v) => Node::Mapping(
                Seq::new(
                    v@.len(),
                    |i: int|
                        if 0 <= i < v@.len() {
                            Pair { key: v@[i].key.view(), value: v@[i].value.view() }
                        } else {
                            Pair { key: empty_scalar(), value: empty_scalar() }
                        },
                ),
            ),
        }
    }
}

impl<'a> View for Entry<'a> {
    type V = Pair;

    open spec fn view(&self) -> Pair {
        Pair { key: self.key@, value: self.value@ }
    }
}

/// The models of a sequence of nodes.
pub open spec fn nodes(v: Seq<Yaml>) -> Seq<Node> {
    Seq::new(v.len(), |i: int| v[i]@)
}

/// The models of a sequence of entries.
pub open spec fn pairs(v: Seq<Entry>) -> Seq<Pair> {
    Seq::new(v.len(), |i: int| v[i]@)
}

pub proof fn lemma_view_sequence<'a>(v: Vec<Yaml<'a>>)
    ensures
        Yaml::Sequence(v)@ == Node::Sequence(nodes(v@)),
{
    let y = Yaml::Sequence(v);
    let q = y@->Sequence_0;
    assert(q =~= nodes(v@));
}

pub proof fn lemma_view_mapping<'a>(v: Vec<Entry<'a>>)
    ensures
        Yaml::Mapping(v)@ == Node::Mapping(pairs(v@)),
{
    let y = Yaml::Mapping(v);
    let q = y@->Mapping_0;
    assert(q =~= pairs(v@));
}

/// Index of the first entry of `es` whose key is the scalar `key`.
pub open spec fn key_index(es: Seq<Pair>, key: Seq<char>) -> Option<int> {
    if exists|i: int| 0 <= i < es.len() && es[i].key == Node::Scalar(key) {
        Some(
            choose|i: int|
                0 <= i < es.len() && es[i].key == Node::Scalar(key) && (forall|j: int|
                    0 <= j < i ==> es[j].key != Node::Scalar(key)),
        )
    } else {
        None
    }
}


/// The value that `n` maps the scalar key `key` to: that of its first entry
/// with that key, when `n` is a mapping that has one.
pub open spec fn lookup(n: Node, key: Seq<char>) -> Option<Node> {
    match n {
        Node::Mapping(es) => match key_index(es, key) {
            Some(i) => Some(es[i].value),
            None => None,
        },
        _ => None,
    }
}

/// The element at `index` of `n`, when `n` is a sequence that long.
pub open spec fn element(n: Node, index: int) -> Option<Node> {
    match n {
        Node::Sequence(items) => if 0 <= index < items.len() {
            Some(items[index])
        } else {
            None
        },
        _ => None,
    }
}

/// Number of elements of a sequence or entries of a mapping; `1` for a scalar.
pub open spec fn node_len(n: Node) -> int {
    match n {
        Node::Scalar(_) => 1,
        Node::Sequence(items) => items.len() as int,
        Node::Mapping(es) => es.len() as int,
    }
}

/// An empty scalar, sequence or mapping.
pub open spec fn node_is_empty(n: Node) -> bool {
    match n {
        Node::Scalar(s) => s.len() == 0,
        Node::Sequence(items) => items.len() == 0,
        Node::Mapping(es) => es.len() == 0,
    }
}

/// Once `i` is found to be the first index of a scalar key, it is [`key_index`].
proof fn lemma_key_index_found(es: Seq<Pair>, key: Seq<char>, i: int)
    requires
        0 <= i < es.len(),
        es[i].key == Node::Scalar(key),
        forall|j: int| 0 <= j < i ==> es[j].key != Node::Scalar(key),
    ensures
        key_index(es, key) == Some(i),
{
    let k = choose|k: int|
        0 <= k < es.len() && es[k].key == Node::Scalar(key) && (forall|j: int|
            0 <= j < k ==> es[j].key != Node::Scalar(key));
    assert(0 <= i < es.len() && es[i].key == Node::Scalar(key) && (forall|j: int|
        0 <= j < i ==> es[j].key != Node::Scalar(key)));
    if k < i {
        assert(es[k].key != Node::Scalar(key));
    } else if k > i {
        assert(es[i].key != Node::Scalar(key));
    }
}

impl<'a> Entry<'a> {
    /// Creates a new mapping entry from a key and value pair.
    pub fn new(key: Yaml<'a>, value: Yaml<'a>) -> (e: Self)
        ensures
            e.key == key,
            e.value == value,
    {
        Entry { key, value }
    }

    /// Borrows the key node.
    pub fn key(&self) -> (k: &Yaml<'a>)
        ensures
            *k == self.key,
    {
        &self.key
    }

    /// Borrows the value node.
    pub fn value(&self) -> (v: &Yaml<'a>)
        ensures
            *v == self.value,
    {
        &self.value
    }

    /// Consumes the entry and returns the underlying key and value.
    pub fn into_parts(self) -> (parts: (Yaml<'a>, Yaml<'a>))
        ensures
            parts.0 == self.key,
            parts.1 == self.value,
    {
        (self.key, self.value)
    }
}

impl<'a> Yaml<'a> {
    /// Returns `true` if this node is a scalar.
    pub fn is_scalar(&self) -> (b: bool)
        ensures
            b == (self is Scalar),
            b == (self@ is Scalar),
    {
        match self {
            Yaml::Scalar(_) => true,
            _ => false,
        }
    }

    /// Returns `true` if this node is a sequence.
    pub fn is_sequence(&self) -> (b: bool)
        ensures
            b == (self is Sequence),
            b == (self@ is Sequence),
    {
        match self {
            Yaml::Sequence(_) => true,
            _ => false,
        }
    }

    /// Returns `true` if this node is a mapping.
    pub fn is_mapping(&self) -> (b: bool)
        ensures
            b == (self is Mapping),
            b == (self@ is Mapping),
    {
        match self {
            Yaml::Mapping(_) => true,
            _ => false,
        }
    }

    /// Returns the borrowed scalar slice if this node is a `Yaml::Scalar`.
    pub fn as_scalar(&self) -> (r: Option<&'a str>)
        ensures
            match self {
                Yaml::Scalar(s) => r == Some(*s),
                _ => r is None,
            },
    {
        match self {
            Yaml::Scalar(s) => Some(*s),
            _ => None,
        }
    }

    /// Alias for `as_scalar()` for ergonomic string access.
    pub fn as_str(&self) -> (r: Option<&'a str>)
        ensures
            match self {
                Yaml::Scalar(s) => r == Some(*s),
                _ => r is None,
            },
    {
        self.as_scalar()
    }

    /// Returns a slice of sequence elements if this node is a `Yaml::Sequence`.
    pub fn as_sequence(&self) -> (r: Option<&[Yaml<'a>]>)
        ensures
            match self {
                Yaml::Sequence(v) => r matches Some(items) && items@ == v@,
                _ => r is None,
            },
    {
        match self {
            Yaml::Sequence(v) => Some(v.as_slice()),
            _ => None,
        }
    }

    /// Returns a slice of mapping entries if this node is a `Yaml::Mapping`.
    pub fn as_mapping(&self) -> (r: Option<&[Entry<'a>]>)
        ensures
            match self {
                Yaml::Mapping(v) => r matches Some(es) && es@ == v@,
                _ => r is None,
            },
    {
        match self {
            Yaml::Mapping(v) => Some(v.as_slice()),
            _ => None,
        }
    }

    /// Index of the first entry of mapping entries `entries` with scalar key `key`.
    fn find_key(entries: &Vec<Entry<'a>>, key: &str) -> (r: Option<usize>)
        ensures
            match r {
                Some(i) => i < entries@.len() && key_index(pairs(entries@), key@) == Some(i as int),
                None => key_index(pairs(entries@), key@) is None,
            },
    {
        let ghost es = pairs(entries@);
        let mut i: usize = 0;
        while i < entries.len()
            invariant
                es == pairs(entries@),
                i <= entries@.len(),
                forall|j: int| 0 <= j < i ==> es[j].key != Node::Scalar(key@),
            decreases entries@.len() - i,
        {
            match &entries[i].key {
                Yaml::Scalar(k) => {
                    if str_eq(k, key) {
                        proof {
                            lemma_key_index_found(es, key@, i as int);
                        }
                        return Some(i);
                    }
                },
                Yaml::Sequence(v) => {
                    proof {
                        lemma_view_sequence(*v);
                    }
                },
                Yaml::Mapping(v) => {
                    proof {
                        lemma_view_mapping(*v);
                    }
                },
            }
            i = i + 1;
        }
        proof {
            assert(!exists|j: int| 0 <= j < es.len() && es[j].key == Node::Scalar(key@));
        }
        None
    }

    /// Looks up a value in a mapping by its scalar key string.
    ///
    /// Performs a linear scan over the mapping entries. Returns `None` if the node
    /// is not a mapping or if no entry has a matching scalar key.
    pub fn get(&self, key: &str) -> (r: Option<&Yaml<'a>>)
        ensures
            match lookup(self@, key@) {
                Some(v) => r matches Some(y) && y@ == v,
                None => r is None,
            },
    {
        match self {
            Yaml::Mapping(entries) => {
                proof {
                    lemma_view_mapping(*entries);
                }
                match Self::find_key(entries, key) {
                    Some(i) => {
                        proof {
                            assert(pairs(entries@)[i as int] == entries@[i as int]@);
                        }
                        Some(&entries[i].value)
                    },
                    None => None,
                }
            },
            _ => None,
        }
    }

    /// Looks up an element in a sequence by zero-based index.
    pub fn get_idx(&self, index: usize) -> (r: Option<&Yaml<'a>>)
        ensures
            match element(self@, index as int) {
                Some(v) => r matches Some(y) && y@ == v,
                None => r is None,
            },
    {
        match self {
            Yaml::Sequence(items) => {
                proof {
                    lemma_view_sequence(*items);
                }
                if index < items.len() {
                    Some(&items[index])
                } else {
                    None
                }
            },
            _ => None,
        }
    }

    /// Returns the number of elements in a sequence or entries in a mapping,
    /// or `1` for scalars.
    pub fn len(&self) -> (n: usize)
        ensures
            n == node_len(self@),
    {
        match self {
            Yaml::Scalar(_) => 1,
            Yaml::Sequence(items) => {
                proof {
                    lemma_view_sequence(*items);
                }
                items.len()
            },
            Yaml::Mapping(entries) => {
                proof {
                    lemma_view_mapping(*entries);
                }
                entries.len()
            },
        }
    }

    /// Returns `true` if the node is an empty sequence, empty mapping, or empty scalar.
    pub fn is_empty(&self) -> (b: bool)
        ensures
            b == node_is_empty(self@),
    {
        match self {
            Yaml::Scalar(s) => s.is_empty(),
            Yaml::Sequence(items) => {
                proof {
                    lemma_view_sequence(*items);
                }
                items.len() == 0
            },
            Yaml::Mapping(entries) => {
                proof {
                    lemma_view_mapping(*entries);
                }
                entries.len() == 0
            },
        }
    }
}


impl<'a> Yaml<'a> {
    /// Looks up a mutable reference to a value in a mapping by its scalar key string.
    ///
    /// What is written through the reference becomes the value of that entry;
    /// nothing else of the node changes.
    pub fn get_mut(&mut self, key: &str) -> (r: Option<&mut Yaml<'a>>)
        ensures
            match lookup(old(self)@, key@) {
                Some(v) => r matches Some(y) && (*y)@ == v,
                None => r is None && *final(self) == *old(self),
            },
            r matches Some(y) ==> {
                &&& *old(self) matches Yaml::Mapping(ov)
                &&& *final(self) matches Yaml::Mapping(fv)
                &&& key_index(pairs(ov@), key@) matches Some(i)
                &&& fv@ == ov@.update(i, Entry { key: ov@[i].key, value: *final(y) })
            },
    {
        match self {
            Yaml::Mapping(entries) => {
                proof {
                    lemma_view_mapping(*entries);
                }
                match Self::find_key(entries, key) {
                    Some(i) => {
                        proof {
                            assert(pairs(entries@)[i as int] == entries@[i as int]@);
                        }
                        Some(&mut entries[i].value)
                    },
                    None => None,
                }
            },
            _ => None,
        }
    }
}


impl<'a> vstd::std_specs::core::IndexSpecImpl<&str> for Yaml<'a> {
    open spec fn index_req(&self, key: &&str) -> bool {
        true
    }
}

impl<'a> core::ops::Index<&str> for Yaml<'a> {
    type Output = Yaml<'a>;

    /// The value of the mapping entry with scalar key `key`, or the empty
    /// scalar when there is none.
    fn index(&self, key: &str) -> (r: &Yaml<'a>)
        ensures
            match lookup(self@, key@) {
                Some(v) => r@ == v,
                None => r@ == empty_scalar(),
            },
    {
        match self.get(key) {
            Some(v) => v,
            None => {
                proof {
                    reveal_strlit("");
                    assert(""@ =~= Seq::<char>::empty());
                }
                &Yaml::Scalar("")
            },
        }
    }
}

impl<'a> vstd::std_specs::core::IndexSpecImpl<usize> for Yaml<'a> {
    open spec fn index_req(&self, index: &usize) -> bool {
        true
    }
}

impl<'a> core::ops::Index<usize> for Yaml<'a> {
    type Output = Yaml<'a>;

    /// The element at `index` of a sequence, or the empty scalar when there is none.
    fn index(&self, index: usize) -> (r: &Yaml<'a>)
        ensures
            match element(self@, index as int) {
                Some(v) => r@ == v,
                None => r@ == empty_scalar(),
            },
    {
        match self.get_idx(index) {
            Some(v) => v,
            None => {
                proof {
                    reveal_strlit("");
                    assert(""@ =~= Seq::<char>::empty());
                }
                &Yaml::Scalar("")
            },
        }
    }
}


// ==============================================================================
// Typed scalar conversions
// ==============================================================================

/// Why a text is not an `i64`: the cases of std's `IntErrorKind` that
/// parsing a decimal `i64` can meet.
#[derive(Debug, Clone, Copy, PartialEq, Eq, Structural)]
pub enum IntError {
    /// The text is empty.
    Empty,
    /// A character is not a digit (or the text is a lone sign).
    InvalidDigit,
    /// The number is greater than `i64::MAX`.
    PosOverflow,
    /// The number is less than `i64::MIN`.
    NegOverflow,
}

/// A decimal digit `0`..`9`.
pub open spec fn is_digit(c: char) -> bool {
    '0' <= c && c <= '9'
}

/// The value of decimal digit `c`.
pub open spec fn digit_value(c: char) -> int {
    (c as int) - 48
}

/// The number whose remaining digits are `d[i..]`, after the digits read so far
/// gave `acc`, with the sign `neg`; read from left to right, stopping at the
/// first character that is no digit or that takes the number out of `i64`.
pub open spec fn digits_from(d: Seq<char>, i: int, acc: int, neg: bool) -> core::result::Result<int, IntError>
    decreases d.len() - i,
{
    if i < 0 || i >= d.len() {
        Ok(acc)
    } else if !is_digit(d[i]) {
        Err(IntError::InvalidDigit)
    } else {
        let next = if neg {
            acc * 10 - digit_value(d[i])
        } else {
            acc * 10 + digit_value(d[i])
        };
        if next < i64::MIN || next > i64::MAX {
            Err(
                if neg {
                    IntError::NegOverflow
                } else {
                    IntError::PosOverflow
                },
            )
        } else {
            digits_from(d, i + 1, next, neg)
        }
    }
}

/// The `i64` that `s` writes in decimal, with an optional `+` or `-` sign, as
/// `str::parse::<i64>` reads it.
pub open spec fn parse_int(s: Seq<char>) -> core::result::Result<int, IntError> {
    if s.len() == 0 {
        Err(IntError::Empty)
    } else if (s[0] == '+' || s[0] == '-') && s.len() == 1 {
        Err(IntError::InvalidDigit)
    } else if s[0] == '+' {
        digits_from(s, 1, 0, false)
    } else if s[0] == '-' {
        digits_from(s, 1, 0, true)
    } else {
        digits_from(s, 0, 0, false)
    }
}

/// The words that `to_bool` reads, after trimming and lowering ASCII letters.
pub open spec fn bool_word(w: Seq<char>) -> Option<bool> {
    if w == "true"@ || w == "yes"@ || w == "on"@ || w == "1"@ {
        Some(true)
    } else if w == "false"@ || w == "no"@ || w == "off"@ || w == "0"@ {
        Some(false)
    } else {
        None
    }
}

/// The message of std's `ParseIntError` for `e`.
pub open spec fn int_error_text(e: IntError) -> Seq<char> {
    match e {
        IntError::Empty => "cannot parse integer from empty string"@,
        IntError::InvalidDigit => "invalid digit found in string"@,
        IntError::PosOverflow => "number too large to fit in target type"@,
        IntError::NegOverflow => "number too small to fit in target type"@,
    }
}

/// The error of a scalar conversion: a custom message at the start of the document.
pub open spec fn conversion_fault(msg: Seq<char>) -> Fault {
    fault(Kind::Custom(msg), pos(1, 1, 0))
}

/// Reads `s` as `str::parse::<i64>` does.
fn parse_i64(s: &str) -> (r: core::result::Result<i64, IntError>)
    ensures
        match parse_int(s@) {
            Ok(v) => r matches Ok(x) && x == v,
            Err(e) => r matches Err(k) && k == e,
        },
{
    let cs = chars_of(s);
    let ghost t = s@;
    let n = cs.len();
    if n == 0 {
        return Err(IntError::Empty);
    }
    let first = cs[0];
    if (first == '+' || first == '-') && n == 1 {
        return Err(IntError::InvalidDigit);
    }
    let neg = first == '-';
    let start: usize = if first == '+' || first == '-' {
        1
    } else {
        0
    };
    let mut acc: i64 = 0;
    let mut i: usize = start;
    while i < n
        invariant
            cs@ == t,
            t == s@,
            n == t.len(),
            start <= i <= n,
            neg ==> acc <= 0,
            !neg ==> acc >= 0,
            parse_int(t) == digits_from(t, i as int, acc as int, neg),
        decreases n - i,
    {
        let c = cs[i];
        if !('0' <= c && c <= '9') {
            proof {
                assert(!is_digit(t[i as int]));
                assert(digits_from(t, i as int, acc as int, neg) == core::result::Result::<int, IntError>::Err(IntError::InvalidDigit));
            }
            return Err(IntError::InvalidDigit);
        }
        let d = ((c as u32) - 48) as i64;
        proof {
            assert(d == digit_value(t[i as int]));
        }
        let next = if neg {
            match acc.checked_mul(10) {
                Some(m) => m.checked_sub(d),
                None => None,
            }
        } else {
            match acc.checked_mul(10) {
                Some(m) => m.checked_add(d),
                None => None,
            }
        };
        match next {
            Some(v) => {
                acc = v;
            },
            None => {
                proof {
                    let next = if neg {
                        acc * 10 - d
                    } else {
                        acc * 10 + d
                    };
                    assert(next < i64::MIN || next > i64::MAX);
                }
                return Err(
                    if neg {
                        IntError::NegOverflow
                    } else {
                        IntError::PosOverflow
                    },
                );
            },
        }
        i = i + 1;
    }
    Ok(acc)
}

/// Builds `prefix`, then `middle`, then `suffix` as one string.
fn message(prefix: &str, middle: &str, suffix: &str) -> (r: String)
    ensures
        r@ == prefix@ + middle@ + suffix@,
{
    let mut m = String::from_str(prefix);
    m.append(middle);
    m.append(suffix);
    m
}

impl<'a> Yaml<'a> {
    /// Parses the scalar value as a boolean (`true`/`false`, `yes`/`no`, `on`/`off`, `1`/`0`).
    pub fn to_bool(&self) -> (r: Result<bool>)
        ensures
            match self@ {
                Node::Scalar(raw) => match bool_word(lower(trim(raw))) {
                    Some(b) => r matches Ok(x) && x == b,
                    None => r matches Err(e) && e@ == conversion_fault(
                        "cannot parse '"@ + lower(trim(raw)) + "' as boolean"@,
                    ),
                },
                _ => r matches Err(e) && e@ == conversion_fault(
                    "expected scalar for boolean conversion"@,
                ),
            },
    {
        let raw = match self.as_scalar() {
            Some(s) => s,
            None => {
                return Err(
                    YamlError::custom("expected scalar for boolean conversion", Position::start()),
                );
            },
        };
        let word = to_ascii_lowercase(trim_str(raw));
        let w = word.as_str();
        if str_eq(w, "true") || str_eq(w, "yes") || str_eq(w, "on") || str_eq(w, "1") {
            Ok(true)
        } else if str_eq(w, "false") || str_eq(w, "no") || str_eq(w, "off") || str_eq(w, "0") {
            Ok(false)
        } else {
            let msg = message("cannot parse '", w, "' as boolean");
            Err(YamlError::custom(msg.as_str(), Position::start()))
        }
    }

    /// Parses the scalar value as an `i64` integer.
    pub fn to_i64(&self) -> (r: Result<i64>)
        ensures
            match self@ {
                Node::Scalar(raw) => match parse_int(trim(raw)) {
                    Ok(v) => r matches Ok(x) && x == v,
                    Err(k) => r matches Err(e) && e@ == conversion_fault(
                        "cannot parse '"@ + raw + "' as integer: "@ + int_error_text(k),
                    ),
                },
                _ => r matches Err(e) && e@ == conversion_fault(
                    "expected scalar for integer conversion"@,
                ),
            },
    {
        let raw = match self.as_scalar() {
            Some(s) => s,
            None => {
                return Err(
                    YamlError::custom("expected scalar for integer conversion", Position::start()),
                );
            },
        };
        match parse_i64(trim_str(raw)) {
            Ok(v) => Ok(v),
            Err(k) => {
                let reason = match k {
                    IntError::Empty => "cannot parse integer from empty string",
                    IntError::InvalidDigit => "invalid digit found in string",
                    IntError::PosOverflow => "number too large to fit in target type",
                    IntError::NegOverflow => "number too small to fit in target type",
                };
                let mut msg = message("cannot parse '", raw, "' as integer: ");
                msg.append(reason);
                Err(YamlError::custom(msg.as_str(), Position::start()))
            },
        }
    }
}


// ==============================================================================
// Display form
// ==============================================================================

/// The text that [`Yaml::to_string`] writes for `n` when its lines are
/// indented by `indent`: a scalar as its text, an empty sequence as `[]`, an
/// empty mapping as `{}`, and other collections in block style, one line per
/// element, nested collections on the following lines, two spaces deeper.
pub open spec fn format_node(n: Node, indent: Seq<char>) -> Seq<char>
    decreases n, 0int,
{
    match n {
        Node::Scalar(s) => s,
        Node::Sequence(items) => if items.len() == 0 {
            seq!['[', ']']
        } else {
            format_items(items, 0, indent)
        },
        Node::Mapping(es) => if es.len() == 0 {
            seq!['{', '}']
        } else {
            format_entries(es, 0, indent)
        },
    }
}

/// What a block collection writes after one element: a scalar on the same
/// line, a collection on the following lines, indented two spaces deeper.
pub open spec fn format_tail(v: Node, indent: Seq<char>) -> Seq<char>
    decreases v, 1int,
{
    match v {
        Node::Scalar(s) => s,
        _ => seq!['\n'] + format_node(v, indent + seq![' ', ' ']),
    }
}

/// The lines of the elements `items[i..]` of a block sequence.
pub open spec fn format_items(items: Seq<Node>, i: int, indent: Seq<char>) -> Seq<char>
    decreases items, items.len() - i,
{
    if i < 0 || i >= items.len() {
        Seq::empty()
    } else {
        let sep = if i > 0 {
            seq!['\n']
        } else {
            Seq::empty()
        };
        sep + indent + seq!['-', ' '] + format_tail(items[i], indent) + format_items(
            items,
            i + 1,
            indent,
        )
    }
}

/// The lines of the entries `es[i..]` of a block mapping.
pub open spec fn format_entries(es: Seq<Pair>, i: int, indent: Seq<char>) -> Seq<char>
    decreases es, es.len() - i,
{
    if i < 0 || i >= es.len() {
        Seq::empty()
    } else {
        let sep = if i > 0 {
            seq!['\n']
        } else {
            Seq::empty()
        };
        sep + indent + format_node(es[i].key, Seq::empty()) + seq![':', ' '] + format_tail(
            es[i].value,
            indent,
        ) + format_entries(es, i + 1, indent)
    }
}

/// Appends the display form of `n`, indented by `indent`, to `out`.
fn format_into(n: &Yaml, out: &mut String, indent: &str)
    ensures
        final(out)@ == old(out)@ + format_node(n@, indent@),
    decreases n@, 0int,
{
    match n {
        Yaml::Scalar(s) => {
            out.append(s);
        },
        Yaml::Sequence(items) => {
            proof {
                lemma_view_sequence(*items);
            }
            let ghost q = nodes(items@);
            if items.len() == 0 {
                out.append("[]");
                proof {
                    reveal_strlit("[]");
                    assert("[]"@ =~= seq!['[', ']']);
                }
                return;
            }
            let mut deeper = String::from_str(indent);
            deeper.append("  ");
            proof {
                reveal_strlit("  ");
                assert(deeper@ =~= indent@ + seq![' ', ' ']);
            }
            let ghost start = old(out)@;
            let mut i: usize = 0;
            while i < items.len()
                invariant
                    q == nodes(items@),
                    n@ == Node::Sequence(q),
                    deeper@ == indent@ + seq![' ', ' '],
                    i <= items@.len(),
                    start + format_items(q, 0, indent@) == out@ + format_items(q, i as int, indent@),
                decreases items@.len() - i,
            {
                let ghost before = out@;
                if i > 0 {
                    push_char(out, '\n');
                }
                out.append(indent);
                out.append("- ");
                match &items[i] {
                    Yaml::Scalar(s) => {
                        out.append(s);
                    },
                    _ => {
                        push_char(out, '\n');
                        proof {
                            assert(decreases_to!(n@ => n@->Sequence_0));
                            assert(decreases_to!(q => q[i as int]));
                        }
                        format_into(&items[i], out, deeper.as_str());
                    },
                }
                proof {
                    reveal_strlit("- ");
                    assert("- "@ =~= seq!['-', ' ']);
                    let sep = if i > 0 {
                        seq!['\n']
                    } else {
                        Seq::<char>::empty()
                    };
                    assert(out@ =~= before + (sep + indent@ + seq!['-', ' '] + format_tail(q[i as int], indent@)));
                    assert(format_items(q, i as int, indent@) =~= (sep + indent@ + seq!['-', ' '] + format_tail(q[i as int], indent@)) + format_items(q, i + 1, indent@));
                }
                i = i + 1;
            }
            proof {
                assert(start + format_items(q, 0, indent@) =~= out@);
            }
        },
        Yaml::Mapping(entries) => {
            proof {
                lemma_view_mapping(*entries);
            }
            let ghost es = pairs(entries@);
            if entries.len() == 0 {
                out.append("{}");
                proof {
                    reveal_strlit("{}");
                    assert("{}"@ =~= seq!['{', '}']);
                }
                return;
            }
            let mut deeper = String::from_str(indent);
            deeper.append("  ");
            proof {
                reveal_strlit("  ");
                assert(deeper@ =~= indent@ + seq![' ', ' ']);
            }
            let ghost start = old(out)@;
            let mut i: usize = 0;
            while i < entries.len()
                invariant
                    es == pairs(entries@),
                    n@ == Node::Mapping(es),
                    deeper@ == indent@ + seq![' ', ' '],
                    i <= entries@.len(),
                    start + format_entries(es, 0, indent@) == out@ + format_entries(es, i as int, indent@),
                decreases entries@.len() - i,
            {
                let ghost before = out@;
                if i > 0 {
                    push_char(out, '\n');
                }
                out.append(indent);
                let entry = &entries[i];
                proof {
                    assert(es[i as int] == entry@);
                    assert(decreases_to!(n@ => n@->Mapping_0));
                    assert(decreases_to!(es => es[i as int]));
                    assert(decreases_to!(es[i as int] => es[i as int].key));
                    assert(decreases_to!(es[i as int] => es[i as int].value));
                    reveal_strlit("");
                    assert(""@ =~= Seq::<char>::empty());
                }
                format_into(&entry.key, out, "");
                out.append(": ");
                match &entry.value {
                    Yaml::Scalar(s) => {
                        out.append(s);
                    },
                    _ => {
                        push_char(out, '\n');
                        format_into(&entry.value, out, deeper.as_str());
                    },
                }
                proof {
                    reveal_strlit(": ");
                    assert(": "@ =~= seq![':', ' ']);
                    let sep = if i > 0 {
                        seq!['\n']
                    } else {
                        Seq::<char>::empty()
                    };
                    let line = sep + indent@ + format_node(es[i as int].key, Seq::empty()) + seq![':', ' '] + format_tail(es[i as int].value, indent@);
                    assert(out@ =~= before + line);
                    assert(format_entries(es, i as int, indent@) =~= line + format_entries(es, i + 1, indent@));
                }
                i = i + 1;
            }
            proof {
                assert(start + format_entries(es, 0, indent@) =~= out@);
            }
        },
    }
}

impl<'a> Yaml<'a> {
    /// The display form of this node: see [`format_node`].
    pub fn to_string(&self) -> (s: String)
        ensures
            s@ == format_node(self@, Seq::empty()),
    {
        let mut out = String::new();
        proof {
            reveal_strlit("");
            assert(""@ =~= Seq::<char>::empty());
        }
        format_into(self, &mut out, "");
        proof {
            assert(out@ =~= format_node(self@, Seq::empty()));
        }
        out
    }
}


// ==============================================================================
// Copies
// ==============================================================================

/// A copy of `y`: the same node, sharing the scalar slices.
fn copy_node<'a>(y: &Yaml<'a>) -> (r: Yaml<'a>)
    ensures
        r@ == y@,
    decreases y@,
{
    match y {
        Yaml::Scalar(s) => Yaml::Scalar(*s),
        Yaml::Sequence(items) => {
            proof {
                lemma_view_sequence(*items);
            }
            let ghost q = nodes(items@);
            let mut out: Vec<Yaml<'a>> = Vec::new();
            let mut i: usize = 0;
            while i < items.len()
                invariant
                    q == nodes(items@),
                    y@ == Node::Sequence(q),
                    i <= items@.len(),
                    out@.len() == i,
                    forall|j: int| 0 <= j < i ==> (#[trigger] out@[j])@ == q[j],
                decreases items@.len() - i,
            {
                proof {
                    assert(decreases_to!(y@ => y@->Sequence_0));
                    assert(decreases_to!(q => q[i as int]));
                }
                let c = copy_node(&items[i]);
                out.push(c);
                i = i + 1;
            }
            proof {
                lemma_view_sequence(out);
                assert(nodes(out@) =~= q);
            }
            Yaml::Sequence(out)
        },
        Yaml::Mapping(entries) => {
            proof {
                lemma_view_mapping(*entries);
            }
            let ghost es = pairs(entries@);
            let mut out: Vec<Entry<'a>> = Vec::new();
            let mut i: usize = 0;
            while i < entries.len()
                invariant
                    es == pairs(entries@),
                    y@ == Node::Mapping(es),
                    i <= entries@.len(),
                    out@.len() == i,
                    forall|j: int| 0 <= j < i ==> (#[trigger] out@[j])@ == es[j],
                decreases entries@.len() - i,
            {
                let e = &entries[i];
                proof {
                    assert(es[i as int] == e@);
                    assert(decreases_to!(y@ => y@->Mapping_0));
                    assert(decreases_to!(es => es[i as int]));
                    assert(decreases_to!(es[i as int] => es[i as int].key));
                    assert(decreases_to!(es[i as int] => es[i as int].value));
                }
                let k = copy_node(&e.key);
                let v = copy_node(&e.value);
                out.push(Entry { key: k, value: v });
                i = i + 1;
            }
            proof {
                lemma_view_mapping(out);
                assert(pairs(out@) =~= es);
            }
            Yaml::Mapping(out)
        },
    }
}

impl<'a> Clone for Yaml<'a> {
    /// A copy of this node, sharing the scalar slices.
    fn clone(&self) -> (r: Self)
        ensures
            r@ == self@,
    {
        copy_node(self)
    }
}

impl<'a> Clone for Entry<'a> {
    /// A copy of this entry, sharing the scalar slices.
    fn clone(&self) -> (r: Self)
        ensures
            r@ == self@,
    {
        Entry { key: copy_node(&self.key), value: copy_node(&self.value) }
    }
}

} // verus!
