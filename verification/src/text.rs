//! Character-level helpers shared by the scanner and the parsers: Unicode
//! whitespace, trimming, UTF-8 widths, and conversion of a `&str` to its
//! characters.

use vstd::prelude::*;

verus! {

/// The Unicode `White_Space` property, which is what `char::is_whitespace` tests.
pub open spec fn is_ws(c: char) -> bool {
    let u = c as u32;
    ||| (0x09 <= u && u <= 0x0D)
    ||| u == 0x20
    ||| u == 0x85
    ||| u == 0xA0
    ||| u == 0x1680
    ||| (0x2000 <= u && u <= 0x200A)
    ||| u == 0x2028
    ||| u == 0x2029
    ||| u == 0x202F
    ||| u == 0x205F
    ||| u == 0x3000
}

/// Executable form of [`is_ws`].
pub fn is_whitespace(c: char) -> (b: bool)
    ensures
        b == is_ws(c),
{
    let u = c as u32;
    (0x09 <= u && u <= 0x0D) || u == 0x20 || u == 0x85 || u == 0xA0 || u == 0x1680 || (0x2000
        <= u && u <= 0x200A) || u == 0x2028 || u == 0x2029 || u == 0x202F || u == 0x205F || u
        == 0x3000
}

/// Number of bytes in the UTF-8 encoding of `c`.
pub open spec fn char_width(c: char) -> nat {
    let u = c as u32;
    if u < 0x80 {
        1
    } else if u < 0x800 {
        2
    } else if u < 0x10000 {
        3
    } else {
        4
    }
}

/// Executable form of [`char_width`].
pub fn utf8_width(c: char) -> (w: usize)
    ensures
        w == char_width(c),
        1 <= w <= 4,
{
    let u = c as u32;
    if u < 0x80 {
        1
    } else if u < 0x800 {
        2
    } else if u < 0x10000 {
        3
    } else {
        4
    }
}

/// Number of bytes in the UTF-8 encoding of `s`.
pub open spec fn utf8_len(s: Seq<char>) -> nat
    decreases s.len(),
{
    if s.len() == 0 {
        0
    } else {
        utf8_len(s.drop_last()) + char_width(s.last())
    }
}

pub proof fn lemma_utf8_len_concat(a: Seq<char>, b: Seq<char>)
    ensures
        utf8_len(a + b) == utf8_len(a) + utf8_len(b),
    decreases b.len(),
{
    if b.len() == 0 {
        assert(a + b =~= a);
    } else {
        lemma_utf8_len_concat(a, b.drop_last());
        assert((a + b).drop_last() =~= a + b.drop_last());
    }
}

pub proof fn lemma_utf8_len_bounds(s: Seq<char>)
    ensures
        s.len() <= utf8_len(s) <= 4 * s.len(),
    decreases s.len(),
{
    if s.len() > 0 {
        lemma_utf8_len_bounds(s.drop_last());
    }
}

/// The bytes of a slice of `s` are at most the bytes of `s`.
pub proof fn lemma_utf8_len_subrange(s: Seq<char>, i: int, j: int)
    requires
        0 <= i <= j <= s.len(),
    ensures
        utf8_len(s.subrange(i, j)) + utf8_len(s.subrange(0, i)) + utf8_len(s.subrange(j, s.len() as int))
            == utf8_len(s),
        utf8_len(s.subrange(i, j)) <= utf8_len(s),
{
    let a = s.subrange(0, i);
    let b = s.subrange(i, j);
    let c = s.subrange(j, s.len() as int);
    lemma_utf8_len_concat(a, b);
    lemma_utf8_len_concat(a + b, c);
    assert(a + b + c =~= s);
}

/// Extending a prefix by one character adds that character's width.
pub proof fn lemma_utf8_len_take_next(s: Seq<char>, i: int)
    requires
        0 <= i < s.len(),
    ensures
        utf8_len(s.take(i + 1)) == utf8_len(s.take(i)) + char_width(s[i]),
{
    assert(s.take(i + 1).drop_last() =~= s.take(i));
}

/// Index of the first character at or after `i` that is not whitespace
/// (or `s.len()` when there is none).
pub open spec fn skip_ws_from(s: Seq<char>, i: int) -> int
    decreases s.len() - i,
{
    if 0 <= i < s.len() && is_ws(s[i]) {
        skip_ws_from(s, i + 1)
    } else {
        i
    }
}

/// Index just past the last character before `j` that is not whitespace
/// (or `0` when there is none).
pub open spec fn back_ws_from(s: Seq<char>, j: int) -> int
    decreases j,
{
    if 0 < j <= s.len() && is_ws(s[j - 1]) {
        back_ws_from(s, j - 1)
    } else {
        j
    }
}

pub proof fn lemma_skip_ws_from(s: Seq<char>, i: int)
    requires
        0 <= i <= s.len(),
    ensures
        i <= skip_ws_from(s, i) <= s.len(),
        forall|k: int| i <= k < skip_ws_from(s, i) ==> is_ws(#[trigger] s[k]),
        skip_ws_from(s, i) < s.len() ==> !is_ws(s[skip_ws_from(s, i)]),
    decreases s.len() - i,
{
    if i < s.len() && is_ws(s[i]) {
        lemma_skip_ws_from(s, i + 1);
    }
}

pub proof fn lemma_back_ws_from(s: Seq<char>, j: int)
    requires
        0 <= j <= s.len(),
    ensures
        0 <= back_ws_from(s, j) <= j,
        forall|k: int| back_ws_from(s, j) <= k < j ==> is_ws(#[trigger] s[k]),
        back_ws_from(s, j) > 0 ==> !is_ws(s[back_ws_from(s, j) - 1]),
    decreases j,
{
    if 0 < j && is_ws(s[j - 1]) {
        lemma_back_ws_from(s, j - 1);
    }
}

/// Start index of `s.trim()` within `s`.
pub open spec fn trim_lo(s: Seq<char>) -> int {
    skip_ws_from(s, 0)
}

/// End index of `s.trim()` within `s`.
pub open spec fn trim_hi(s: Seq<char>) -> int {
    let lo = skip_ws_from(s, 0);
    let hi = back_ws_from(s, s.len() as int);
    if hi < lo {
        lo
    } else {
        hi
    }
}

/// `s` without leading and trailing whitespace (`str::trim`).
pub open spec fn trim(s: Seq<char>) -> Seq<char> {
    s.subrange(trim_lo(s), trim_hi(s))
}

/// `s` without leading whitespace (`str::trim_start`).
pub open spec fn trim_start(s: Seq<char>) -> Seq<char> {
    s.subrange(skip_ws_from(s, 0), s.len() as int)
}

/// `s` without trailing whitespace (`str::trim_end`).
pub open spec fn trim_end(s: Seq<char>) -> Seq<char> {
    s.subrange(0, back_ws_from(s, s.len() as int))
}

pub proof fn lemma_trim_bounds(s: Seq<char>)
    ensures
        0 <= trim_lo(s) <= trim_hi(s) <= s.len(),
{
    lemma_skip_ws_from(s, 0);
    lemma_back_ws_from(s, s.len() as int);
}

/// The characters of `s`, in order.
pub fn chars_of(s: &str) -> (v: Vec<char>)
    ensures
        v@ == s@,
{
    let mut v: Vec<char> = Vec::new();
    for c in it: s.chars()
        invariant
            v@ == it.seq().take(it.index() as int),
            it.seq() == s@,
    {
        v.push(c);
    }
    v
}

/// Executable form of [`skip_ws_from`].
pub fn skip_ws(cs: &Vec<char>, i: usize) -> (r: usize)
    requires
        i <= cs@.len(),
    ensures
        r == skip_ws_from(cs@, i as int),
{
    let mut k = i;
    while k < cs.len() && is_whitespace(cs[k])
        invariant
            i <= k <= cs@.len(),
            skip_ws_from(cs@, i as int) == skip_ws_from(cs@, k as int),
        decreases cs@.len() - k,
    {
        k = k + 1;
    }
    k
}

/// Executable form of [`back_ws_from`].
pub fn back_ws(cs: &Vec<char>, j: usize) -> (r: usize)
    requires
        j <= cs@.len(),
    ensures
        r == back_ws_from(cs@, j as int),
{
    let mut k = j;
    while k > 0 && is_whitespace(cs[k - 1])
        invariant
            k <= j <= cs@.len(),
            back_ws_from(cs@, j as int) == back_ws_from(cs@, k as int),
        decreases k,
    {
        k = k - 1;
    }
    k
}

/// `s.trim()`, borrowing from `s`.
pub fn trim_str<'a>(s: &'a str) -> (r: &'a str)
    ensures
        r@ == trim(s@),
{
    let cs = chars_of(s);
    let lo = skip_ws(&cs, 0);
    let hi = back_ws(&cs, cs.len());
    proof {
        lemma_trim_bounds(s@);
    }
    let hi = if hi < lo {
        lo
    } else {
        hi
    };
    s.substring_char(lo, hi)
}

/// `s.trim_start()`, borrowing from `s`.
pub fn trim_start_str<'a>(s: &'a str) -> (r: &'a str)
    ensures
        r@ == trim_start(s@),
{
    let cs = chars_of(s);
    let lo = skip_ws(&cs, 0);
    proof {
        lemma_skip_ws_from(s@, 0);
    }
    s.substring_char(lo, cs.len())
}

/// `s.trim_end()`, borrowing from `s`.
pub fn trim_end_str<'a>(s: &'a str) -> (r: &'a str)
    ensures
        r@ == trim_end(s@),
{
    let cs = chars_of(s);
    let hi = back_ws(&cs, cs.len());
    proof {
        lemma_back_ws_from(s@, s@.len() as int);
    }
    s.substring_char(0, hi)
}



/// Whether two strings hold the same characters (`str == str`).
pub fn str_eq(a: &str, b: &str) -> (r: bool)
    ensures
        r == (a@ == b@),
{
    let ca = chars_of(a);
    let cb = chars_of(b);
    if ca.len() != cb.len() {
        return false;
    }
    let mut i: usize = 0;
    while i < ca.len()
        invariant
            ca@ == a@,
            cb@ == b@,
            ca@.len() == cb@.len(),
            i <= ca@.len(),
            forall|k: int| 0 <= k < i ==> ca@[k] == cb@[k],
        decreases ca@.len() - i,
    {
        if ca[i] != cb[i] {
            return false;
        }
        i = i + 1;
    }
    assert(a@ =~= b@);
    true
}

/// First index at or after `i` that holds `c` (or `t.len()`).
pub open spec fn find_from(t: Seq<char>, i: int, c: char) -> int
    decreases t.len() - i,
{
    if i < 0 || i >= t.len() {
        t.len() as int
    } else if t[i] == c {
        i
    } else {
        find_from(t, i + 1, c)
    }
}

pub proof fn lemma_find_from(t: Seq<char>, i: int, c: char)
    requires
        0 <= i <= t.len(),
    ensures
        i <= find_from(t, i, c) <= t.len(),
        find_from(t, i, c) < t.len() ==> t[find_from(t, i, c)] == c,
        forall|m: int| i <= m < find_from(t, i, c) ==> t[m] != c,
    decreases t.len() - i,
{
    if i < t.len() && t[i] != c {
        lemma_find_from(t, i + 1, c);
    }
}

pub fn find_char_from(cs: &Vec<char>, k: usize, c: char) -> (r: usize)
    requires
        k <= cs@.len(),
    ensures
        r == find_from(cs@, k as int, c),
        k <= r <= cs@.len(),
{
    proof {
        lemma_find_from(cs@, k as int, c);
    }
    let mut i = k;
    while i < cs.len()
        invariant
            k <= i <= cs@.len(),
            find_from(cs@, k as int, c) == find_from(cs@, i as int, c),
        decreases cs@.len() - i,
    {
        if cs[i] == c {
            return i;
        }
        i = i + 1;
    }
    i
}



/// Number of bytes of the UTF-8 encoding of `s`.
pub fn byte_len(s: &str) -> (r: usize)
    requires
        utf8_len(s@) <= usize::MAX,
    ensures
        r == utf8_len(s@),
{
    let cs = chars_of(s);
    let ghost t = s@;
    let mut k: usize = 0;
    let mut sum: usize = 0;
    proof {
        assert(t.take(0) =~= Seq::<char>::empty());
    }
    while k < cs.len()
        invariant
            cs@ == t,
            k <= t.len(),
            sum == utf8_len(t.take(k as int)),
            utf8_len(t) <= usize::MAX,
        decreases t.len() - k,
    {
        proof {
            lemma_utf8_len_take_next(t, k as int);
            lemma_utf8_len_subrange(t, 0, k + 1);
            assert(t.subrange(0, k + 1) =~= t.take(k + 1));
        }
        sum = sum + utf8_width(cs[k]);
        k = k + 1;
    }
    proof {
        assert(t.take(t.len() as int) =~= t);
    }
    sum
}



/// Appends `c` to `s` (std's `String::push`, which vstd does not specify):
/// the characters of `s` afterwards are those before, then `c`.
#[verifier::external_body]
pub(crate) fn push_char(s: &mut String, c: char)
    ensures
        final(s)@ == old(s)@.push(c),
{
    s.push(c);
}

/// `c` with ASCII `A`..`Z` mapped to `a`..`z` (`char::to_ascii_lowercase`).
pub open spec fn ascii_lower(c: char) -> char {
    if 'A' <= c && c <= 'Z' {
        ((c as u32) + 32) as char
    } else {
        c
    }
}

/// `s` with every ASCII uppercase letter lowered (`str::to_ascii_lowercase`).
pub open spec fn lower(s: Seq<char>) -> Seq<char> {
    Seq::new(s.len(), |i: int| ascii_lower(s[i]))
}

/// A copy of `s` with ASCII uppercase letters lowered.
pub fn to_ascii_lowercase(s: &str) -> (r: String)
    ensures
        r@ == lower(s@),
{
    let cs = chars_of(s);
    let mut out = String::new();
    let mut i: usize = 0;
    while i < cs.len()
        invariant
            cs@ == s@,
            i <= cs@.len(),
            out@ == lower(s@).take(i as int),
        decreases cs@.len() - i,
    {
        let c = cs[i];
        let l = if 'A' <= c && c <= 'Z' {
            ((c as u8) + 32) as char
        } else {
            c
        };
        push_char(&mut out, l);
        proof {
            assert(lower(s@).take(i + 1) =~= lower(s@).take(i as int).push(l));
        }
        i = i + 1;
    }
    proof {
        assert(lower(s@).take(cs@.len() as int) =~= lower(s@));
    }
    out
}

/// The decimal digit character for `d` in `0..10`.
pub open spec fn digit_char(d: int) -> char {
    (48 + d) as char
}

/// The decimal numeral of `n`, without leading zeros.
pub open spec fn decimal(n: nat) -> Seq<char>
    decreases n,
{
    if n < 10 {
        seq![digit_char(n as int)]
    } else {
        decimal(n / 10).push(digit_char((n % 10) as int))
    }
}

/// Appends the decimal numeral of `n` to `s`.
pub fn push_decimal(s: &mut String, n: usize)
    ensures
        final(s)@ == old(s)@ + decimal(n as nat),
    decreases n,
{
    if n >= 10 {
        push_decimal(s, n / 10);
    }
    let d = (n % 10) as u8;
    let c = (48u8 + d) as char;
    push_char(s, c);
    proof {
        assert(c == digit_char((n % 10) as int));
        if n >= 10 {
            assert(old(s)@ + decimal(n as nat) =~= old(s)@ + decimal((n / 10) as nat) + seq![c]);
        } else {
            assert(old(s)@ + decimal(n as nat) =~= old(s)@.push(c));
        }
    }
}

} // verus!
