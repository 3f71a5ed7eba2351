//! Character classes and small string helpers shared by both parsers.
use vstd::prelude::*;

verus! {

/// Unicode `White_Space` code points, the set that `char::is_whitespace` accepts.
pub open spec fn is_space(c: char) -> bool {
    let n = c as u32;
    (0x09 <= n && n <= 0x0d) || n == 0x20 || n == 0x85 || n == 0xa0 || n == 0x1680
        || (0x2000 <= n && n <= 0x200a) || n == 0x2028 || n == 0x2029 || n == 0x202f
        || n == 0x205f || n == 0x3000
}

/// ASCII letters and digits.
pub open spec fn is_alnum(c: char) -> bool {
    ('a' <= c && c <= 'z') || ('A' <= c && c <= 'Z') || ('0' <= c && c <= '9')
}

pub open spec fn is_digit(c: char) -> bool {
    '0' <= c && c <= '9'
}

/// A set of characters that a cursor can skip over as one run.
#[derive(Clone, Copy, PartialEq, Eq, Structural, Debug)]
pub enum CharClass {
    /// Whitespace.
    Space,
    /// ASCII letters and digits: tag and attribute names.
    Alnum,
    /// Identifier characters of a stylesheet: ASCII letters, digits, `-` and `_`.
    Ident,
    /// ASCII digits.
    Digit,
    /// ASCII digits and `.`: a numeric literal.
    Number,
    /// Anything but an ASCII digit: the separators between color components.
    NonDigit,
    /// Anything but an ASCII digit or `;`: what may follow a color's last component.
    Separator,
    /// Anything but the given character.
    Not(char),
}

pub open spec fn in_class(c: char, k: CharClass) -> bool {
    match k {
        CharClass::Space => is_space(c),
        CharClass::Alnum => is_alnum(c),
        CharClass::Ident => is_alnum(c) || c == '-' || c == '_',
        CharClass::Digit => is_digit(c),
        CharClass::Number => is_digit(c) || c == '.',
        CharClass::NonDigit => !is_digit(c),
        CharClass::Separator => !is_digit(c) && c != ';',
        CharClass::Not(x) => c != x,
    }
}

/// The end of the run of characters of class `k` that starts at `p`.
pub open spec fn scan_end(s: Seq<char>, p: int, k: CharClass) -> int
    decreases s.len() - p,
{
    if 0 <= p < s.len() && in_class(s[p], k) {
        scan_end(s, p + 1, k)
    } else {
        p
    }
}

pub proof fn lemma_scan_end(s: Seq<char>, p: int, k: CharClass)
    requires
        0 <= p <= s.len(),
    ensures
        p <= scan_end(s, p, k) <= s.len(),
        forall|i: int| p <= i < scan_end(s, p, k) ==> in_class(#[trigger] s[i], k),
        scan_end(s, p, k) < s.len() ==> !in_class(s[scan_end(s, p, k)], k),
    decreases s.len() - p,
{
    if p < s.len() && in_class(s[p], k) {
        lemma_scan_end(s, p + 1, k);
    }
}

/// A run of class `k` from `p` up to `e`, where it stops, is what `scan_end` finds.
pub proof fn lemma_scan_run(s: Seq<char>, p: int, e: int, k: CharClass)
    requires
        0 <= p <= e <= s.len(),
        forall|i: int| p <= i < e ==> in_class(#[trigger] s[i], k),
        e == s.len() || !in_class(s[e], k),
    ensures
        scan_end(s, p, k) == e,
    decreases e - p,
{
    if p < e {
        lemma_scan_run(s, p + 1, e, k);
    }
}

/// Whether `s` holds `lit` at position `p`.
pub open spec fn starts_at(s: Seq<char>, p: int, lit: Seq<char>) -> bool {
    0 <= p && p + lit.len() <= s.len() && s.subrange(p, p + lit.len()) == lit
}

/// The first position at or after `p` where `lit` starts, or `s.len()` when there is none.
pub open spec fn find_from(s: Seq<char>, p: int, lit: Seq<char>) -> int
    decreases s.len() - p,
{
    if p >= s.len() {
        s.len() as int
    } else if starts_at(s, p, lit) {
        p
    } else {
        find_from(s, p + 1, lit)
    }
}

pub proof fn lemma_find_from(s: Seq<char>, p: int, lit: Seq<char>)
    requires
        0 <= p <= s.len(),
    ensures
        p <= find_from(s, p, lit) <= s.len(),
        find_from(s, p, lit) < s.len() ==> starts_at(s, find_from(s, p, lit), lit),
    decreases s.len() - p,
{
    if p < s.len() && !starts_at(s, p, lit) {
        lemma_find_from(s, p + 1, lit);
    }
}

pub fn has_class(c: char, k: CharClass) -> (r: bool)
    ensures
        r == in_class(c, k),
{
    match k {
        CharClass::Space => space(c),
        CharClass::Alnum => ('a' <= c && c <= 'z') || ('A' <= c && c <= 'Z') || ('0' <= c && c <= '9'),
        CharClass::Ident => ('a' <= c && c <= 'z') || ('A' <= c && c <= 'Z') || ('0' <= c && c <= '9')
            || c == '-' || c == '_',
        CharClass::Digit => '0' <= c && c <= '9',
        CharClass::Number => ('0' <= c && c <= '9') || c == '.',
        CharClass::NonDigit => !('0' <= c && c <= '9'),
        CharClass::Separator => !('0' <= c && c <= '9') && c != ';',
        CharClass::Not(x) => c != x,
    }
}

/// Position after the run of class `k` that starts at `p`.
pub fn scan(s: &Vec<char>, p: usize, k: CharClass) -> (r: usize)
    requires
        p <= s@.len(),
    ensures
        r == scan_end(s@, p as int, k),
{
    let mut i = p;
    while i < s.len() && has_class(s[i], k)
        invariant
            p <= i <= s@.len(),
            scan_end(s@, i as int, k) == scan_end(s@, p as int, k),
        decreases s@.len() - i,
    {
        i = i + 1;
    }
    i
}

/// Whether `s` holds `lit` at position `p`.
pub fn holds_at(s: &Vec<char>, p: usize, lit: &Vec<char>) -> (r: bool)
    requires
        p <= s@.len(),
    ensures
        r == starts_at(s@, p as int, lit@),
{
    if lit.len() > s.len() - p {
        return false;
    }
    let mut i: usize = 0;
    while i < lit.len()
        invariant
            i <= lit@.len(),
            p + lit@.len() <= s@.len(),
            s@.len() == s.len(),
            forall|j: int| 0 <= j < i ==> s@[p + j] == lit@[j],
        decreases lit@.len() - i,
    {
        if s[p + i] != lit[i] {
            assert(s@.subrange(p as int, p + lit@.len())[i as int] != lit@[i as int]);
            return false;
        }
        i = i + 1;
    }
    assert(s@.subrange(p as int, p + lit@.len()) =~= lit@);
    true
}

/// First position at or after `p` where `lit` starts, or the length of `s`.
pub fn find(s: &Vec<char>, p: usize, lit: &Vec<char>) -> (r: usize)
    requires
        p <= s@.len(),
    ensures
        r == find_from(s@, p as int, lit@),
{
    let mut i = p;
    while i < s.len() && !holds_at(s, i, lit)
        invariant
            p <= i <= s@.len(),
            find_from(s@, i as int, lit@) == find_from(s@, p as int, lit@),
        decreases s@.len() - i,
    {
        i = i + 1;
    }
    i
}

pub proof fn lemma_vec_len<T>(v: &Vec<T>)
    ensures
        v@.len() <= usize::MAX,
{
    assert(v.len() == v@.len());
}

pub fn space(c: char) -> (r: bool)
    ensures
        r == is_space(c),
{
    let n = c as u32;
    (0x09 <= n && n <= 0x0d) || n == 0x20 || n == 0x85 || n == 0xa0 || n == 0x1680
        || (0x2000 <= n && n <= 0x200a) || n == 0x2028 || n == 0x2029 || n == 0x202f
        || n == 0x205f || n == 0x3000
}

/// Relies on `String::push`: appends one character.
pub assume_specification[ String::push ](s: &mut String, ch: char)
    ensures
        final(s)@ == old(s)@.push(ch),
;

/// A `String` holding `chars[start..end]`.
pub fn string_of(chars: &Vec<char>, start: usize, end: usize) -> (r: String)
    requires
        start <= end <= chars@.len(),
    ensures
        r@ == chars@.subrange(start as int, end as int),
{
    let mut r = String::new();
    let mut i = start;
    while i < end
        invariant
            start <= i <= end <= chars@.len(),
            r@ == chars@.subrange(start as int, i as int),
        decreases end - i,
    {
        r.push(chars[i]);
        assert(chars@.subrange(start as int, i + 1) == chars@.subrange(start as int, i as int).push(chars@[i as int]));
        i = i + 1;
    }
    r
}

/// The characters of `s`, in order.
pub fn chars_of(s: &str) -> (r: Vec<char>)
    ensures
        r@ == s@,
{
    let mut r: Vec<char> = Vec::new();
    broadcast use vstd::string::group_string_axioms;
    for c in it: s.chars()
        invariant
            r@ == it.history(),
    {
        r.push(c);
    }
    assert(r@ =~= s@);
    r
}

} // verus!
