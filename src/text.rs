//! Byte classes of the lexical grammar and splitting a `str` between ASCII bytes.
use vstd::prelude::*;
use vstd::utf8::*;
use vstd::string::*;

verus! {

broadcast use {encode_utf8_valid_utf8, is_char_boundary_iff_not_is_continuation_byte};

/// The byte classes that the lexer scans runs of.
#[derive(Clone, Copy, PartialEq, Eq, Debug)]
pub enum Class {
    /// space, tab, carriage return, line feed
    Space,
    /// ASCII letters and `_`
    LabelStart,
    /// ASCII letters, digits and `_`
    LabelChar,
    /// ASCII letters, `_` and `:`
    MetricStart,
    /// ASCII letters, digits, `_` and `:`
    MetricChar,
}

pub open spec fn is_alpha(b: u8) -> bool {
    (0x41 <= b <= 0x5a) || (0x61 <= b <= 0x7a)
}

pub open spec fn is_digit(b: u8) -> bool {
    0x30 <= b <= 0x39
}

pub open spec fn in_class(c: Class, b: u8) -> bool {
    match c {
        Class::Space => b == 0x20 || b == 0x09 || b == 0x0d || b == 0x0a,
        Class::LabelStart => is_alpha(b) || b == 0x5f,
        Class::LabelChar => is_alpha(b) || is_digit(b) || b == 0x5f,
        Class::MetricStart => is_alpha(b) || b == 0x5f || b == 0x3a,
        Class::MetricChar => is_alpha(b) || is_digit(b) || b == 0x5f || b == 0x3a,
    }
}

/// End of the longest run of bytes of class `c` that starts at `i`.
pub open spec fn run_end(s: Seq<u8>, i: int, c: Class) -> int
    decreases s.len() - i,
{
    if 0 <= i < s.len() && in_class(c, s[i]) {
        run_end(s, i + 1, c)
    } else {
        i
    }
}

pub proof fn lemma_run_end_bounds(s: Seq<u8>, i: int, c: Class)
    requires
        0 <= i <= s.len(),
    ensures
        i <= run_end(s, i, c) <= s.len(),
        forall|k: int| i <= k < run_end(s, i, c) ==> in_class(c, #[trigger] s[k]),
        run_end(s, i, c) == s.len() || !in_class(c, s[run_end(s, i, c)]),
    decreases s.len() - i,
{
    if i < s.len() && in_class(c, s[i]) {
        lemma_run_end_bounds(s, i + 1, c);
    }
}

pub open spec fn is_ascii_byte(b: u8) -> bool {
    b < 0x80
}

/// Every class of the grammar holds ASCII bytes only.
pub proof fn lemma_class_ascii(c: Class, b: u8)
    ensures
        in_class(c, b) ==> is_ascii_byte(b),
{
}

/// The position after an ASCII byte that starts a character starts a character too.
pub proof fn lemma_boundary_after_ascii(bytes: Seq<u8>, i: int)
    requires
        valid_utf8(bytes),
        0 <= i < bytes.len(),
        is_char_boundary(bytes, i),
        is_ascii_byte(bytes[i]),
    ensures
        is_char_boundary(bytes, i + 1),
    decreases bytes.len(),
{
    let p = pop_first_scalar(bytes);
    let l = length_of_first_scalar(bytes);
    if i == 0 {
        assert(l == 1);
        assert(is_char_boundary(p, 0));
    } else {
        assert(valid_utf8(p));
        assert(p.len() < bytes.len());
        assert(p[i - l] == bytes[i]);
        lemma_boundary_after_ascii(p, i - l);
    }
}

/// The end of `s`, and the position of an ASCII byte, start a character.
pub proof fn lemma_ascii_boundary(bytes: Seq<u8>, i: int)
    requires
        valid_utf8(bytes),
        0 <= i <= bytes.len(),
        i == bytes.len() || is_ascii_byte(bytes[i]),
    ensures
        is_char_boundary(bytes, i),
{
    is_char_boundary_start_end_of_seq(bytes);
    if i < bytes.len() {
        is_char_boundary_iff_not_is_continuation_byte(bytes, i);
    }
}

/// A run of class bytes from a character start ends at a character start.
pub proof fn lemma_run_boundary(bytes: Seq<u8>, i: int, c: Class)
    requires
        valid_utf8(bytes),
        0 <= i <= bytes.len(),
        is_char_boundary(bytes, i),
    ensures
        is_char_boundary(bytes, run_end(bytes, i, c)),
    decreases bytes.len() - i,
{
    if i < bytes.len() && in_class(c, bytes[i]) {
        lemma_boundary_after_ascii(bytes, i);
        lemma_run_boundary(bytes, i + 1, c);
    }
}

/// `head` and `tail` are `s` cut at byte `n`.
pub open spec fn cut_at(s: &str, n: int, head: &str, tail: &str) -> bool {
    &&& 0 <= n <= s.spec_bytes().len()
    &&& head.spec_bytes() == s.spec_bytes().subrange(0, n)
    &&& tail.spec_bytes() == s.spec_bytes().subrange(n, s.spec_bytes().len() as int)
}

/// Splits `s` at byte `i`, which starts a character.
pub fn split_at_boundary<'a>(s: &'a str, i: usize) -> (r: (&'a str, &'a str))
    requires
        i <= s.spec_bytes().len(),
        is_char_boundary(s.spec_bytes(), i as int),
    ensures
        cut_at(s, i as int, r.0, r.1),
{
    s.split_at(i)
}

/// Scans the run of bytes of class `c` that starts at `i` and returns its end.
pub fn scan_run(b: &[u8], i: usize, c: Class) -> (r: usize)
    requires
        i <= b@.len(),
    ensures
        r == run_end(b@, i as int, c),
{
    let mut j: usize = i;
    while j < b.len() && class_has(c, b[j])
        invariant
            i <= j <= b@.len(),
            run_end(b@, j as int, c) == run_end(b@, i as int, c),
        decreases b@.len() - j,
    {
        j = j + 1;
    }
    j
}

/// Whether byte `b` belongs to class `c`.
pub fn class_has(c: Class, b: u8) -> (r: bool)
    ensures
        r == in_class(c, b),
{
    let alpha = (0x41 <= b && b <= 0x5a) || (0x61 <= b && b <= 0x7a);
    let digit = 0x30 <= b && b <= 0x39;
    match c {
        Class::Space => b == 0x20 || b == 0x09 || b == 0x0d || b == 0x0a,
        Class::LabelStart => alpha || b == 0x5f,
        Class::LabelChar => alpha || digit || b == 0x5f,
        Class::MetricStart => alpha || b == 0x5f || b == 0x3a,
        Class::MetricChar => alpha || digit || b == 0x5f || b == 0x3a,
    }
}

} // verus!
