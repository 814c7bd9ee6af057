//! String and number literals.
use vstd::prelude::*;
use vstd::utf8::*;
use vstd::string::*;
use crate::error::Error;
use crate::helper::{space_len, trimmed, ws};
use crate::literal::StringLiteral;
use crate::text::{
    Class, in_class, run_end, split_at_boundary, lemma_ascii_boundary, lemma_boundary_after_ascii,
    lemma_run_end_bounds,
};

verus! {

broadcast use encode_utf8_valid_utf8;

/// The three delimiters: `"`, `'` and `` ` ``.
pub open spec fn is_delimiter(b: u8) -> bool {
    b == 0x22 || b == 0x27 || b == 0x60
}

/// The bytes that may follow a backslash inside a literal delimited by `d`:
/// `a b f n r t v`, the delimiter and the backslash.
pub open spec fn is_escapable(b: u8, d: u8) -> bool {
    b == d || b == 0x5c || b == 0x61 || b == 0x62 || b == 0x66 || b == 0x6e || b == 0x72
        || b == 0x74 || b == 0x76
}

/// Where the scan of a literal's interior stops.
#[derive(Debug, Clone, Copy, PartialEq, Eq)]
pub enum ScanEnd {
    /// at the closing delimiter, at this byte
    Closed(usize),
    /// at the end of the input, with no closing delimiter
    Unterminated,
    /// at a backslash, at this byte, that no escapable byte follows
    BadEscape(usize),
}

/// Scans the interior of a literal delimited by `d` from byte `i`: plain bytes and
/// two-byte escapes, up to the first delimiter that no backslash escapes.
pub open spec fn scan_interior(s: Seq<u8>, i: int, d: u8) -> ScanEnd
    decreases s.len() - i,
{
    if i < 0 || i >= s.len() {
        ScanEnd::Unterminated
    } else if s[i] == d {
        ScanEnd::Closed(i as usize)
    } else if s[i] == 0x5c {
        if i + 1 < s.len() && is_escapable(s[i + 1], d) {
            scan_interior(s, i + 2, d)
        } else {
            ScanEnd::BadEscape(i as usize)
        }
    } else {
        scan_interior(s, i + 1, d)
    }
}

proof fn lemma_scan_interior(s: Seq<u8>, i: int, d: u8)
    requires
        0 <= i,
        s.len() <= usize::MAX,
    ensures
        match scan_interior(s, i, d) {
            ScanEnd::Closed(j) => i <= j < s.len() && s[j as int] == d,
            ScanEnd::BadEscape(j) => i <= j < s.len() && s[j as int] == 0x5c,
            ScanEnd::Unterminated => true,
        },
    decreases s.len() - i,
{
    if i < s.len() && s[i] != d {
        if s[i] == 0x5c {
            if i + 1 < s.len() && is_escapable(s[i + 1], d) {
                lemma_scan_interior(s, i + 2, d);
            }
        } else {
            lemma_scan_interior(s, i + 1, d);
        }
    }
}

/// `e` is a syntactic error of kind `k` whose residual input is `rest`.
pub open spec fn syntax_error_at(e: Error<&str>, rest: Seq<u8>, k: nom::error::ErrorKind) -> bool {
    &&& e is Nom
    &&& e->Nom_0.spec_bytes() == rest
    &&& e->Nom_1 == k
}

/// What parsing a string literal at the start of `input` gives: surrounding
/// whitespace is skipped, the interior is kept verbatim.
pub open spec fn string_literal_result<'a>(
    input: &'a str,
    r: Result<(&'a str, StringLiteral), Error<&'a str>>,
) -> bool {
    let s = input.spec_bytes();
    let n = space_len(s);
    if n < s.len() && is_delimiter(s[n]) {
        match scan_interior(s, n + 1, s[n]) {
            ScanEnd::Closed(j) => {
                &&& r is Ok
                &&& encode_utf8(r->Ok_0.1.value@) == s.subrange(n + 1, j as int)
                &&& r->Ok_0.0.spec_bytes() == s.subrange(
                    run_end(s, j + 1, Class::Space),
                    s.len() as int,
                )
            },
            ScanEnd::Unterminated => r is Err && syntax_error_at(
                r->Err_0,
                Seq::empty(),
                nom::error::ErrorKind::Tag,
            ),
            ScanEnd::BadEscape(j) => r is Err && syntax_error_at(
                r->Err_0,
                s.subrange(j as int, s.len() as int),
                nom::error::ErrorKind::Escaped,
            ),
        }
    } else {
        r is Err && syntax_error_at(
            r->Err_0,
            s.subrange(n, s.len() as int),
            nom::error::ErrorKind::Tag,
        )
    }
}

fn escapable(b: u8, d: u8) -> (r: bool)
    ensures
        r == is_escapable(b, d),
{
    b == d || b == 0x5c || b == 0x61 || b == 0x62 || b == 0x66 || b == 0x6e || b == 0x72 || b
        == 0x74 || b == 0x76
}

/// Scans a literal's interior from byte `i` of `b`.
pub fn scan_literal_interior(b: &[u8], i: usize, d: u8) -> (r: ScanEnd)
    requires
        i <= b@.len(),
    ensures
        r == scan_interior(b@, i as int, d),
{
    let mut k: usize = i;
    while k < b.len()
        invariant
            i <= k <= b@.len(),
            scan_interior(b@, k as int, d) == scan_interior(b@, i as int, d),
        decreases b@.len() - k,
    {
        let c = b[k];
        if c == d {
            return ScanEnd::Closed(k);
        } else if c == 0x5c {
            if k + 1 < b.len() && escapable(b[k + 1], d) {
                k = k + 2;
            } else {
                return ScanEnd::BadEscape(k);
            }
        } else {
            k = k + 1;
        }
    }
    ScanEnd::Unterminated
}

/// What parsing a string literal that starts exactly at `input`'s first byte gives.
pub open spec fn delimited_literal_result<'a>(
    input: &'a str,
    r: Result<(&'a str, StringLiteral), Error<&'a str>>,
) -> bool {
    let s = input.spec_bytes();
    if s.len() > 0 && is_delimiter(s[0]) {
        match scan_interior(s, 1, s[0]) {
            ScanEnd::Closed(j) => {
                &&& r is Ok
                &&& encode_utf8(r->Ok_0.1.value@) == s.subrange(1, j as int)
                &&& r->Ok_0.0.spec_bytes() == s.subrange(j + 1, s.len() as int)
            },
            ScanEnd::Unterminated => r is Err && syntax_error_at(
                r->Err_0,
                Seq::empty(),
                nom::error::ErrorKind::Tag,
            ),
            ScanEnd::BadEscape(j) => r is Err && syntax_error_at(
                r->Err_0,
                s.subrange(j as int, s.len() as int),
                nom::error::ErrorKind::Escaped,
            ),
        }
    } else {
        r is Err && syntax_error_at(r->Err_0, s, nom::error::ErrorKind::Tag)
    }
}

/// Parses a string literal whose opening delimiter is the first byte of `input`,
/// with no whitespace skipped. Returns the rest of the input and the literal.
pub fn parse_delimited_literal<'a>(input: &'a str) -> (r: Result<
    (&'a str, StringLiteral),
    Error<&'a str>,
>)
    ensures
        delimited_literal_result(input, r),
{
    let b = input.as_bytes();
    if b.len() == 0 || !(b[0] == 0x22 || b[0] == 0x27 || b[0] == 0x60) {
        return Err(Error::Nom(input, nom::error::ErrorKind::Tag));
    }
    let d = b[0];
    proof {
        is_char_boundary_start_end_of_seq(b@);
        lemma_boundary_after_ascii(b@, 0);
        lemma_scan_interior(b@, 1, d);
    }
    match scan_literal_interior(b, 1, d) {
        ScanEnd::Closed(j) => {
            proof {
                lemma_ascii_boundary(b@, j as int);
                lemma_boundary_after_ascii(b@, j as int);
            }
            let (_, from_open) = split_at_boundary(input, 1);
            let (_, rest) = split_at_boundary(input, j + 1);
            proof {
                assert(from_open.spec_bytes()[j - 1] == d);
                lemma_ascii_boundary(from_open.spec_bytes(), j - 1);
            }
            let (interior, _) = split_at_boundary(from_open, j - 1);
            proof {
                assert(interior.spec_bytes() =~= b@.subrange(1, j as int));
            }
            Ok((rest, StringLiteral::new(interior.to_owned())))
        },
        ScanEnd::Unterminated => {
            let (_, rest) = split_at_boundary(input, b.len());
            Err(Error::Nom(rest, nom::error::ErrorKind::Tag))
        },
        ScanEnd::BadEscape(j) => {
            proof {
                lemma_ascii_boundary(b@, j as int);
            }
            let (_, rest) = split_at_boundary(input, j);
            Err(Error::Nom(rest, nom::error::ErrorKind::Escaped))
        },
    }
}

/// `e` with its positions moved `a` bytes on.
pub open spec fn shifted(e: ScanEnd, a: int) -> ScanEnd {
    match e {
        ScanEnd::Closed(j) => ScanEnd::Closed((j + a) as usize),
        ScanEnd::BadEscape(j) => ScanEnd::BadEscape((j + a) as usize),
        ScanEnd::Unterminated => ScanEnd::Unterminated,
    }
}

proof fn lemma_scan_shift(s: Seq<u8>, a: int, i: int, d: u8)
    requires
        0 <= a <= s.len() <= usize::MAX,
        0 <= i,
    ensures
        scan_interior(s, a + i, d) == shifted(scan_interior(s.subrange(a, s.len() as int), i, d), a),
    decreases s.len() - a - i,
{
    let t = s.subrange(a, s.len() as int);
    lemma_scan_interior(t, i, d);
    if i < t.len() {
        assert(t[i] == s[a + i]);
        lemma_scan_shift(s, a, i + 1, d);
        if i + 1 < t.len() {
            assert(t[i + 1] == s[a + i + 1]);
            lemma_scan_shift(s, a, i + 2, d);
        }
    }
}

proof fn lemma_run_shift(s: Seq<u8>, a: int, i: int, c: Class)
    requires
        0 <= a <= s.len(),
        0 <= i,
    ensures
        run_end(s.subrange(a, s.len() as int), i, c) + a == run_end(s, a + i, c),
    decreases s.len() - a - i,
{
    let t = s.subrange(a, s.len() as int);
    if i < t.len() {
        assert(t[i] == s[a + i]);
        lemma_run_shift(s, a, i + 1, c);
    }
}

/// Parses a string literal at the start of `input`, skipping whitespace around it.
/// The three delimiters `"`, `'` and `` ` `` share one escape mechanism: a backslash
/// must be followed by `a b f n r t v`, the delimiter or a backslash, and both bytes
/// stay in the value. Backtick literals use the same mechanism, so a backtick can
/// stand escaped inside them. Returns the rest of the input and the literal.
pub fn parse_string_literal<'a>(input: &'a str) -> (r: Result<(&'a str, StringLiteral), Error<&'a str>>)
    ensures
        string_literal_result(input, r),
{
    // the byte length of a `str` fits in `usize`
    let _len = input.as_bytes().len();
    let r = ws(parse_delimited_literal, input);
    proof {
        let s = input.spec_bytes();
        let n = space_len(s);
        lemma_run_end_bounds(s, 0, Class::Space);
        let (t, fr) = choose|t: &'a str, fr: Result<(&'a str, StringLiteral), Error<&'a str>>|
            {
                &&& trimmed(s, t.spec_bytes())
                &&& delimited_literal_result(t, fr)
                &&& match fr {
                    Ok((rest, v)) => r is Ok && r->Ok_0.1 == v && trimmed(
                        rest.spec_bytes(),
                        r->Ok_0.0.spec_bytes(),
                    ),
                    Err(e) => r == Err::<(&'a str, StringLiteral), Error<&'a str>>(e),
                }
            };
        let tb = t.spec_bytes();
        assert(tb == s.subrange(n, s.len() as int));
        if n < s.len() && is_delimiter(s[n]) {
            assert(tb[0] == s[n]);
            lemma_scan_shift(s, n, 1, s[n]);
            lemma_scan_interior(tb, 1, s[n]);
            if let ScanEnd::Closed(j) = scan_interior(tb, 1, s[n]) {
                let rb = fr->Ok_0.0.spec_bytes();
                lemma_run_shift(tb, j + 1, 0, Class::Space);
                lemma_run_shift(s, n, j + 1, Class::Space);
                lemma_run_end_bounds(tb, j + 1, Class::Space);
                assert(tb.subrange(1, j as int) =~= s.subrange(n + 1, n + j));
                assert(rb.subrange(space_len(rb), rb.len() as int) =~= s.subrange(
                    run_end(s, n + j + 1, Class::Space),
                    s.len() as int,
                ));
            }
            if let ScanEnd::BadEscape(j) = scan_interior(tb, 1, s[n]) {
                assert(tb.subrange(j as int, tb.len() as int) =~= s.subrange(n + j, s.len() as int));
            }
        }
    }
    r
}

/// Length in characters of the floating-point literal that nom recognizes at the
/// start of `s` (sign, digits, fraction, exponent, or `nan` / `inf` in any case),
/// or `None` where none starts there.
pub uninterp spec fn float_text_len(s: Seq<char>) -> Option<nat>;

/// Relies on nom::number::complete::recognize_float_or_exceptions, the scanner behind
/// nom's `double`: on success it splits the input into a non-empty literal and the
/// rest; on failure its error holds the whole input and `ErrorKind::Float`.
#[verifier::external_body]
fn recognize_float_text<'a>(input: &'a str) -> (r: Result<(&'a str, &'a str), Error<&'a str>>)
    ensures
        match r {
            Ok((rest, text)) => {
                &&& float_text_len(input@) == Some(text@.len())
                &&& text@.len() > 0
                &&& text@ + rest@ == input@
            },
            Err(e) => {
                &&& float_text_len(input@) is None
                &&& e == Error::Nom(input, nom::error::ErrorKind::Float)
            },
        },
{
    match nom::number::complete::recognize_float_or_exceptions::<&str, nom::error::Error<&str>>(
        input,
    ) {
        Ok((rest, text)) => Ok((rest, text)),
        Err(nom::Err::Error(e)) | Err(nom::Err::Failure(e)) => Err(Error::Nom(e.input, e.code)),
        Err(nom::Err::Incomplete(_)) => Err(Error::Nom(input, nom::error::ErrorKind::Float)),
    }
}

/// Recognizes the numeric literal at the start of `input` with nom's float grammar
/// and returns the rest and the literal's text; no whitespace is skipped. The value
/// is the text read as a 64-bit float.
pub fn recognize_number_literal<'a>(input: &'a str) -> (r: Result<(&'a str, &'a str), Error<&'a str>>)
    ensures
        match float_text_len(input@) {
            Some(n) => {
                &&& r is Ok
                &&& r->Ok_0.1@ == input@.take(n as int)
                &&& r->Ok_0.0@ == input@.skip(n as int)
                &&& n > 0
            },
            None => r == Err::<(&'a str, &'a str), Error<&'a str>>(
                Error::Nom(input, nom::error::ErrorKind::Float),
            ),
        },
{
    let r = recognize_float_text(input);
    proof {
        if let Ok((rest, text)) = r {
            assert(input@.take(text@.len() as int) =~= text@);
            assert(input@.skip(text@.len() as int) =~= rest@);
        }
    }
    r
}

/// `x` is a well-formed interior for delimiter `d`: plain bytes other than `d` and
/// backslash, and backslashes each followed by an escapable byte.
pub open spec fn well_escaped(x: Seq<u8>, d: u8) -> bool
    decreases x.len(),
{
    if x.len() == 0 {
        true
    } else if x[0] == 0x5c {
        x.len() >= 2 && is_escapable(x[1], d) && well_escaped(x.skip(2), d)
    } else {
        x[0] != d && well_escaped(x.skip(1), d)
    }
}

proof fn lemma_scan_well_escaped(s: Seq<u8>, k: int, x: Seq<u8>, d: u8)
    requires
        0 <= k,
        k + x.len() < s.len() <= usize::MAX,
        s.subrange(k, k + x.len()) == x,
        s[k + x.len()] == d,
        is_delimiter(d),
        well_escaped(x, d),
    ensures
        scan_interior(s, k, d) == ScanEnd::Closed((k + x.len()) as usize),
    decreases x.len(),
{
    if x.len() > 0 {
        assert(s[k] == x[0]);
        if x[0] == 0x5c {
            assert(s[k + 1] == x[1]);
            assert(s.subrange(k + 2, k + x.len()) =~= x.skip(2));
            lemma_scan_well_escaped(s, k + 2, x.skip(2), d);
        } else {
            assert(s.subrange(k + 1, k + x.len()) =~= x.skip(1));
            lemma_scan_well_escaped(s, k + 1, x.skip(1), d);
        }
    }
}

proof fn lemma_run_to(s: Seq<u8>, i: int, n: int, c: Class)
    requires
        0 <= i <= n <= s.len(),
        forall|k: int| i <= k < n ==> in_class(c, #[trigger] s[k]),
        n == s.len() || !in_class(c, s[n]),
    ensures
        run_end(s, i, c) == n,
    decreases n - i,
{
    if i < n {
        lemma_run_to(s, i + 1, n, c);
    }
}

proof fn lemma_wrapped_literal<'a>(
    input: &'a str,
    w1: Seq<u8>,
    x: Seq<u8>,
    d: u8,
    w2: Seq<u8>,
    r: Result<(&'a str, StringLiteral), Error<&'a str>>,
)
    requires
        is_delimiter(d),
        well_escaped(x, d),
        forall|k: int| 0 <= k < w1.len() ==> in_class(Class::Space, #[trigger] w1[k]),
        forall|k: int| 0 <= k < w2.len() ==> in_class(Class::Space, #[trigger] w2[k]),
        input.spec_bytes() == w1 + seq![d] + x + seq![d] + w2,
        input.spec_bytes().len() <= usize::MAX,
        string_literal_result(input, r),
    ensures
        r is Ok,
        encode_utf8(r->Ok_0.1.value@) == x,
        r->Ok_0.0.spec_bytes().len() == 0,
{
    let s = input.spec_bytes();
    let a = w1.len() as int;
    let j = a + 1 + x.len();
    assert(s[a] == d);
    assert forall|k: int| 0 <= k < a implies in_class(Class::Space, #[trigger] s[k]) by {
        assert(s[k] == w1[k]);
    }
    lemma_run_to(s, 0, a, Class::Space);
    assert(s.subrange(a + 1, j) =~= x);
    assert(s[j] == d);
    lemma_scan_well_escaped(s, a + 1, x, d);
    assert forall|k: int| j + 1 <= k < s.len() implies in_class(Class::Space, #[trigger] s[k]) by {
        assert(s[k] == w2[k - j - 1]);
    }
    lemma_run_to(s, j + 1, s.len() as int, Class::Space);
}

/// A string literal written between two of its delimiters keeps its interior
/// verbatim: parsing `<d>x<d>`, for a well-escaped `x`, succeeds with value `x`
/// and consumes the whole input.
pub proof fn lemma_delimited_interior_kept<'a>(
    input: &'a str,
    x: Seq<u8>,
    d: u8,
    r: Result<(&'a str, StringLiteral), Error<&'a str>>,
)
    requires
        is_delimiter(d),
        well_escaped(x, d),
        input.spec_bytes() == seq![d] + x + seq![d],
        input.spec_bytes().len() <= usize::MAX,
        string_literal_result(input, r),
    ensures
        r is Ok,
        encode_utf8(r->Ok_0.1.value@) == x,
        r->Ok_0.0.spec_bytes().len() == 0,
{
    assert(input.spec_bytes() =~= Seq::<u8>::empty() + seq![d] + x + seq![d] + Seq::<u8>::empty());
    lemma_wrapped_literal(input, Seq::empty(), x, d, Seq::empty(), r);
}

/// Whitespace around a string literal changes nothing: `w1 <d>x<d> w2` parses to
/// the same literal as `<d>x<d>`, and both consume the whole input.
pub proof fn lemma_surrounding_space_ignored<'a>(
    wrapped: &'a str,
    bare: &'a str,
    w1: Seq<u8>,
    x: Seq<u8>,
    d: u8,
    w2: Seq<u8>,
    r_wrapped: Result<(&'a str, StringLiteral), Error<&'a str>>,
    r_bare: Result<(&'a str, StringLiteral), Error<&'a str>>,
)
    requires
        is_delimiter(d),
        well_escaped(x, d),
        forall|k: int| 0 <= k < w1.len() ==> in_class(Class::Space, #[trigger] w1[k]),
        forall|k: int| 0 <= k < w2.len() ==> in_class(Class::Space, #[trigger] w2[k]),
        bare.spec_bytes() == seq![d] + x + seq![d],
        wrapped.spec_bytes() == w1 + bare.spec_bytes() + w2,
        wrapped.spec_bytes().len() <= usize::MAX,
        string_literal_result(wrapped, r_wrapped),
        string_literal_result(bare, r_bare),
    ensures
        r_wrapped is Ok,
        r_bare is Ok,
        r_wrapped->Ok_0.1.value@ == r_bare->Ok_0.1.value@,
        r_wrapped->Ok_0.0.spec_bytes().len() == 0,
        r_bare->Ok_0.0.spec_bytes().len() == 0,
{
    assert(wrapped.spec_bytes() =~= w1 + seq![d] + x + seq![d] + w2);
    lemma_wrapped_literal(wrapped, w1, x, d, w2, r_wrapped);
    lemma_delimited_interior_kept(bare, x, d, r_bare);
    encode_utf8_decode_utf8(r_wrapped->Ok_0.1.value@);
    encode_utf8_decode_utf8(r_bare->Ok_0.1.value@);
}

} // verus!
