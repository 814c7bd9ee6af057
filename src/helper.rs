//! Whitespace and the identifier classes: label names and metric names.
use vstd::prelude::*;
use vstd::utf8::*;
use vstd::string::*;
use crate::error::Error;
use crate::text::{
    Class, in_class, run_end, cut_at, scan_run, class_has, split_at_boundary, lemma_class_ascii,
    lemma_boundary_after_ascii, lemma_run_boundary, lemma_run_end_bounds,
};

verus! {

broadcast use encode_utf8_valid_utf8;

/// Number of bytes taken by the leading run of space, tab, carriage return and line feed.
pub open spec fn space_len(s: Seq<u8>) -> int {
    run_end(s, 0, Class::Space)
}

/// Length of the identifier at the start of `s`, if one starts there: a byte of
/// class `start`, then the longest run of class `cont`.
pub open spec fn name_len(s: Seq<u8>, start: Class, cont: Class) -> Option<int> {
    if s.len() > 0 && in_class(start, s[0]) {
        Some(run_end(s, 1, cont))
    } else {
        None
    }
}

/// `[a-zA-Z_][a-zA-Z0-9_]*`
pub open spec fn label_name_len(s: Seq<u8>) -> Option<int> {
    name_len(s, Class::LabelStart, Class::LabelChar)
}

/// `[a-zA-Z_:][a-zA-Z0-9_:]*`
pub open spec fn metric_name_len(s: Seq<u8>) -> Option<int> {
    name_len(s, Class::MetricStart, Class::MetricChar)
}

/// Result of an identifier parser on `input`, for the identifier length `len`.
pub open spec fn name_result<'a>(
    input: &'a str,
    len: Option<int>,
    r: Result<(&'a str, &'a str), Error<&'a str>>,
) -> bool {
    match len {
        Some(n) => r is Ok && cut_at(input, n, r->Ok_0.1, r->Ok_0.0),
        None => r == Err::<(&'a str, &'a str), Error<&'a str>>(
            Error::Nom(input, nom::error::ErrorKind::IsA),
        ),
    }
}

/// Drops the leading whitespace of `input`; never fails.
pub fn skip_space<'a>(input: &'a str) -> (r: &'a str)
    ensures
        r.spec_bytes() == input.spec_bytes().subrange(
            space_len(input.spec_bytes()),
            input.spec_bytes().len() as int,
        ),
{
    let b = input.as_bytes();
    let n = scan_run(b, 0, Class::Space);
    proof {
        is_char_boundary_start_end_of_seq(b@);
        lemma_run_boundary(b@, 0, Class::Space);
        lemma_run_end_bounds(b@, 0, Class::Space);
    }
    let (_, rest) = split_at_boundary(input, n);
    rest
}

fn parse_name<'a>(input: &'a str, start: Class, cont: Class) -> (r: Result<
    (&'a str, &'a str),
    Error<&'a str>,
>)
    ensures
        name_result(input, name_len(input.spec_bytes(), start, cont), r),
{
    let b = input.as_bytes();
    if b.len() == 0 || !class_has(start, b[0]) {
        return Err(Error::Nom(input, nom::error::ErrorKind::IsA));
    }
    let n = scan_run(b, 1, cont);
    proof {
        lemma_class_ascii(start, b@[0]);
        is_char_boundary_start_end_of_seq(b@);
        lemma_boundary_after_ascii(b@, 0);
        lemma_run_boundary(b@, 1, cont);
        lemma_run_end_bounds(b@, 1, cont);
    }
    let (name, rest) = split_at_boundary(input, n);
    Ok((rest, name))
}

/// Recognizes the longest label name at the start of `input`; returns the rest and the name.
/// Reserved `__` prefixes are not judged here.
pub fn parse_label_name<'a>(input: &'a str) -> (r: Result<(&'a str, &'a str), Error<&'a str>>)
    ensures
        name_result(input, label_name_len(input.spec_bytes()), r),
{
    parse_name(input, Class::LabelStart, Class::LabelChar)
}

/// Recognizes the longest metric name at the start of `input`; returns the rest and the name.
pub fn parse_metric_name<'a>(input: &'a str) -> (r: Result<(&'a str, &'a str), Error<&'a str>>)
    ensures
        name_result(input, metric_name_len(input.spec_bytes()), r),
{
    parse_name(input, Class::MetricStart, Class::MetricChar)
}

/// `t` is `s` without its leading whitespace.
pub open spec fn trimmed(s: Seq<u8>, t: Seq<u8>) -> bool {
    t == s.subrange(space_len(s), s.len() as int)
}

/// Runs `f` between two runs of whitespace, which are consumed and never fail:
/// `f` sees `input` without its leading whitespace; on success the whitespace
/// after what `f` consumed is dropped too, and on failure `f`'s error is returned.
pub fn ws<'a, O, F>(f: F, input: &'a str) -> (r: Result<(&'a str, O), Error<&'a str>>)
    where
        F: Fn(&'a str) -> Result<(&'a str, O), Error<&'a str>>,
    requires
        forall|t: &'a str| #[trigger] f.requires((t,)),
    ensures
        exists|t: &'a str, fr: Result<(&'a str, O), Error<&'a str>>|
            {
                &&& trimmed(input.spec_bytes(), t.spec_bytes())
                &&& f.ensures((t,), fr)
                &&& match fr {
                    Ok((rest, v)) => r is Ok && r->Ok_0.1 == v && trimmed(
                        rest.spec_bytes(),
                        r->Ok_0.0.spec_bytes(),
                    ),
                    Err(e) => r == Err::<(&'a str, O), Error<&'a str>>(e),
                }
            },
{
    let t = skip_space(input);
    let fr = f(t);
    match fr {
        Ok((rest, v)) => {
            let after = skip_space(rest);
            Ok((after, v))
        },
        Err(e) => Err(e),
    }
}

} // verus!
