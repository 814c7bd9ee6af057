//! Errors reported by the lexer and by the grammar stages built on it.
use vstd::prelude::*;

verus! {

/// nom's classification of a combinator failure; its variants carry no data.
#[verifier::external_type_specification]
pub struct ExErrorKind(nom::error::ErrorKind);

/// humantime's error for a duration text that does not parse.
#[verifier::external_type_specification]
#[verifier::external_body]
pub struct ExDurationError(humantime::DurationError);

/// Semantic failures produced above the lexer.
#[derive(Debug, PartialEq)]
pub enum ParserError {
    InvalidDuration(humantime::DurationError),
    RangeOnlyVectorSelectors,
    InvalidMatrixSelector,
    InvalidOffsetExpr,
}

/// Error carrier over the residual input `I` at the point of failure.
#[derive(Debug, PartialEq)]
pub enum Error<I> {
    /// A named semantic failure, with no position.
    Parser(ParserError),
    /// A syntactic failure: the unconsumed input and the kind of combinator that failed.
    Nom(I, nom::error::ErrorKind),
}

impl<I> Error<I> {
    /// Builds the syntactic variant from the residual input and the failure kind.
    pub fn from_error_kind(input: I, kind: nom::error::ErrorKind) -> (r: Self)
        ensures
            r == Error::Nom(input, kind),
    {
        Error::Nom(input, kind)
    }

    /// Combining with an outer failure keeps the error already produced.
    pub fn append(_input: I, _kind: nom::error::ErrorKind, other: Self) -> (r: Self)
        ensures
            r == other,
    {
        other
    }

    /// Descriptive context added by an outer parser is discarded: the innermost error wins.
    pub fn add_context(_input: I, _ctx: &'static str, other: Self) -> (r: Self)
        ensures
            r == other,
    {
        other
    }

    /// Injects a semantic failure, bypassing the syntactic classification.
    pub fn from_parser_error(e: ParserError) -> (r: Self)
        ensures
            r == Error::<I>::Parser(e),
    {
        Error::Parser(e)
    }
}

} // verus!
