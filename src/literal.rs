//! Literal values produced by the lexer.
use vstd::prelude::*;

verus! {

/// A literal in single quotes, double quotes or backticks. `value` is the text
/// between the delimiters as written: escape sequences are kept, not decoded.
#[derive(Debug, Clone, PartialEq, Eq, PartialOrd, Ord, Hash)]
pub struct StringLiteral {
    pub value: String,
}

impl StringLiteral {
    pub fn new(value: String) -> (r: Self)
        ensures
            r.value@ == value@,
    {
        StringLiteral { value }
    }
}

} // verus!
