//! Lexical layer of a PromQL-style query language: literal values,
//! identifier classes and the error model shared with the grammar above.
use vstd::prelude::*;

pub mod error;
pub mod helper;
pub mod lexer;
pub mod literal;
pub mod text;

pub use error::{Error, ParserError};
pub use helper::{parse_label_name, parse_metric_name, skip_space, ws};
pub use lexer::{parse_string_literal, recognize_number_literal};
pub use literal::StringLiteral;

verus! {

} // verus!
