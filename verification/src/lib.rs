//! SPDX license expressions: a parser that keeps operator precedence and
//! explicit grouping, a canonical printer, and the extraction of the
//! identifiers an expression names.
//!
//! [`SpdxExpression`] is the type to use. [`token`] splits a text into
//! tokens, [`grammar`] reads an expression from them, and
//! [`expression_variant`] holds the tree and writes its canonical text.
//! [`canonical`] and [`spacing`] prove that writing and reading undo each
//! other.

pub mod canonical;
pub mod error;
pub mod expression;
pub mod expression_variant;
pub mod grammar;
pub mod spacing;
pub mod token;

pub use error::{ParseError, SpdxExpressionError};
pub use expression::SpdxExpression;
pub use expression_variant::ExpressionVariant;
