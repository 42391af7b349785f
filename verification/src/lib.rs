//! A line-oriented calculator language: a lexer that turns one line of text
//! into spanned raw tokens, a resolver that reorders the token stream into
//! postfix (execution-ready) order with a shunting-yard engine, and a
//! stack-based evaluator that executes that order against a persistent
//! variable environment.
//!
//! Numeric values travel through the pipeline as opaque 64-bit encodings of
//! IEEE-754 doubles; the session driver performs the actual double-precision
//! arithmetic, literal parsing and formatting, and feeds results back through
//! the evaluator's step interface.

pub mod interner;
pub mod laws;
pub mod postfix;
pub mod raw_token;
pub mod run;
pub mod span;
pub mod tokens;

pub use span::{Span, Spanned};
