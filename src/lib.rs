//! Text parsing with exact contracts.
//!
//! - `foundation` and `combinator`: a cursor over a text, match/mismatch
//!   outcomes, and combinators (alternatives with furthest-mismatch
//!   reporting, repetition, delimited and separated lists).
//! - `decimal`: decimal literals read into sign, significant digits and
//!   exponent, and rendered back as canonical text.
//! - `json`: a JSON value grammar over bytes, with recoverable mismatches and
//!   hard failures (`error`).
//! - `parser` and `expression`: a small call-expression grammar, once on the
//!   combinators and once directly over bytes.
pub mod foundation;
pub mod combinator;
pub mod error;
pub mod text;
pub mod decimal;
pub mod json;
pub mod parser;
pub mod expression;
