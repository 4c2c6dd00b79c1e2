//! A verified recursive-descent parser for arithmetic expressions.
//!
//! An expression string such as `"1 + 2 * (3 - 4)"` is turned into an
//! abstract syntax tree ([`ast::Node`]) honoring the usual operator
//! precedence, left/right associativity, parenthesized grouping, unary
//! minus, and implicit multiplication between adjacent groups.
//!
//! The behaviour of every executable function is pinned down by a
//! mathematical model: a specification tokenizer over `Seq<char>`
//! ([`tokenizer::spec_tokenize`]) and a specification parser over
//! `Seq<Token>` ([`parser::spec_parse_toks`]). The public proof
//! functions in [`laws`] state the grammar's headline properties
//! (precedence, associativity, grouping, round trip) once and for all.

pub mod ast;
pub mod laws;
pub mod render;
pub mod parser;
pub mod token;
pub mod tokenizer;
