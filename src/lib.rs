//! Turns the textual output of the Nix expression evaluator into a tree of
//! values: a tokenizer, a recursive-descent parser, and the decisions that
//! surround one run of the evaluator.

pub mod lexer;
pub mod parse_nix_instantiate;
pub mod build_deriv;
