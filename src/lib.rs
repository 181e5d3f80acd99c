//! A parser for a small imperative language of function definitions,
//! typed declarations, arithmetic, calls and return statements.
//!
//! - `ast`: the syntax tree and its mathematical model;
//! - `error`: why a parse fails;
//! - `grammar`: the grammar, as functions on character sequences;
//! - `parser`: the executable parser, proved to give exactly what the grammar gives;
//! - `printer`: the canonical source text of a tree, and a printer proved to write it;
//! - `laws`: canonical text of a well-formed tree parses back to that tree;
//! - `results`: every tree the parser gives back is well formed.
use vstd::prelude::*;

pub mod ast;
pub mod error;
pub mod grammar;
pub mod parser;
pub mod printer;
pub mod laws;
pub mod results;

verus! {

} // verus!
