//! A calculator core: a lazy tokenizer, a recursive-descent parser whose tree
//! builder restores left-to-right associativity by rotation, and the laws that
//! the parser obeys.
use vstd::prelude::*;

pub mod ast;
pub mod error;
pub mod laws;
pub mod lex;
pub mod parser;

verus! {

} // verus!
