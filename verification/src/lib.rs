use vstd::prelude::*;

pub mod text;
pub mod lex;
pub mod codeset;
pub mod ast;
pub mod parse;
pub mod atn;
pub mod util;
pub mod langs;
pub mod symbols;
pub mod ir;
pub mod lower;
pub mod analysis;
pub mod nth;
pub mod matching;

verus! {
} // verus!
