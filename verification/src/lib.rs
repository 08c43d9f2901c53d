use vstd::prelude::*;

pub mod arms;
pub mod ast;
pub mod bits;
pub mod callbacks;
pub mod error;
pub mod funcs;
pub mod generator;
pub mod lexer;
pub mod lookup;
pub mod numtext;
pub mod parse;
pub mod positions;
pub mod text;
pub mod valref;
pub mod variables;
pub mod window;

verus! {

} // verus!
