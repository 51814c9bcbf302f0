use vstd::prelude::*;

pub mod grammar;
pub mod strings;
pub mod order;
pub mod table;
pub mod automaton;
pub mod lex;
pub mod parser;
pub mod notation;
pub mod regexes;
pub mod laws;
pub mod states;
pub mod lookups;
pub mod uniqueness;
pub mod leaves;
pub mod reach;
pub mod model;
pub mod sequitur;

verus! {

} // verus!
