use vstd::prelude::*;

pub mod calculator;
pub mod expr;
pub mod float;
pub mod grammar;
pub mod host;
pub mod literal;
pub mod parser;
pub mod rational;
pub mod unit;
pub mod uval;
pub mod value;

verus! {

} // verus!
