//! A scope evaluator that checks, at run time, the rules of bindings,
//! shadowing, moves and borrows over nested lexical scopes, with the small
//! functions that illustrate those rules.

use vstd::prelude::*;

pub mod demos;
pub mod evaluator;
pub mod laws;
pub mod value;

verus! {

} // verus!
