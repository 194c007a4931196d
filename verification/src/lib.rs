use vstd::prelude::*;

pub mod ast;
pub mod err;
pub mod eval;
pub mod stdops;
pub mod numerals;
pub mod laws;

verus! {
} // verus!
