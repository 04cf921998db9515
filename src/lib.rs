//! Finds maximal runs of fixed-width values in a byte buffer whose decoded
//! values all satisfy a predicate.
use vstd::prelude::*;

pub mod laws;
pub mod model;
pub mod run;
pub mod scan;
pub mod scanner;

verus! {

} // verus!
