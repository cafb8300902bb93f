use vstd::prelude::*;

pub mod batch;
pub mod grid;

verus! {

} // verus!
