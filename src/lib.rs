use vstd::prelude::*;

pub mod collect;
pub mod files;
pub mod laws;
pub mod limits;

verus! {

} // verus!
