//! A field of pipes: the loop through the start, and the ground it
//! encloses.

pub mod flood;
pub mod marks;
pub mod pipes;

use vstd::prelude::*;

verus! {

} // verus!
