//! Segment permissions.
use vstd::prelude::*;

verus! {

pub const X: u32 = 1;
pub const W: u32 = 2;
pub const R: u32 = 4;

} // verus!
