//! File types.
use vstd::prelude::*;

verus! {

pub const EXEC: u16 = 2;
pub const DYN: u16 = 3;

} // verus!
