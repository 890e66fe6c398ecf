//! Section flags.
use vstd::prelude::*;

verus! {

pub const ALLOC: u64 = 0x2;

} // verus!
