//! Bits of the `DT_FLAGS_1` word.
use vstd::prelude::*;

verus! {

pub const NODEFLIB: u64 = 0x800;

} // verus!
