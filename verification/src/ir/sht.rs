//! Section types.
use vstd::prelude::*;

verus! {

pub const SYMTAB: u32 = 2;
pub const STRTAB: u32 = 3;
pub const RELA: u32 = 4;
pub const DYNAMIC: u32 = 6;
pub const NOTE: u32 = 7;
pub const NOBITS: u32 = 8;
pub const REL: u32 = 9;
pub const DYNSYM: u32 = 11;

} // verus!
