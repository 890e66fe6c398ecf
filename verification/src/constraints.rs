//! What a loadable ELF file must satisfy, made explicit instead of relied on by
//! construction. Checked before every serialization.
use vstd::prelude::*;

use crate::error::{Error, ErrorView, Result};
use crate::ir::{pf, pt, ElfImage, Phdr};

verus! {

/// Whether two segments share an address.
pub open spec fn share_address(p: Phdr, q: Phdr) -> bool {
    p.vaddr < q.vaddr + q.memsz && q.vaddr < p.vaddr + p.memsz && p.memsz > 0 && q.memsz > 0
}

/// Whether two of the loaded segments overlap.
pub open spec fn loads_overlap(phdrs: Seq<Phdr>) -> bool {
    exists|i: int, j: int|
        0 <= i < j < phdrs.len() && (#[trigger] phdrs[i]).p_type == pt::LOAD && (
        #[trigger] phdrs[j]).p_type == pt::LOAD && share_address(phdrs[i], phdrs[j])
}

/// Whether a segment is loaded writable and executable at once.
pub open spec fn writable_code(p: Phdr) -> bool {
    p.p_type == pt::LOAD && p.flags & pf::W != 0 && p.flags & pf::X != 0
}

/// Whether a loaded segment's offset and address differ modulo its alignment.
pub open spec fn incongruent(p: Phdr) -> bool {
    p.p_type == pt::LOAD && p.align > 1 && p.offset % p.align != p.vaddr % p.align
}

/// Whether `outer` is loaded and holds all of `inner`.
pub open spec fn holds(outer: Phdr, inner: Phdr) -> bool {
    outer.p_type == pt::LOAD && outer.vaddr <= inner.vaddr && inner.vaddr + inner.memsz
        <= outer.vaddr + outer.memsz
}

/// Whether a `PT_PHDR` segment is held by no loaded segment.
pub open spec fn loose_phdr(phdrs: Seq<Phdr>, p: Phdr) -> bool {
    p.p_type == pt::PHDR && forall|j: int| 0 <= j < phdrs.len() ==> !holds(#[trigger] phdrs[j], p)
}

/// Whether `n` is a power of two.
pub open spec fn power_of_two(n: int) -> bool
    decreases n,
{
    n == 1 || n > 1 && n % 2 == 0 && power_of_two(n / 2)
}

/// Whether a segment's alignment is neither absent nor a power of two.
pub open spec fn misaligned(p: Phdr) -> bool {
    p.align > 1 && !power_of_two(p.align as int)
}

/// The first of the requirements that the segments do not meet.
pub open spec fn violation(phdrs: Seq<Phdr>) -> Option<Seq<char>> {
    if loads_overlap(phdrs) {
        Some("PT_LOAD segments overlap"@)
    } else if exists|i: int| 0 <= i < phdrs.len() && writable_code(#[trigger] phdrs[i]) {
        Some("PT_LOAD segment is both writable and executable"@)
    } else if exists|i: int| 0 <= i < phdrs.len() && incongruent(#[trigger] phdrs[i]) {
        Some("PT_LOAD offset and address are not congruent"@)
    } else if exists|i: int| 0 <= i < phdrs.len() && loose_phdr(phdrs, #[trigger] phdrs[i]) {
        Some("PT_PHDR is not covered by a PT_LOAD segment"@)
    } else if exists|i: int| 0 <= i < phdrs.len() && misaligned(#[trigger] phdrs[i]) {
        Some("segment alignment is not a power of two"@)
    } else {
        None
    }
}

fn overlap(p: &Phdr, q: &Phdr) -> (b: bool)
    ensures
        b == share_address(*p, *q),
{
    p.memsz > 0 && q.memsz > 0 && (if p.vaddr < q.vaddr {
        q.vaddr - p.vaddr < p.memsz
    } else {
        p.vaddr - q.vaddr < q.memsz
    })
}

fn find_overlap(phdrs: &Vec<Phdr>) -> (b: bool)
    ensures
        b == loads_overlap(phdrs@),
{
    let mut j: usize = 0;
    while j < phdrs.len()
        invariant
            j <= phdrs@.len(),
            forall|a: int, b: int|
                0 <= a < b < j && (#[trigger] phdrs@[a]).p_type == pt::LOAD && (
                #[trigger] phdrs@[b]).p_type == pt::LOAD ==> !share_address(phdrs@[a], phdrs@[b]),
        decreases phdrs@.len() - j,
    {
        let mut i: usize = 0;
        while i < j
            invariant
                i <= j < phdrs@.len(),
                forall|a: int|
                    0 <= a < i && (#[trigger] phdrs@[a]).p_type == pt::LOAD
                        && phdrs@[j as int].p_type == pt::LOAD ==> !share_address(
                        phdrs@[a],
                        phdrs@[j as int],
                    ),
            decreases j - i,
        {
            if phdrs[i].p_type == pt::LOAD && phdrs[j].p_type == pt::LOAD && overlap(
                &phdrs[i],
                &phdrs[j],
            ) {
                return true;
            }
            i += 1;
        }
        j += 1;
    }
    false
}

fn held(phdrs: &Vec<Phdr>, p: &Phdr) -> (b: bool)
    ensures
        b == exists|j: int| 0 <= j < phdrs@.len() && holds(#[trigger] phdrs@[j], *p),
{
    let mut j: usize = 0;
    while j < phdrs.len()
        invariant
            j <= phdrs@.len(),
            forall|k: int| 0 <= k < j ==> !holds(#[trigger] phdrs@[k], *p),
        decreases phdrs@.len() - j,
    {
        let q = phdrs[j];
        if q.p_type == pt::LOAD && q.vaddr <= p.vaddr && p.vaddr - q.vaddr <= q.memsz && p.memsz
            <= q.memsz - (p.vaddr - q.vaddr) {
            return true;
        }
        j += 1;
    }
    false
}

/// Whether `n` is a power of two.
fn is_power_of_two(n: u64) -> (b: bool)
    ensures
        b == power_of_two(n as int),
{
    let mut m: u64 = n;
    while m > 1
        invariant
            power_of_two(n as int) == power_of_two(m as int),
        decreases m,
    {
        if m % 2 != 0 {
            return false;
        }
        m = m / 2;
    }
    m == 1
}

/// Check that the loaded segments do not overlap, that none is both writable and
/// executable, that their offsets and addresses are congruent, that `PT_PHDR` is
/// loaded, and that alignments are powers of two.
pub fn validate(image: &ElfImage) -> (res: Result<()>)
    ensures
        match res {
            Ok(_) => violation(image@.phdrs) is None,
            Err(e) => violation(image@.phdrs) matches Some(m) && e@ == ErrorView::Constraint(m),
        },
{
    let phdrs = &image.phdrs;
    if find_overlap(phdrs) {
        return Err(Error::Constraint("PT_LOAD segments overlap".to_owned()));
    }
    let mut wx = false;
    let mut skewed = false;
    let mut loose = false;
    let mut unaligned = false;
    let mut i: usize = 0;
    while i < phdrs.len()
        invariant
            phdrs@ == image@.phdrs,
            i <= phdrs@.len(),
            wx == exists|k: int| 0 <= k < i && writable_code(#[trigger] phdrs@[k]),
            skewed == exists|k: int| 0 <= k < i && incongruent(#[trigger] phdrs@[k]),
            loose == exists|k: int| 0 <= k < i && loose_phdr(phdrs@, #[trigger] phdrs@[k]),
            unaligned == exists|k: int| 0 <= k < i && misaligned(#[trigger] phdrs@[k]),
        decreases phdrs@.len() - i,
    {
        let p = phdrs[i];
        if p.p_type == pt::LOAD && p.flags & pf::W != 0 && p.flags & pf::X != 0 {
            assert(writable_code(phdrs@[i as int]));
            wx = true;
        }
        if p.p_type == pt::LOAD && p.align > 1 && p.offset % p.align != p.vaddr % p.align {
            assert(incongruent(phdrs@[i as int]));
            skewed = true;
        }
        if p.p_type == pt::PHDR && !held(phdrs, &p) {
            assert(loose_phdr(phdrs@, phdrs@[i as int]));
            loose = true;
        }
        if p.align > 1 && !is_power_of_two(p.align) {
            assert(misaligned(phdrs@[i as int]));
            unaligned = true;
        }
        i += 1;
    }
    if wx {
        Err(Error::Constraint("PT_LOAD segment is both writable and executable".to_owned()))
    } else if skewed {
        Err(Error::Constraint("PT_LOAD offset and address are not congruent".to_owned()))
    } else if loose {
        Err(Error::Constraint("PT_PHDR is not covered by a PT_LOAD segment".to_owned()))
    } else if unaligned {
        Err(Error::Constraint("segment alignment is not a power of two".to_owned()))
    } else {
        Ok(())
    }
}

} // verus!
