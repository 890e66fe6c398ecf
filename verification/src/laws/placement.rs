//! Where a relayout puts things, and what of them is refused.
use vstd::arithmetic::power2::pow2;
use vstd::prelude::*;

use crate::constraints::{
    holds, incongruent, loads_overlap, loose_phdr, misaligned, power_of_two, share_address,
    violation, writable_code,
};
use crate::ir::{ImageView, Phdr};
use crate::laws::loading::{
    added, addresses_apart, lemma_added, lemma_moving, lemma_power, must_move, replaced_from,
};
use crate::layout::{
    base_of, kept, lemma_max_end, lemma_moved_size, lemma_plan, lemma_rounded_up, max, max_align,
    max_end, page_of, plan_of, region_start, relayout_result, relocates, rounded_up,
};

verus! {

proof fn lemma_align_is(segs: Seq<Phdr>, page: u64, n: int)
    requires
        0 <= n <= segs.len(),
    ensures
        forall|k: int| 0 <= k < n ==> (#[trigger] segs[k]).align <= max_align(segs, page, n),
        max_align(segs, page, n) == page || exists|k: int|
            0 <= k < n && (#[trigger] segs[k]).align == max_align(segs, page, n),
    decreases n,
{
    if n > 0 {
        lemma_align_is(segs, page, n - 1);
        if max_align(segs, page, n) != page {
            if segs[n - 1].align == max_align(segs, page, n) {
                assert(segs[n - 1].align == max_align(segs, page, n));
            } else {
                let k = choose|k: int|
                    0 <= k < n - 1 && (#[trigger] segs[k]).align == max_align(segs, page, n - 1);
                assert(segs[k].align == max_align(segs, page, n));
            }
        }
    }
}

proof fn lemma_end_is(segs: Seq<Phdr>, n: int)
    requires
        0 <= n <= segs.len(),
    ensures
        max_end(segs, n) == 0 || exists|k: int|
            0 <= k < n && (#[trigger] segs[k]).vaddr + segs[k].memsz == max_end(segs, n),
    decreases n,
{
    if n > 0 {
        lemma_end_is(segs, n - 1);
        if max_end(segs, n) == max_end(segs, n - 1) {
            if max_end(segs, n) != 0 {
                let k = choose|k: int|
                    0 <= k < n - 1 && (#[trigger] segs[k]).vaddr + segs[k].memsz == max_end(
                        segs,
                        n - 1,
                    );
                assert(segs[k].vaddr + segs[k].memsz == max_end(segs, n));
            }
        } else {
            assert(segs[n - 1].vaddr + segs[n - 1].memsz == max_end(segs, n));
        }
    }
}

/// The region that a relayout adds is behind the file, or where the one that it replaces
/// begins, and behind all addresses of the segments that stay; the file ends behind it. It is
/// no further behind than its alignment asks for, which is the largest of those of the
/// segments and of a page.
pub proof fn law_region_is_behind(
    v: ImageView,
    original: Seq<u8>,
    page_size: Option<u64>,
    reclaim: bool,
)
    requires
        v.wf(),
    ensures
        relayout_result(v, original, page_size, reclaim) matches (w, Ok(out)) ==> {
            let p = added(w);
            let segs = kept(v, reclaim);
            let from = match replaced_from(v, reclaim) {
                Some(r) => r as int,
                None => original.len() as int,
            };
            &&& from <= p.offset
            &&& forall|k: int|
                0 <= k < segs.len() ==> (#[trigger] segs[k]).vaddr + segs[k].memsz <= p.vaddr
            &&& out.len() == p.offset + p.filesz + 1
            &&& forall|k: int| 0 <= k < segs.len() ==> (#[trigger] segs[k]).align <= p.align
            &&& p.align == page_of(v.ehdr.machine, page_size) || exists|k: int|
                0 <= k < segs.len() && (#[trigger] segs[k]).align == p.align
            &&& p.align > 1 ==> p.offset < from + p.align || p.vaddr < 2 * p.align || exists|k: int|
                0 <= k < segs.len() && p.vaddr < (#[trigger] segs[k]).vaddr + segs[k].memsz + 2
                    * p.align
        },
{
    if let (w, Ok(out)) = relayout_result(v, original, page_size, reclaim) {
        let region = region_start(v, reclaim);
        let segs = kept(v, reclaim);
        let plan = plan_of(v, segs, region, original.len() as int, page_size);
        let n = segs.len() as int;
        lemma_moving(v, reclaim);
        lemma_added(v, original, page_size, reclaim);
        lemma_plan(v, segs, region, original.len() as int, page_size);
        lemma_align_is(segs, page_of(v.ehdr.machine, page_size), n);
        lemma_max_end(segs, n);
        lemma_end_is(segs, n);
        let top = max_end(segs, n);
        let align = plan.align as int;
        let end = rounded_up(top, align);
        let from = match region {
            Some(r) => r as int,
            None => original.len() as int,
        };
        lemma_rounded_up(top, align);
        lemma_rounded_up(max(from, end - base_of(segs)), align);
        let p = added(w);
        if p.align > 1 && p.offset >= from + p.align && p.vaddr >= 2 * p.align {
            assert(p.vaddr < top + 2 * p.align);
            assert(top != 0);
            let k = choose|k: int| 0 <= k < n && (#[trigger] segs[k]).vaddr + segs[k].memsz == top;
            assert(p.vaddr < segs[k].vaddr + segs[k].memsz + 2 * p.align);
        }
    }
}

/// Sections that move are apart, and in their order.
pub proof fn law_moved_are_apart(
    v: ImageView,
    original: Seq<u8>,
    page_size: Option<u64>,
    reclaim: bool,
    i: int,
    j: int,
)
    requires
        v.wf(),
        0 <= i < j < v.shdrs.len(),
        must_move(v, reclaim, i),
        must_move(v, reclaim, j),
    ensures
        relayout_result(v, original, page_size, reclaim) matches (w, Ok(_)) ==> w.shdrs[i].offset
            + w.shdrs[i].size <= w.shdrs[j].offset && w.shdrs.len() * (if v.enc.class is Elf64 {
            64int
        } else {
            40
        }) + w.ehdr.shoff <= w.shdrs[i].offset,
{
    if let (w, Ok(_)) = relayout_result(v, original, page_size, reclaim) {
        let region = region_start(v, reclaim);
        let segs = kept(v, reclaim);
        lemma_moving(v, reclaim);
        lemma_plan(v, segs, region, original.len() as int, page_size);
        lemma_moved_size(v, region, i, j);
        lemma_moved_size(v, region, j, v.shdrs.len() as int);
        assert(relocates(v, region, i) && relocates(v, region, j));
    }
}

/// Segments are accepted where those that are loaded have addresses of their own and none is
/// both writable and executable, offsets and addresses agree, the program headers are loaded,
/// and alignments are powers of two; and only there.
pub proof fn law_loadable_is_accepted(phdrs: Seq<Phdr>)
    ensures
        violation(phdrs) is None <==> {
            &&& forall|i: int, j: int|
                0 <= i < j < phdrs.len() && (#[trigger] phdrs[i]).p_type == 1 && (
                #[trigger] phdrs[j]).p_type == 1 ==> addresses_apart(phdrs[i], phdrs[j])
            &&& forall|i: int| 0 <= i < phdrs.len() ==> loadable(phdrs, #[trigger] phdrs[i])
        },
{
    assert forall|i: int, j: int|
        0 <= i < j < phdrs.len() && (#[trigger] phdrs[i]).p_type == 1 && (
        #[trigger] phdrs[j]).p_type == 1 implies addresses_apart(phdrs[i], phdrs[j])
        == !share_address(phdrs[i], phdrs[j]) by {}
    assert forall|i: int| 0 <= i < phdrs.len() implies loadable(phdrs, #[trigger] phdrs[i]) == !(
    writable_code(phdrs[i]) || incongruent(phdrs[i]) || loose_phdr(phdrs, phdrs[i]) || misaligned(
        phdrs[i],
    )) by {
        lemma_loadable(phdrs, phdrs[i]);
    }
    if violation(phdrs) is None {
        assert(!loads_overlap(phdrs));
        assert forall|i: int| 0 <= i < phdrs.len() implies loadable(phdrs, #[trigger] phdrs[i]) by {
            assert(!writable_code(phdrs[i]) && !incongruent(phdrs[i]) && !loose_phdr(
                phdrs,
                phdrs[i],
            ) && !misaligned(phdrs[i]));
        }
    }
}

/// Whether a segment by itself can be loaded among the others.
pub open spec fn loadable(phdrs: Seq<Phdr>, p: Phdr) -> bool {
    &&& p.p_type == 1 ==> p.flags & 2 == 0 || p.flags & 1 == 0
    &&& p.p_type == 1 && p.align > 1 ==> p.offset as int % p.align as int == p.vaddr as int
        % p.align as int
    &&& p.p_type == 6 ==> exists|j: int|
        0 <= j < phdrs.len() && (#[trigger] phdrs[j]).p_type == 1 && phdrs[j].vaddr <= p.vaddr
            && p.vaddr + p.memsz <= phdrs[j].vaddr + phdrs[j].memsz
    &&& p.align > 1 ==> exists|k: nat| p.align == #[trigger] pow2(k)
}

proof fn lemma_loadable(phdrs: Seq<Phdr>, p: Phdr)
    ensures
        loadable(phdrs, p) == !(writable_code(p) || incongruent(p) || loose_phdr(phdrs, p)
            || misaligned(p)),
{
    if p.p_type == 6 {
        if exists|j: int|
            0 <= j < phdrs.len() && (#[trigger] phdrs[j]).p_type == 1 && phdrs[j].vaddr <= p.vaddr
                && p.vaddr + p.memsz <= phdrs[j].vaddr + phdrs[j].memsz {
            let j = choose|j: int|
                0 <= j < phdrs.len() && (#[trigger] phdrs[j]).p_type == 1 && phdrs[j].vaddr
                    <= p.vaddr && p.vaddr + p.memsz <= phdrs[j].vaddr + phdrs[j].memsz;
            assert(holds(phdrs[j], p));
        } else {
            assert forall|j: int| 0 <= j < phdrs.len() implies !holds(#[trigger] phdrs[j], p) by {}
        }
    }
    if p.align > 1 {
        if power_of_two(p.align as int) {
            let k = lemma_power(p.align as int);
            assert(p.align == pow2(k));
        }
        if exists|k: nat| p.align == #[trigger] pow2(k) {
            let k = choose|k: nat| p.align == #[trigger] pow2(k);
            lemma_pow2_is(k);
        }
    }
}

proof fn lemma_pow2_is(k: nat)
    ensures
        power_of_two(pow2(k) as int),
    decreases k,
{
    vstd::arithmetic::power2::lemma2_to64();
    if k > 0 {
        lemma_pow2_is((k - 1) as nat);
        vstd::arithmetic::power2::lemma_pow2_unfold(k);
        vstd::arithmetic::power2::lemma_pow2_pos((k - 1) as nat);
        assert(pow2(k) / 2 == pow2((k - 1) as nat));
    }
}

} // verus!
