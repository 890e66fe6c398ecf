//! A file that is laid out anew still loads: what moved is found, and nothing else
//! changed.
use vstd::arithmetic::power2::pow2;
use vstd::prelude::*;

use crate::codec::{ehdr_at, ehdr_out};
use crate::constraints::{
    holds, incongruent, loose_phdr, misaligned, power_of_two, violation, writable_code,
};
use crate::error::ErrorView;
use crate::ir::{DynEntry, Encoding, EhdrView, ImageView, Phdr, Shdr};
use crate::layout::{
    address_field, base_of, dyns_out, emitted, entry_hits, finalized, grown, grown_count, kept,
    lemma_moved_size, lemma_plan, lemma_rounded_up, lemma_section_len, max, max_align, max_end,
    min_load, moved_from, new_addr, new_load, note_at, page_of, plan_of, prior, reference_fault,
    refers, region_at, region_start, relaid, relayout_result, relocates, rounded_up, synced,
};
use crate::raw::{phdr_len, word_at};
use crate::seqs::{first, lemma_first_from};
use crate::serialize::{
    fault_from, phdrs_out, shdrs_out, sort_spans, spans_of, with_part, with_sections, SpanView,
};

verus! {

/// Where the region begins that a relayout replaces: a loaded segment that begins with
/// the program headers.
pub open spec fn replaced_from(v: ImageView, reclaim: bool) -> Option<u64> {
    if reclaim && exists|k: int|
        0 <= k < v.phdrs.len() && (#[trigger] v.phdrs[k]).p_type == 1 && v.phdrs[k].offset
            == v.ehdr.phoff {
        Some(v.ehdr.phoff)
    } else {
        None
    }
}

/// How many bytes section `i` takes: as many as it holds, and the one with the dynamic
/// array as many as that needs, but not fewer than it had.
pub open spec fn bytes_needed(v: ImageView, i: int) -> int {
    if v.dyn_idx() == Some(i) {
        let n = v.dynamic.len() * (if v.enc.class is Elf64 {
            16int
        } else {
            8
        });
        if n > v.shdrs[i].size {
            n
        } else {
            v.shdrs[i].size as int
        }
    } else {
        v.sections[i].len() as int
    }
}

/// Whether section `i` has to move: it holds something, and needs another size than its
/// header says or is in the region that is replaced.
pub open spec fn must_move(v: ImageView, reclaim: bool, i: int) -> bool {
    &&& v.shdrs[i].sh_type != 8
    &&& v.sections[i].len() > 0
    &&& bytes_needed(v, i) != v.shdrs[i].size || (replaced_from(v, reclaim) matches Some(r)
        && v.shdrs[i].offset >= r)
}

/// Whether an address is in a section that has to move.
pub open spec fn in_moving(v: ImageView, reclaim: bool, x: u64, m: int) -> bool {
    &&& 0 <= m < v.shdrs.len()
    &&& must_move(v, reclaim, m)
    &&& v.shdrs[m].addr != 0
    &&& v.shdrs[m].addr <= x < v.shdrs[m].addr + v.shdrs[m].size
}

/// The region and the sections that move are those.
pub proof fn lemma_moving(v: ImageView, reclaim: bool)
    ensures
        region_start(v, reclaim) == replaced_from(v, reclaim),
        forall|i: int|
            0 <= i < v.shdrs.len() ==> #[trigger] relocates(v, region_start(v, reclaim), i)
                == must_move(v, reclaim, i),
{
    lemma_first_from(v.phdrs, region_at(v.ehdr.phoff), 0);
    if let Some(k) = first(v.phdrs, region_at(v.ehdr.phoff)) {
        assert(region_at(v.ehdr.phoff)(v.phdrs[k]));
    }
    if exists|k: int|
        0 <= k < v.phdrs.len() && (#[trigger] v.phdrs[k]).p_type == 1 && v.phdrs[k].offset
            == v.ehdr.phoff {
        let k = choose|k: int|
            0 <= k < v.phdrs.len() && (#[trigger] v.phdrs[k]).p_type == 1 && v.phdrs[k].offset
                == v.ehdr.phoff;
        assert(region_at(v.ehdr.phoff)(v.phdrs[k]));
    }
    assert forall|i: int| 0 <= i < v.shdrs.len() implies #[trigger] relocates(
        v,
        region_start(v, reclaim),
        i,
    ) == must_move(v, reclaim, i) by {
        lemma_section_len(v, i);
    }
}

/// What holds an address that moves is found.
proof fn lemma_moved_in(v: ImageView, reclaim: bool, x: u64, i: int)
    requires
        0 <= i,
    ensures
        moved_from(v, region_start(v, reclaim), x, i) matches Some(m) ==> i <= m && in_moving(
            v,
            reclaim,
            x,
            m,
        ) && forall|k: int| i <= k < m ==> !#[trigger] in_moving(v, reclaim, x, k),
        moved_from(v, region_start(v, reclaim), x, i) is None ==> forall|k: int|
            i <= k ==> !#[trigger] in_moving(v, reclaim, x, k),
    decreases v.shdrs.len() - i,
{
    lemma_moving(v, reclaim);
    if i < v.shdrs.len() {
        lemma_moved_in(v, reclaim, x, i + 1);
        assert(relocates(v, region_start(v, reclaim), i) == must_move(v, reclaim, i));
    }
}

/// Size of the entries in a table of relocations or symbols, by its type.
pub open spec fn entry_size(wide: bool, ty: u32) -> int {
    if ty == 4 {
        if wide {
            24
        } else {
            12
        }
    } else if ty == 9 {
        if wide {
            16
        } else {
            8
        }
    } else if wide {
        24
    } else {
        16
    }
}

/// Where in such an entry its address is: at the start of a relocation, behind the name
/// of a symbol.
pub open spec fn entry_field(wide: bool, ty: u32) -> int {
    if ty == 4 || ty == 9 {
        0
    } else if wide {
        8
    } else {
        4
    }
}

/// The address in entry `k` of the table in section `i`.
pub open spec fn entry_address(v: ImageView, i: int, k: int) -> u64 {
    let wide = v.enc.class is Elf64;
    let ty = v.shdrs[i].sh_type;
    word_at(
        v.enc.class,
        v.enc.endian,
        v.sections[i],
        k * entry_size(wide, ty) + entry_field(wide, ty),
    )
}

/// Whether section `i` is loaded and its entry `k` is a relocation or a symbol whose
/// address is in a section that has to move.
pub open spec fn points_into(v: ImageView, reclaim: bool, i: int, k: int) -> bool {
    let ty = v.shdrs[i].sh_type;
    &&& 0 <= i < v.shdrs.len()
    &&& v.shdrs[i].flags & 0x2 != 0
    &&& ty == 4 || ty == 9 || ty == 11 || ty == 2
    &&& 0 <= k
    &&& (k + 1) * entry_size(v.enc.class is Elf64, ty) <= v.sections[i].len()
    &&& exists|m: int| #[trigger] in_moving(v, reclaim, entry_address(v, i, k), m)
}

/// The entries that are looked at.
proof fn lemma_entries_hit(
    v: ImageView,
    reclaim: bool,
    data: Seq<u8>,
    size: int,
    at: int,
    k: int,
)
    requires
        0 < size,
        0 <= k,
    ensures
        entry_hits(v, region_start(v, reclaim), data, size, at, k * size) == exists|j: int|
            k <= j && (j + 1) * size <= data.len() && exists|m: int| #[trigger]
                in_moving(
                    v,
                    reclaim,
                    #[trigger] word_at(v.enc.class, v.enc.endian, data, j * size + at),
                    m,
                ),
    decreases data.len() - k * size,
{
    let region = region_start(v, reclaim);
    assert((k + 1) * size == k * size + size) by (nonlinear_arith);
    let x = word_at(v.enc.class, v.enc.endian, data, k * size + at);
    if k * size + size <= data.len() {
        lemma_entries_hit(v, reclaim, data, size, at, k + 1);
        lemma_moved_in(v, reclaim, x, 0);
        if let Some(m) = moved_from(v, region, x, 0) {
            assert(in_moving(v, reclaim, x, m));
        }
        if exists|j: int|
            k <= j && (j + 1) * size <= data.len() && exists|m: int| #[trigger]
                in_moving(
                    v,
                    reclaim,
                    #[trigger] word_at(v.enc.class, v.enc.endian, data, j * size + at),
                    m,
                ) {
            let j = choose|j: int|
                k <= j && (j + 1) * size <= data.len() && exists|m: int| #[trigger]
                    in_moving(
                        v,
                        reclaim,
                        #[trigger] word_at(v.enc.class, v.enc.endian, data, j * size + at),
                        m,
                    );
            let y = word_at(v.enc.class, v.enc.endian, data, j * size + at);
            let m = choose|m: int| #[trigger] in_moving(v, reclaim, y, m);
            if j == k {
                assert(0 <= m && in_moving(v, reclaim, x, m));
            } else {
                assert(k + 1 <= j);
            }
        }
    } else {
        if exists|j: int|
            k <= j && (j + 1) * size <= data.len() && exists|m: int| #[trigger]
                in_moving(
                    v,
                    reclaim,
                    #[trigger] word_at(v.enc.class, v.enc.endian, data, j * size + at),
                    m,
                ) {
            let j = choose|j: int|
                k <= j && (j + 1) * size <= data.len() && exists|m: int| #[trigger]
                    in_moving(
                        v,
                        reclaim,
                        #[trigger] word_at(v.enc.class, v.enc.endian, data, j * size + at),
                        m,
                    );
            assert((k + 1) * size <= (j + 1) * size) by (nonlinear_arith)
                requires
                    k <= j,
                    0 < size,
            ;
        }
    }
}

/// A table is in the way exactly when one of its entries is.
proof fn lemma_refers(v: ImageView, reclaim: bool, i: int)
    requires
        0 <= i < v.shdrs.len(),
    ensures
        refers(v, region_start(v, reclaim), i) == exists|k: int| #[trigger]
            points_into(v, reclaim, i, k),
{
    let region = region_start(v, reclaim);
    if let Some((size, at)) = address_field(v.enc.class, v.shdrs[i].sh_type) {
        let data = v.sections[i];
        lemma_entries_hit(v, reclaim, data, size, at, 0);
        assert(0 * size == 0);
        let wide = v.enc.class is Elf64;
        assert(size == entry_size(wide, v.shdrs[i].sh_type));
        assert(at == entry_field(wide, v.shdrs[i].sh_type));
        if refers(v, region, i) {
            let j = choose|j: int|
                0 <= j && (j + 1) * size <= data.len() && exists|m: int| #[trigger]
                    in_moving(
                        v,
                        reclaim,
                        #[trigger] word_at(v.enc.class, v.enc.endian, data, j * size + at),
                        m,
                    );
            let x = word_at(v.enc.class, v.enc.endian, data, j * size + at);
            assert(x == entry_address(v, i, j));
            let m = choose|m: int| #[trigger] in_moving(v, reclaim, x, m);
            assert(in_moving(v, reclaim, entry_address(v, i, j), m));
            assert(points_into(v, reclaim, i, j));
        }
        if exists|k: int| #[trigger] points_into(v, reclaim, i, k) {
            let k = choose|k: int| #[trigger] points_into(v, reclaim, i, k);
            let x = word_at(v.enc.class, v.enc.endian, data, k * size + at);
            assert(x == entry_address(v, i, k));
            let m = choose|m: int| #[trigger]
                in_moving(v, reclaim, entry_address(v, i, k), m);
            assert(in_moving(v, reclaim, x, m));
        }
    }
}

proof fn lemma_fault(v: ImageView, reclaim: bool, i: int)
    requires
        0 <= i,
    ensures
        reference_fault(v, region_start(v, reclaim), i) is Some == exists|j: int, k: int|
            i <= j && #[trigger] points_into(v, reclaim, j, k),
    decreases v.shdrs.len() - i,
{
    if i < v.shdrs.len() {
        lemma_refers(v, reclaim, i);
        lemma_fault(v, reclaim, i + 1);
        if exists|j: int, k: int| i <= j && #[trigger] points_into(v, reclaim, j, k) {
            let (j, k) = choose|j: int, k: int| i <= j && #[trigger] points_into(v, reclaim, j, k);
            if j > i {
                assert(i + 1 <= j && points_into(v, reclaim, j, k));
            }
        }
        if refers(v, region_start(v, reclaim), i) {
            let k = choose|k: int| #[trigger] points_into(v, reclaim, i, k);
            assert(i <= i && points_into(v, reclaim, i, k));
        }
    }
}

/// The refusal to move what is referred to.
pub open spec fn refused_for_references(e: ErrorView) -> bool {
    e matches ErrorView::Unsupported(t) && t.len() >= 38 && t.take(38)
        == "cannot relocate section referenced by "@
}

/// What writing an image fails with, it never fails with for references.
proof fn lemma_other_faults(w: ImageView, original: Seq<u8>, total: u64)
    ensures
        emitted(w, original, total).1 matches Err(e) ==> !(e is Unsupported),
{
    lemma_dyns_fault(w.enc, w.dynamic, w.dynamic.len() as int);
    if let Ok(u) = synced(w) {
        lemma_tables_fault(u.enc, u.phdrs, u.shdrs, u.phdrs.len() as int);
        lemma_tables_fault(u.enc, u.phdrs, u.shdrs, u.shdrs.len() as int);
        if let (Ok(h), Ok(p), Ok(t)) = (
            ehdr_out(u.enc, u.ehdr, u.phdrs.len() as int, u.shdrs.len() as int),
            phdrs_out(u.enc, u.phdrs, u.phdrs.len() as int),
            shdrs_out(u.enc, u.shdrs, u.shdrs.len() as int),
        ) {
            let s0 = with_part(Seq::empty(), original, 0, h);
            let s1 = with_part(s0, original, u.ehdr.phoff, p);
            let s2 = with_part(s1, original, u.ehdr.shoff, t);
            lemma_sections_fault(s2, u, original, u.shdrs.len() as int);
        }
        if let Ok(spans) = spans_of(u, original) {
            lemma_spans_fault(sort_spans(spans), 0, 0, total);
        }
    }
}

proof fn lemma_dyns_fault(enc: Encoding, d: Seq<DynEntry>, n: int)
    ensures
        dyns_out(enc, d, n) matches Err(e) ==> !(e is Unsupported),
    decreases n,
{
    if n > 0 {
        lemma_dyns_fault(enc, d, n - 1);
    }
}

proof fn lemma_tables_fault(enc: Encoding, phdrs: Seq<Phdr>, shdrs: Seq<Shdr>, n: int)
    ensures
        phdrs_out(enc, phdrs, n) matches Err(e) ==> !(e is Unsupported),
        shdrs_out(enc, shdrs, n) matches Err(e) ==> !(e is Unsupported),
    decreases n,
{
    if n > 0 {
        lemma_tables_fault(enc, phdrs, shdrs, n - 1);
    }
}

proof fn lemma_sections_fault(spans: Seq<SpanView>, w: ImageView, original: Seq<u8>, n: int)
    ensures
        with_sections(spans, w, original, n) matches Err(e) ==> !(e is Unsupported),
    decreases n,
{
    if n > 0 {
        lemma_sections_fault(spans, w, original, n - 1);
    }
}

proof fn lemma_spans_fault(spans: Seq<SpanView>, k: int, cur: int, total: u64)
    requires
        0 <= k,
    ensures
        fault_from(spans, k, cur, total) matches Some(e) ==> !(e is Unsupported),
    decreases spans.len() - k,
{
    if k < spans.len() {
        lemma_spans_fault(spans, k + 1, spans[k].end(), total);
    }
}

/// A relayout is refused for references exactly when a loaded section holds a relocation
/// or a symbol whose address is in a section that has to move. What is in sections that
/// are not loaded does not matter.
pub proof fn law_refused_for_references(
    v: ImageView,
    original: Seq<u8>,
    page_size: Option<u64>,
    reclaim: bool,
)
    ensures
        relayout_result(v, original, page_size, reclaim).1 matches Err(e) ==> (
        refused_for_references(e) ==> exists|i: int, k: int| #[trigger]
            points_into(v, reclaim, i, k)),
        (exists|i: int, k: int| #[trigger] points_into(v, reclaim, i, k)) ==> relayout_result(
            v,
            original,
            page_size,
            reclaim,
        ).1 is Err,
{
    let region = region_start(v, reclaim);
    lemma_fault(v, reclaim, 0);
    if exists|i: int, k: int| #[trigger] points_into(v, reclaim, i, k) {
        let (i, k) = choose|i: int, k: int| #[trigger] points_into(v, reclaim, i, k);
        assert(0 <= i && points_into(v, reclaim, i, k));
    }
    let segs = kept(v, reclaim);
    let plan = plan_of(v, segs, region, original.len() as int, page_size);
    lemma_other_faults(relaid(v, region, plan, segs), original, plan.total as u64);
    reveal_strlit("cannot relocate section referenced by ");
    reveal_strlit("no PT_PHDR segment; cannot relocate program headers");
    let t = "no PT_PHDR segment; cannot relocate program headers"@;
    assert(t[0] == 'n' && "cannot relocate section referenced by "@[0] == 'c');
    assert(t.take(38)[0] == t[0]);
}

/// Whatever sections that are not loaded hold, a relayout is refused for references or
/// not all the same.
pub proof fn law_unloaded_does_not_matter(v: ImageView, w: ImageView, reclaim: bool)
    requires
        w == (ImageView { sections: w.sections, ..v }),
        w.sections.len() == v.sections.len(),
        forall|i: int|
            0 <= i < v.sections.len() ==> (#[trigger] w.sections[i]).len() == v.sections[i].len()
                && (v.shdrs[i].flags & 0x2 != 0 ==> w.sections[i] == v.sections[i]),
        v.wf(),
    ensures
        (exists|i: int, k: int| #[trigger] points_into(v, reclaim, i, k)) == (exists|i: int, k: int|
         #[trigger]
            points_into(w, reclaim, i, k)),
{
    lemma_unloaded(v, w, reclaim);
    lemma_unloaded(w, v, reclaim);
}

proof fn lemma_unloaded(v: ImageView, w: ImageView, reclaim: bool)
    requires
        w == (ImageView { sections: w.sections, ..v }),
        w.sections.len() == v.sections.len(),
        forall|i: int|
            0 <= i < v.sections.len() ==> (#[trigger] w.sections[i]).len() == v.sections[i].len()
                && (v.shdrs[i].flags & 0x2 != 0 ==> w.sections[i] == v.sections[i]),
        v.wf(),
    ensures
        (exists|i: int, k: int| #[trigger] points_into(v, reclaim, i, k)) ==> (exists|i: int, k: int|
         #[trigger]
            points_into(w, reclaim, i, k)),
{
    if exists|i: int, k: int| #[trigger] points_into(v, reclaim, i, k) {
        let (i, k) = choose|i: int, k: int| #[trigger] points_into(v, reclaim, i, k);
        assert(w.phdrs == v.phdrs && w.ehdr == v.ehdr && w.shdrs == v.shdrs && w.enc == v.enc);
        assert(w.sections[i] == v.sections[i]);
        assert(entry_address(w, i, k) == entry_address(v, i, k));
        let x = entry_address(v, i, k);
        let m = choose|m: int| #[trigger] in_moving(v, reclaim, x, m);
        assert(w.sections[m].len() == v.sections[m].len());
        assert(replaced_from(w, reclaim) == replaced_from(v, reclaim));
        assert(w.dyn_idx() == v.dyn_idx());
        assert(in_moving(w, reclaim, entry_address(w, i, k), m));
        assert(points_into(w, reclaim, i, k));
    }
}

/// The segment that a relayout adds: the last one, loaded, readable and writable.
pub open spec fn added(w: ImageView) -> Phdr {
    w.phdrs.last()
}

/// A relayout leaves the headers of the sections that need not move. One that moves keeps
/// all but its place and size, has the size that it needs, and is in the segment that is
/// added, at the address that the segment loads it to.
pub proof fn law_relayout_sections(
    v: ImageView,
    original: Seq<u8>,
    page_size: Option<u64>,
    reclaim: bool,
    i: int,
)
    requires
        v.wf(),
        0 <= i < v.shdrs.len(),
    ensures
        relayout_result(v, original, page_size, reclaim) matches (w, Ok(_)) ==> {
            let s = w.shdrs[i];
            let p = added(w);
            &&& w.shdrs.len() == v.shdrs.len()
            &&& s == (Shdr { offset: s.offset, addr: s.addr, size: s.size, ..v.shdrs[i] })
            &&& !must_move(v, reclaim, i) ==> s == v.shdrs[i]
            &&& must_move(v, reclaim, i) ==> {
                &&& s.size == bytes_needed(v, i)
                &&& p.offset <= s.offset
                &&& s.offset + s.size <= p.offset + p.filesz
                &&& s.addr - p.vaddr == s.offset - p.offset
            }
        },
{
    lemma_moving(v, reclaim);
    if let (w, Ok(_)) = relayout_result(v, original, page_size, reclaim) {
        let region = region_start(v, reclaim);
        let segs = kept(v, reclaim);
        let plan = plan_of(v, segs, region, original.len() as int, page_size);
        lemma_plan(v, segs, region, original.len() as int, page_size);
        lemma_section_len(v, i);
        lemma_moved_size(v, region, i, v.shdrs.len() as int);
        lemma_added(v, original, page_size, reclaim);
        assert(relocates(v, region, i) == must_move(v, reclaim, i));
    }
}

/// The segment that is added is not one that is pointed elsewhere.
pub proof fn lemma_added(v: ImageView, original: Seq<u8>, page_size: Option<u64>, reclaim: bool)
    ensures
        relayout_result(v, original, page_size, reclaim) matches (w, Ok(_)) ==> {
            let segs = kept(v, reclaim);
            let plan = plan_of(
                v,
                segs,
                region_start(v, reclaim),
                original.len() as int,
                page_size,
            );
            added(w) == new_load(plan) && w.phdrs.len() == segs.len() + 1
        },
{
    let segs = kept(v, reclaim);
    if let Some(s) = v.find_section(".note.nixos.ldcache"@) {
        lemma_first_from(segs, note_at(v.shdrs[s].offset), 0);
    }
}

/// The segment that a relayout adds begins with the program headers. Its alignment is
/// that of a page of the machine, or more; it is where the loader takes the program
/// headers to be, the load address plus their offset; and the header of the file changes
/// only in where the tables are.
pub proof fn law_relayout_region(
    v: ImageView,
    original: Seq<u8>,
    page_size: Option<u64>,
    reclaim: bool,
)
    requires
        v.wf(),
    ensures
        relayout_result(v, original, page_size, reclaim) matches (w, Ok(_)) ==> {
            let p = added(w);
            let page: u64 = match page_size {
                Some(n) => n,
                None => if v.ehdr.machine == 8 || v.ehdr.machine == 20 || v.ehdr.machine == 21
                    || v.ehdr.machine == 183 {
                    0x10000
                } else {
                    0x1000
                },
            };
            &&& w.ehdr == (EhdrView { phoff: p.offset, shoff: w.ehdr.shoff, ..v.ehdr })
            &&& w.shdrs.len() > 0 ==> p.offset < w.ehdr.shoff <= p.offset + p.filesz
            &&& w.shdrs.len() == 0 ==> w.ehdr.shoff == 0
            &&& p.p_type == 1 && p.flags == 6
            &&& p.vaddr == p.paddr && p.filesz == p.memsz
            &&& p.align >= page
            &&& p.align > 1 ==> p.offset as int % p.align as int == 0
            &&& forall|k: int|
                0 <= k < w.phdrs.len() - 1 && (#[trigger] w.phdrs[k]).p_type == 1 ==> p.vaddr
                    - p.offset <= w.phdrs[k].vaddr
            &&& (exists|k: int|
                0 <= k < w.phdrs.len() - 1 && (#[trigger] w.phdrs[k]).p_type == 1 && p.vaddr
                    - p.offset == w.phdrs[k].vaddr) || p.vaddr == p.offset
        },
{
    if let (w, Ok(_)) = relayout_result(v, original, page_size, reclaim) {
        let region = region_start(v, reclaim);
        let segs = kept(v, reclaim);
        let plan = plan_of(v, segs, region, original.len() as int, page_size);
        let n = segs.len() as int;
        lemma_plan(v, segs, region, original.len() as int, page_size);
        lemma_added(v, original, page_size, reclaim);
        lemma_page(segs, page_of(v.ehdr.machine, page_size), n);
        lemma_base(segs, n);
        lemma_segments_kept(v, original, page_size, reclaim);
        let from = match region {
            Some(r) => r as int,
            None => original.len() as int,
        };
        let end = rounded_up(max_end(segs, n), plan.align as int);
        lemma_rounded_up(max(from, end - base_of(segs)), plan.align as int);
        assert((segs.len() + 1) * phdr_len(v.enc.class) > 0) by (nonlinear_arith)
            requires
                phdr_len(v.enc.class) > 0,
        ;
        assert(4u32 | 2u32 == 6u32) by (bit_vector);
        let p = added(w);
        assert forall|k: int|
            0 <= k < w.phdrs.len() - 1 && (#[trigger] w.phdrs[k]).p_type == 1 implies p.vaddr
            - p.offset <= w.phdrs[k].vaddr by {
            assert(w.phdrs[k].p_type == segs[k].p_type);
            assert(w.phdrs[k] == segs[k]);
        }
        if base_of(segs) != 0 {
            let k = choose|k: int|
                0 <= k < n && (#[trigger] segs[k]).p_type == 1 && segs[k].vaddr == base_of(segs);
            assert(w.phdrs[k] == segs[k]);
        }
    }
}

proof fn lemma_page(segs: Seq<Phdr>, page: u64, n: int)
    requires
        0 <= n <= segs.len(),
    ensures
        max_align(segs, page, n) >= page,
    decreases n,
{
    if n > 0 {
        lemma_page(segs, page, n - 1);
    }
}

/// The lowest address of a loaded segment.
proof fn lemma_base(segs: Seq<Phdr>, n: int)
    requires
        0 <= n <= segs.len(),
    ensures
        forall|k: int|
            0 <= k < n && (#[trigger] segs[k]).p_type == 1 ==> min_load(segs, n) <= segs[k].vaddr,
        min_load(segs, n) != u64::MAX ==> exists|k: int|
            0 <= k < n && (#[trigger] segs[k]).p_type == 1 && segs[k].vaddr == min_load(segs, n),
    decreases n,
{
    if n > 0 {
        lemma_base(segs, n - 1);
        if min_load(segs, n) != u64::MAX {
            if min_load(segs, n) == min_load(segs, n - 1) {
                let k = choose|k: int|
                    0 <= k < n - 1 && (#[trigger] segs[k]).p_type == 1 && segs[k].vaddr == min_load(
                        segs,
                        n - 1,
                    );
                assert(segs[k].p_type == 1);
            } else {
                assert(segs[n - 1].p_type == 1);
            }
        }
    }
}

/// What is done to the segments that stay.
proof fn lemma_segments_kept(v: ImageView, original: Seq<u8>, page_size: Option<u64>, reclaim: bool)
    ensures
        relayout_result(v, original, page_size, reclaim) matches (w, Ok(_)) ==> forall|k: int|
            0 <= k < kept(v, reclaim).len() ==> (#[trigger] w.phdrs[k]).p_type == kept(
                v,
                reclaim,
            )[k].p_type && (w.phdrs[k].p_type == 1 ==> w.phdrs[k] == kept(v, reclaim)[k]),
{
    let segs = kept(v, reclaim);
    if let Some(s) = v.find_section(".note.nixos.ldcache"@) {
        lemma_first_from(segs, note_at(v.shdrs[s].offset), 0);
        if let Some(k) = first(segs, note_at(v.shdrs[s].offset)) {
            assert(note_at(v.shdrs[s].offset)(segs[k]));
        }
    }
}

/// Whether a segment covers exactly what a section header says.
pub open spec fn covers_section(p: Phdr, s: Shdr) -> bool {
    p.offset == s.offset && p.vaddr == s.addr && p.paddr == s.addr && p.filesz == s.size && p.memsz
        == s.size
}

/// A relayout keeps the segments, but for the region that it replaces, in their order,
/// each with its type, flags and alignment. That of the program headers covers them in
/// their new place; those of the dynamic array and of the interpreter cover their
/// sections; all others stay as they were, but for a note that covered the library
/// cache, which covers it still. Gives the place of the region that was replaced.
pub proof fn law_relayout_segments(
    v: ImageView,
    original: Seq<u8>,
    page_size: Option<u64>,
    reclaim: bool,
) -> (r: int)
    requires
        v.wf(),
    ensures
        relayout_result(v, original, page_size, reclaim) matches (w, Ok(_)) ==> {
            let n = w.phdrs.len() - 1;
            &&& replaced_from(v, reclaim) is None ==> r == n && v.phdrs.len() == n
            &&& replaced_from(v, reclaim) is Some ==> 0 <= r < v.phdrs.len() && v.phdrs.len() == n
                + 1 && v.phdrs[r].p_type == 1 && v.phdrs[r].offset == v.ehdr.phoff
            &&& forall|k: int|
                0 <= k < n ==> {
                    let a = v.phdrs[if k < r {
                        k
                    } else {
                        k + 1
                    }];
                    let b = #[trigger] w.phdrs[k];
                    &&& b.p_type == a.p_type && b.flags == a.flags && b.align == a.align
                    &&& b.p_type == 6 ==> b.offset == w.ehdr.phoff && b.vaddr == added(w).vaddr
                        && b.paddr == b.vaddr && b.memsz == b.filesz && b.filesz == w.phdrs.len()
                        * (if v.enc.class is Elf64 {
                        56int
                    } else {
                        32
                    })
                    &&& b.p_type == 2 && v.dyn_idx() is Some ==> covers_section(
                        b,
                        w.shdrs[v.dyn_idx()->Some_0],
                    )
                    &&& b.p_type == 3 && v.find_section(".interp"@) is Some ==> covers_section(
                        b,
                        w.shdrs[v.find_section(".interp"@)->Some_0],
                    )
                    &&& b.p_type != 6 && !(b.p_type == 2 && v.dyn_idx() is Some) && !(b.p_type == 3
                        && v.find_section(".interp"@) is Some) && b != a ==> b.p_type == 4 && (
                    v.find_section(".note.nixos.ldcache"@) matches Some(s) && a.offset
                        == v.shdrs[s].offset && covers_section(b, w.shdrs[s]))
                }
        },
{
    lemma_moving(v, reclaim);
    let segs = kept(v, reclaim);
    if let Some(s) = v.find_section(".note.nixos.ldcache"@) {
        lemma_first_from(segs, note_at(v.shdrs[s].offset), 0);
        if let Some(k) = first(segs, note_at(v.shdrs[s].offset)) {
            assert(note_at(v.shdrs[s].offset)(segs[k]));
        }
    }
    lemma_first_from(v.phdrs, region_at(v.ehdr.phoff), 0);
    let r = match prior(v, reclaim) {
        Some(k) => k,
        None => v.phdrs.len() as int,
    };
    if let Some(k) = prior(v, reclaim) {
        assert(region_at(v.ehdr.phoff)(v.phdrs[k]));
    }
    lemma_added(v, original, page_size, reclaim);
    if let (w, Ok(_)) = relayout_result(v, original, page_size, reclaim) {
        let plan = plan_of(v, segs, region_start(v, reclaim), original.len() as int, page_size);
        lemma_plan(v, segs, region_start(v, reclaim), original.len() as int, page_size);
        assert forall|k: int| 0 <= k < segs.len() implies #[trigger] segs[k] == v.phdrs[if k < r {
            k
        } else {
            k + 1
        }] by {}
    }
    r
}

/// Whether the loader takes the value of a dynamic entry with this tag for an address.
pub open spec fn tells_address(tag: i64) -> bool {
    tag == 3 || tag == 4 || tag == 5 || tag == 6 || tag == 7 || tag == 12 || tag == 13 || tag == 17
        || tag == 23 || tag == 25 || tag == 26 || tag == 32 || tag == 36 || tag == 0x6fff_fef5
        || tag == 0x6fff_fff0 || tag == 0x6fff_fffc || tag == 0x6fff_fffe
}

/// After a relayout an address in a section that moved, in whatever dynamic entry tells
/// one, is as far into that section as it was; the size of the strings is that of their
/// section; and no other entry changes.
pub proof fn law_relayout_dynamic(
    v: ImageView,
    original: Seq<u8>,
    page_size: Option<u64>,
    reclaim: bool,
    k: int,
    m: int,
)
    requires
        v.wf(),
        0 <= k < v.dynamic.len(),
        forall|j: int|
            j != m ==> !#[trigger] in_moving(v, reclaim, v.dynamic[k].val, j),
    ensures
        relayout_result(v, original, page_size, reclaim) matches (w, Ok(_)) ==> {
            let a = v.dynamic[k];
            let b = w.dynamic[k];
            &&& w.dynamic.len() == v.dynamic.len()
            &&& b.tag == a.tag
            &&& tells_address(a.tag) && in_moving(v, reclaim, a.val, m) ==> b.val
                - w.shdrs[m].addr == a.val - v.shdrs[m].addr
            &&& tells_address(a.tag) && !in_moving(v, reclaim, a.val, m) ==> b == a
            &&& a.tag == 10 && v.find_section(".dynstr"@) is Some ==> b.val
                == w.shdrs[v.find_section(".dynstr"@)->Some_0].size
            &&& !tells_address(a.tag) && !(a.tag == 10 && v.find_section(".dynstr"@) is Some)
                ==> b == a
        },
{
    lemma_moving(v, reclaim);
    let x = v.dynamic[k].val;
    lemma_moved_in(v, reclaim, x, 0);
    if let (w, Ok(_)) = relayout_result(v, original, page_size, reclaim) {
        let region = region_start(v, reclaim);
        let segs = kept(v, reclaim);
        let plan = plan_of(v, segs, region, original.len() as int, page_size);
        lemma_plan(v, segs, region, original.len() as int, page_size);
        if let Some(i) = moved_from(v, region, x, 0) {
            assert(in_moving(v, reclaim, x, i));
            assert(i == m);
            assert(relocates(v, region, i));
            lemma_moved_size(v, region, i, v.shdrs.len() as int);
            lemma_section_len(v, i);
            assert(new_addr(v, region, plan, i) + v.shdrs[i].size <= u64::MAX);
        } else if in_moving(v, reclaim, x, m) {
            assert(0 <= m);
        }
    }
}

/// A file in which every section has the size that it needs, and that gets no segment, is
/// written in place: it keeps its length, and its header and tables stay; any other is
/// laid out anew.
pub proof fn law_written_in_place(
    v: ImageView,
    original: Seq<u8>,
    page_size: Option<u64>,
    no_clobber: bool,
)
    requires
        v.wf(),
        original.len() <= u64::MAX,
        ehdr_at(original) is Ok,
    ensures
        (forall|i: int|
            0 <= i < v.shdrs.len() && (#[trigger] v.shdrs[i]).sh_type != 8 ==> bytes_needed(v, i)
                == v.shdrs[i].size) && v.phdrs.len() <= ehdr_at(original)->Ok_0.2 ==> (finalized(
            v,
            original,
            page_size,
            no_clobber,
        ) matches (w, Ok(out)) ==> w == (ImageView { sections: w.sections, ..v }) && out.len()
            == original.len()),
        !((forall|i: int|
            0 <= i < v.shdrs.len() && (#[trigger] v.shdrs[i]).sh_type != 8 ==> bytes_needed(v, i)
                == v.shdrs[i].size) && v.phdrs.len() <= ehdr_at(original)->Ok_0.2) ==> (
        v.ehdr.e_type == 2 || v.ehdr.e_type == 3 ==> finalized(v, original, page_size, no_clobber)
            == relayout_result(v, original, page_size, !no_clobber)),
{
    lemma_none_needed(v, v.shdrs.len() as int);
    if let (w, Ok(out)) = finalized(v, original, page_size, no_clobber) {
        if v.phdrs.len() <= ehdr_at(original)->Ok_0.2 && grown_count(v, v.shdrs.len() as int) == 0 {
            assert(out.len() == original.len());
        }
    }
}

proof fn lemma_none_needed(v: ImageView, n: int)
    requires
        0 <= n <= v.shdrs.len(),
    ensures
        grown_count(v, n) >= 0,
        grown_count(v, n) == 0 <==> forall|i: int|
            0 <= i < n && (#[trigger] v.shdrs[i]).sh_type != 8 ==> bytes_needed(v, i)
                == v.shdrs[i].size,
    decreases n,
{
    if n > 0 {
        lemma_none_needed(v, n - 1);
        assert(grown(v, n - 1) == (v.shdrs[n - 1].sh_type != 8 && bytes_needed(v, n - 1)
            != v.shdrs[n - 1].size));
    }
}

/// Whether two segments are loaded to addresses of their own.
pub open spec fn addresses_apart(p: Phdr, q: Phdr) -> bool {
    p.memsz == 0 || q.memsz == 0 || p.vaddr + p.memsz <= q.vaddr || q.vaddr + q.memsz <= p.vaddr
}

/// What is written is loadable: loaded segments have addresses of their own, none is both
/// writable and executable, offsets and addresses agree, the program headers are loaded,
/// and alignments are powers of two.
pub proof fn law_written_is_loadable(
    v: ImageView,
    original: Seq<u8>,
    page_size: Option<u64>,
    no_clobber: bool,
)
    ensures
        finalized(v, original, page_size, no_clobber) matches (w, Ok(_)) ==> {
            &&& forall|i: int, j: int|
                0 <= i < j < w.phdrs.len() && (#[trigger] w.phdrs[i]).p_type == 1 && (
                #[trigger] w.phdrs[j]).p_type == 1 ==> addresses_apart(w.phdrs[i], w.phdrs[j])
            &&& forall|i: int|
                0 <= i < w.phdrs.len() ==> {
                    let p = #[trigger] w.phdrs[i];
                    &&& p.p_type == 1 ==> p.flags & 2 == 0 || p.flags & 1 == 0
                    &&& p.p_type == 1 && p.align > 1 ==> p.offset as int % p.align as int
                        == p.vaddr as int % p.align as int
                    &&& p.p_type == 6 ==> exists|j: int|
                        0 <= j < w.phdrs.len() && (#[trigger] w.phdrs[j]).p_type == 1
                            && w.phdrs[j].vaddr <= p.vaddr && p.vaddr + p.memsz <= w.phdrs[j].vaddr
                            + w.phdrs[j].memsz
                    &&& p.align > 1 ==> exists|k: nat| p.align == #[trigger] pow2(k)
                }
        },
{
    if let (w, Ok(_)) = finalized(v, original, page_size, no_clobber) {
        assert(violation(w.phdrs) is None);
        assert forall|i: int| 0 <= i < w.phdrs.len() implies {
            let p = #[trigger] w.phdrs[i];
            &&& p.p_type == 1 ==> p.flags & 2 == 0 || p.flags & 1 == 0
            &&& p.p_type == 1 && p.align > 1 ==> p.offset as int % p.align as int == p.vaddr as int
                % p.align as int
            &&& p.p_type == 6 ==> exists|j: int|
                0 <= j < w.phdrs.len() && (#[trigger] w.phdrs[j]).p_type == 1 && w.phdrs[j].vaddr
                    <= p.vaddr && p.vaddr + p.memsz <= w.phdrs[j].vaddr + w.phdrs[j].memsz
            &&& p.align > 1 ==> exists|k: nat| p.align == #[trigger] pow2(k)
        } by {
            let p = w.phdrs[i];
            assert(!writable_code(p));
            assert(!incongruent(p));
            assert(!loose_phdr(w.phdrs, p));
            assert(!misaligned(p));
            if p.align > 1 {
                let k = lemma_power(p.align as int);
                assert(p.align == pow2(k));
            }
            if p.p_type == 6 {
                let j = choose|j: int| 0 <= j < w.phdrs.len() && holds(#[trigger] w.phdrs[j], p);
                assert(w.phdrs[j].p_type == 1);
            }
        }
    }
}

pub proof fn lemma_power(n: int) -> (k: nat)
    requires
        power_of_two(n),
        n >= 1,
    ensures
        n == pow2(k),
    decreases n,
{
    if n == 1 {
        vstd::arithmetic::power2::lemma2_to64();
        0
    } else {
        let k = lemma_power(n / 2);
        vstd::arithmetic::power2::lemma_pow2_unfold((k + 1) as nat);
        (k + 1) as nat
    }
}

} // verus!
