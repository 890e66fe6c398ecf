//! Where a relayout puts things.
use vstd::prelude::*;

use crate::codec::{record_of, PN_XNUM};
use crate::constraints::share_address;
use crate::error::Outcome;
use crate::ir::{dt, pt, section_type, segment_type, sht, DynEntry, ImageView, Phdr, Shdr};
use crate::laws::files::in_place;
use crate::laws::output::{
    has_part, lemma_phdrs_out, lemma_shdrs_out, lemma_spans_are, part, part_count, parts_apart,
    placed, placeless, tables_placed,
};
use crate::laws::passes::{law_emitted_reads_back, law_second_pass, read_back, writable};
use crate::layout::{
    base_of, finalized, kept, lemma_max_end, lemma_moved_size, lemma_plan, lemma_section_len,
    moved_from, new_load, new_offset, note_at, placed_sections, placed_segments, plan_fits, plan_of,
    prior, rebased, region_at, region_start, relaid, relayout_result, relocates, section_len,
    synced, Plan,
};
use crate::parser::parsed;
use crate::raw::{dyn_len, header_len, shdr_len};
use crate::roundtrip::lemma_header_len;
use crate::seqs::{first, lemma_first_from, lemma_first_is, lemma_first_none};
use crate::serialize::spans_of;

verus! {

/// The new region starts behind what is in the file, or no earlier than the one that
/// it replaces, and its address is past every segment that stays.
pub proof fn law_region_is_free(
    v: ImageView,
    segs: Seq<Phdr>,
    region: Option<u64>,
    file_len: int,
    page_size: Option<u64>,
)
    requires
        v.wf(),
        0 <= file_len,
    ensures
        ({
            let plan = plan_of(v, segs, region, file_len, page_size);
            &&& match region {
                Some(r) => r <= plan.start,
                None => file_len <= plan.start,
            }
            &&& forall|i: int|
                0 <= i < segs.len() ==> (#[trigger] segs[i]).vaddr + segs[i].memsz <= plan.vaddr
            &&& plan_fits(v, region, plan) ==> forall|i: int|
                0 <= i < segs.len() ==> !share_address(#[trigger] segs[i], new_load(plan))
        }),
{
    lemma_plan(v, segs, region, file_len, page_size);
    lemma_max_end(segs, segs.len() as int);
}

/// Every byte of the region keeps the distance between its address and its offset
/// that the loader takes for granted: that of the lowest loaded segment.
pub proof fn law_region_is_linear(
    v: ImageView,
    segs: Seq<Phdr>,
    region: Option<u64>,
    file_len: int,
    page_size: Option<u64>,
    i: int,
)
    requires
        v.wf(),
        0 <= file_len,
        plan_fits(v, region, plan_of(v, segs, region, file_len, page_size)),
        0 <= i < v.shdrs.len(),
        relocates(v, region, i),
    ensures
        ({
            let plan = plan_of(v, segs, region, file_len, page_size);
            let s = placed_sections(v, region, plan)[i];
            &&& s.addr == base_of(segs) + s.offset
            &&& s.offset >= plan.start + plan.pht + plan.sht
            &&& s.offset + s.size <= plan.start + plan.needed
            &&& new_load(plan).vaddr == base_of(segs) + new_load(plan).offset
            &&& new_load(plan).vaddr <= s.addr
            &&& s.addr + s.size <= new_load(plan).vaddr + new_load(plan).memsz
        }),
{
    lemma_plan(v, segs, region, file_len, page_size);
    lemma_moved_size(v, region, i, v.shdrs.len() as int);
    lemma_section_len(v, i);
}

/// Sections that move come one after the other, apart from each other.
pub proof fn law_moved_sections_apart(
    v: ImageView,
    segs: Seq<Phdr>,
    region: Option<u64>,
    file_len: int,
    page_size: Option<u64>,
    i: int,
    j: int,
)
    requires
        v.wf(),
        0 <= file_len,
        plan_fits(v, region, plan_of(v, segs, region, file_len, page_size)),
        0 <= i < j < v.shdrs.len(),
        relocates(v, region, i),
        relocates(v, region, j),
    ensures
        ({
            let s = placed_sections(v, region, plan_of(v, segs, region, file_len, page_size));
            s[i].offset + s[i].size <= s[j].offset
        }),
{
    lemma_plan(v, segs, region, file_len, page_size);
    lemma_moved_size(v, region, i, j);
    lemma_moved_size(v, region, j, v.shdrs.len() as int);
    lemma_moved_size(v, region, i, v.shdrs.len() as int);
    lemma_section_len(v, i);
}

/// A section that does not move keeps its header.
pub proof fn law_others_stay(v: ImageView, region: Option<u64>, plan: Plan, i: int)
    requires
        0 <= i < v.shdrs.len(),
        !relocates(v, region, i),
    ensures
        placed_sections(v, region, plan)[i] == v.shdrs[i],
{
}

/// A dynamic tag that held the address of a section that moved holds its new one.
pub proof fn law_address_follows(
    v: ImageView,
    segs: Seq<Phdr>,
    region: Option<u64>,
    file_len: int,
    page_size: Option<u64>,
    d: DynEntry,
    i: int,
)
    requires
        v.wf(),
        0 <= file_len,
        plan_fits(v, region, plan_of(v, segs, region, file_len, page_size)),
        0 <= i < v.shdrs.len(),
        crate::layout::address_tag(d.tag),
        moved_from(v, region, d.val, 0) == Some(i),
        d.val == v.shdrs[i].addr,
    ensures
        ({
            let plan = plan_of(v, segs, region, file_len, page_size);
            let s = placed_sections(v, region, plan);
            rebased(v, region, s, plan, d) == (DynEntry { val: s[i].addr, ..d })
        }),
{
    lemma_plan(v, segs, region, file_len, page_size);
    lemma_moved_from(v, region, d.val, 0);
    lemma_moved_size(v, region, i, v.shdrs.len() as int);
}

proof fn lemma_moved_from(v: ImageView, region: Option<u64>, x: u64, i: int)
    requires
        0 <= i,
    ensures
        moved_from(v, region, x, i) matches Some(k) ==> i <= k < v.shdrs.len() && relocates(
            v,
            region,
            k,
        ) && v.shdrs[k].addr <= x < v.shdrs[k].addr + v.shdrs[k].size,
    decreases v.shdrs.len() - i,
{
    if i < v.shdrs.len() {
        lemma_moved_from(v, region, x, i + 1);
    }
}

/// Number of loaded segments among the first `n`.
pub open spec fn loads(segs: Seq<Phdr>, n: int) -> int
    decreases n,
{
    if n <= 0 {
        0
    } else {
        loads(segs, n - 1) + if segs[n - 1].p_type == pt::LOAD {
            1int
        } else {
            0
        }
    }
}

proof fn lemma_loads_same(a: Seq<Phdr>, b: Seq<Phdr>, n: int)
    requires
        n <= a.len(),
        n <= b.len(),
        forall|i: int| 0 <= i < n ==> (#[trigger] a[i]).p_type == b[i].p_type,
    ensures
        loads(a, n) == loads(b, n),
    decreases n,
{
    if n > 0 {
        lemma_loads_same(a, b, n - 1);
        assert(a[n - 1].p_type == b[n - 1].p_type);
    }
}

proof fn lemma_loads_remove(a: Seq<Phdr>, k: int, n: int)
    requires
        0 <= k < a.len(),
        k < n <= a.len(),
        a[k].p_type == pt::LOAD,
    ensures
        loads(a.remove(k), n - 1) == loads(a, n) - 1,
    decreases n,
{
    if n == k + 1 {
        lemma_loads_same(a.remove(k), a, k);
    } else {
        lemma_loads_remove(a, k, n - 1);
        assert(a.remove(k)[n - 2] == a[n - 1]);
    }
}

/// A relayout adds one loaded segment; one that replaces the region of another adds
/// none.
pub proof fn law_loads(v: ImageView, reclaim: bool, plan: Plan, shdrs: Seq<Shdr>)
    ensures
        ({
            let segs = kept(v, reclaim);
            let after = placed_segments(v, shdrs, plan, segs);
            loads(after, after.len() as int) == loads(v.phdrs, v.phdrs.len() as int) + if prior(
                v,
                reclaim,
            ) is Some {
                0int
            } else {
                1
            }
        }),
{
    let segs = kept(v, reclaim);
    let after = placed_segments(v, shdrs, plan, segs);
    let all = segs.push(new_load(plan));
    let n = segs.len() as int;
    lemma_loads_same(after, all, n + 1);
    lemma_loads_same(all, segs, n);
    if let Some(k) = prior(v, reclaim) {
        lemma_first_from(v.phdrs, region_at(v.ehdr.phoff), 0);
        lemma_loads_remove(v.phdrs, k, v.phdrs.len() as int);
    }
}

/// A second relayout that may replace the region of the first one does.
pub proof fn law_region_is_replaced(
    v: ImageView,
    plan: Plan,
    shdrs: Seq<Shdr>,
    segs: Seq<Phdr>,
    w: ImageView,
)
    requires
        w.phdrs == placed_segments(v, shdrs, plan, segs),
        w.ehdr.phoff == new_load(plan).offset,
        v.find_section(".note.nixos.ldcache"@) matches Some(k) ==> 0 <= k < v.shdrs.len(),
    ensures
        prior(w, true) is Some,
{
    let k = segs.len() as int;
    let all = segs.push(new_load(plan));
    if let Some(s) = v.find_section(".note.nixos.ldcache"@) {
        lemma_first_from(segs, note_at(v.shdrs[s].offset), 0);
    }
    assert(w.phdrs[k] == new_load(plan));
    assert(region_at(w.ehdr.phoff)(w.phdrs[k]));
    lemma_first_from(w.phdrs, region_at(w.ehdr.phoff), 0);
}

/// Where the region may start at the earliest.
pub open spec fn bound(region: Option<u64>, file_len: int) -> int {
    match region {
        Some(r) => r as int,
        None => file_len,
    }
}

/// Whether section `i` stays and has a place in the file.
pub open spec fn stays(v: ImageView, region: Option<u64>, i: int) -> bool {
    v.shdrs[i].sh_type != sht::NOBITS && !relocates(v, region, i)
}

/// Whether the sections that stay lie before the new region, as the file header
/// does.
pub open spec fn bounded(v: ImageView, region: Option<u64>, file_len: int) -> bool {
    &&& header_len(v.enc.class) <= bound(region, file_len)
    &&& forall|i: int|
        0 <= i < v.shdrs.len() && #[trigger] stays(v, region, i) ==> v.shdrs[i].offset
            + v.shdrs[i].size <= bound(region, file_len)
}

/// Whether section `i` shares no byte with the file header.
pub open spec fn behind_header(v: ImageView, i: int) -> bool {
    v.shdrs[i].size > 0 ==> header_len(v.enc.class) <= v.shdrs[i].offset
}

/// Whether the sections that stay lie behind the file header, or are as the file has
/// them.
pub open spec fn header_clear(v: ImageView, region: Option<u64>, original: Seq<u8>) -> bool {
    forall|i: int|
        0 <= i < v.shdrs.len() && #[trigger] stays(v, region, i) ==> behind_header(v, i) || (
        in_place(v, original, i) && v.dyn_idx() != Some(i))
}

/// Whether the sections that stay lie apart from each other.
pub open spec fn stay_apart(v: ImageView, region: Option<u64>) -> bool {
    forall|i: int, j: int|
        0 <= i < j < v.shdrs.len() && #[trigger] stays(v, region, i) && #[trigger] stays(
            v,
            region,
            j,
        ) ==> v.shdrs[i].size == 0 || v.shdrs[j].size == 0 || v.shdrs[i].offset + v.shdrs[i].size
            <= v.shdrs[j].offset || v.shdrs[j].offset + v.shdrs[j].size <= v.shdrs[i].offset
}

/// Whether the sections that stay lie behind the file header and before the new
/// region, and apart from each other.
pub open spec fn settled(v: ImageView, region: Option<u64>, file_len: int) -> bool {
    &&& bounded(v, region, file_len)
    &&& stay_apart(v, region)
    &&& forall|i: int|
        0 <= i < v.shdrs.len() && #[trigger] stays(v, region, i) ==> behind_header(v, i)
}

/// Placing sections keeps which of them holds the dynamic array.
pub proof fn lemma_same_dyn_idx(v: ImageView, region: Option<u64>, plan: Plan, segs: Seq<Phdr>)
    ensures
        relaid(v, region, plan, segs).dyn_idx() == v.dyn_idx(),
{
    let r = relaid(v, region, plan, segs);
    let p = section_type(sht::DYNAMIC);
    lemma_first_from(v.shdrs, p, 0);
    match v.dyn_idx() {
        Some(k) => {
            assert forall|j: int| 0 <= j < k implies !p(#[trigger] r.shdrs[j]) by {
                assert(!p(v.shdrs[j]));
            }
            lemma_first_is(r.shdrs, p, 0, k);
        },
        None => {
            assert forall|j: int| 0 <= j < r.shdrs.len() implies !p(#[trigger] r.shdrs[j]) by {
                assert(!p(v.shdrs[j]));
            }
            lemma_first_none(r.shdrs, p, 0);
        },
    }
}

/// The image that a relayout writes.
pub open spec fn relaid_image(
    v: ImageView,
    segs: Seq<Phdr>,
    region: Option<u64>,
    file_len: int,
    page_size: Option<u64>,
) -> Outcome<ImageView> {
    synced(relaid(v, region, plan_of(v, segs, region, file_len, page_size), segs))
}

/// Whether a relayout goes through as far as the placing of its parts.
pub open spec fn relays(
    v: ImageView,
    segs: Seq<Phdr>,
    region: Option<u64>,
    original: Seq<u8>,
    page_size: Option<u64>,
) -> bool {
    let n = original.len() as int;
    &&& v.wf()
    &&& v.ehdr.ident.len() == 16
    &&& bounded(v, region, n)
    &&& plan_fits(v, region, plan_of(v, segs, region, n, page_size))
    &&& relaid_image(v, segs, region, n, page_size) matches Ok(w) && spans_of(w, original) is Ok
}

/// Where section `i` goes, and what it takes.
proof fn lemma_section_part(
    v: ImageView,
    segs: Seq<Phdr>,
    region: Option<u64>,
    original: Seq<u8>,
    page_size: Option<u64>,
    i: int,
)
    requires
        relays(v, segs, region, original, page_size),
        0 <= i < v.shdrs.len(),
        v.shdrs[i].sh_type != sht::NOBITS,
    ensures
        ({
            let n = original.len() as int;
            let plan = plan_of(v, segs, region, n, page_size);
            let w = relaid_image(v, segs, region, n, page_size)->Ok_0;
            let p = part(w, i + 3);
            &&& relocates(v, region, i) ==> p.at == new_offset(v, region, plan, i)
                && p.bytes.len() == section_len(v, i)
            &&& !relocates(v, region, i) ==> p.at == v.shdrs[i].offset && p.bytes.len()
                == v.shdrs[i].size && p.end() <= bound(region, n)
            &&& p.end() <= plan.total
            &&& relocates(v, region, i) ==> p.at >= plan.start + plan.pht + plan.sht
            &&& bound(region, n) <= plan.start
        }),
{
    let n = original.len() as int;
    let plan = plan_of(v, segs, region, n, page_size);
    lemma_plan(v, segs, region, n, page_size);
    lemma_moved_size(v, region, i, v.shdrs.len() as int);
    lemma_section_len(v, i);
    let w = relaid_image(v, segs, region, n, page_size)->Ok_0;
    lemma_same_dyn_idx(v, region, plan, segs);
    lemma_first_from(v.shdrs, section_type(sht::DYNAMIC), 0);
    assert(w.wf());
    lemma_spans_are(w, original);
    assert(w.shdrs[i].sh_type != sht::NOBITS);
    if !relocates(v, region, i) {
        assert(stays(v, region, i));
        assert(w.shdrs[i] == v.shdrs[i]);
    }
}

/// Two sections have places apart after a relayout.
proof fn lemma_two_sections(
    v: ImageView,
    segs: Seq<Phdr>,
    region: Option<u64>,
    original: Seq<u8>,
    page_size: Option<u64>,
    a: int,
    b: int,
)
    requires
        relays(v, segs, region, original, page_size),
        stay_apart(v, region),
        0 <= a < b < v.shdrs.len(),
    ensures
        ({
            let w = relaid_image(v, segs, region, original.len() as int, page_size)->Ok_0;
            parts_apart(part(w, a + 3), part(w, b + 3))
        }),
{
    let w = relaid_image(v, segs, region, original.len() as int, page_size)->Ok_0;
    if v.shdrs[a].sh_type == sht::NOBITS {
        assert(w.shdrs[a].sh_type == sht::NOBITS);
    } else if v.shdrs[b].sh_type == sht::NOBITS {
        assert(w.shdrs[b].sh_type == sht::NOBITS);
    } else {
        lemma_section_part(v, segs, region, original, page_size, a);
        lemma_section_part(v, segs, region, original, page_size, b);
        lemma_moved_size(v, region, a, b);
        if !relocates(v, region, a) {
            assert(stays(v, region, a));
        }
        if !relocates(v, region, b) {
            assert(stays(v, region, b));
        }
    }
}

/// Where the header and the two tables go.
proof fn lemma_fixed_parts(
    v: ImageView,
    segs: Seq<Phdr>,
    region: Option<u64>,
    original: Seq<u8>,
    page_size: Option<u64>,
)
    requires
        relays(v, segs, region, original, page_size),
    ensures
        ({
            let n = original.len() as int;
            let plan = plan_of(v, segs, region, n, page_size);
            let w = relaid_image(v, segs, region, n, page_size)->Ok_0;
            &&& part(w, 0).end() == header_len(v.enc.class)
            &&& part(w, 0).at == 0
            &&& part(w, 1).at == plan.start
            &&& part(w, 1).end() <= plan.start + plan.pht
            &&& part(w, 2).bytes.len() > 0 ==> part(w, 2).at == plan.start + plan.pht && part(
                w,
                2,
            ).end() <= plan.start + plan.pht + plan.sht
            &&& header_len(v.enc.class) <= bound(region, n) <= plan.start
            &&& plan.start + plan.pht + plan.sht <= plan.total
            &&& 0 <= plan.pht
            &&& 0 <= plan.sht
        }),
{
    let n = original.len() as int;
    let plan = plan_of(v, segs, region, n, page_size);
    let w = relaid_image(v, segs, region, n, page_size)->Ok_0;
    lemma_plan(v, segs, region, n, page_size);
    lemma_header_len(
        w.enc.class,
        w.enc.endian,
        record_of(w.ehdr, w.phdrs.len() as int, w.shdrs.len() as int),
    );
    lemma_phdrs_out(w.enc, w.phdrs, w.phdrs.len() as int);
    lemma_shdrs_out(w.enc, w.shdrs, w.shdrs.len() as int);
    assert(w.phdrs.len() == segs.len() + 1);
    if w.shdrs.len() == 0 {
        assert(w.shdrs.len() * shdr_len(w.enc.class) == 0) by (nonlinear_arith)
            requires
                w.shdrs.len() == 0,
        ;
    }
}

/// After a relayout a section is apart from the file header, unless it stays and
/// shares bytes with it, and from the tables.
proof fn lemma_fixed_apart(
    v: ImageView,
    segs: Seq<Phdr>,
    region: Option<u64>,
    original: Seq<u8>,
    page_size: Option<u64>,
    j: int,
    i: int,
)
    requires
        relays(v, segs, region, original, page_size),
        0 <= j < 3,
        0 <= i < v.shdrs.len(),
    ensures
        ({
            let w = relaid_image(v, segs, region, original.len() as int, page_size)->Ok_0;
            let total = plan_of(v, segs, region, original.len() as int, page_size).total;
            &&& part(w, i + 3).end() <= total || placeless(w, i + 3)
            &&& parts_apart(part(w, j), part(w, i + 3)) || (j == 0 && stays(v, region, i)
                && !behind_header(v, i))
        }),
{
    let w = relaid_image(v, segs, region, original.len() as int, page_size)->Ok_0;
    lemma_fixed_parts(v, segs, region, original, page_size);
    assert(w.shdrs[i].sh_type == v.shdrs[i].sh_type);
    if v.shdrs[i].sh_type != sht::NOBITS {
        lemma_section_part(v, segs, region, original, page_size, i);
        if !relocates(v, region, i) {
            assert(stays(v, region, i));
        }
    }
}

/// A section that stays and is as the file has it is so after a relayout.
proof fn lemma_stays_as_is(
    v: ImageView,
    segs: Seq<Phdr>,
    region: Option<u64>,
    original: Seq<u8>,
    page_size: Option<u64>,
    i: int,
)
    requires
        relays(v, segs, region, original, page_size),
        0 <= i < v.shdrs.len(),
        stays(v, region, i),
        in_place(v, original, i),
        v.dyn_idx() != Some(i),
    ensures
        has_part(
            original,
            part(relaid_image(v, segs, region, original.len() as int, page_size)->Ok_0, i + 3),
        ),
{
    let plan = plan_of(v, segs, region, original.len() as int, page_size);
    let w = relaid_image(v, segs, region, original.len() as int, page_size)->Ok_0;
    lemma_same_dyn_idx(v, region, plan, segs);
    lemma_section_part(v, segs, region, original, page_size, i);
    lemma_first_from(v.shdrs, section_type(sht::DYNAMIC), 0);
    assert(w.shdrs[i] == v.shdrs[i]);
    assert(w.sections[i] == v.sections[i]);
}

/// After a relayout every part is within the output, and the file header and the
/// tables are apart from each other and from all sections that are not as the file
/// has them.
pub proof fn law_relayout_tables_placed(
    v: ImageView,
    segs: Seq<Phdr>,
    region: Option<u64>,
    original: Seq<u8>,
    page_size: Option<u64>,
)
    requires
        relays(v, segs, region, original, page_size),
        header_clear(v, region, original),
    ensures
        ({
            let n = original.len() as int;
            tables_placed(
                relaid_image(v, segs, region, n, page_size)->Ok_0,
                original,
                plan_of(v, segs, region, n, page_size).total,
            )
        }),
{
    let n = original.len() as int;
    let plan = plan_of(v, segs, region, n, page_size);
    let w = relaid_image(v, segs, region, n, page_size)->Ok_0;
    lemma_fixed_parts(v, segs, region, original, page_size);
    assert(w.shdrs.len() == v.shdrs.len());
    assert forall|k: int| 0 <= k < part_count(w) implies (#[trigger] part(w, k)).end() <= plan.total
        || placeless(w, k) by {
        if k >= 3 {
            lemma_fixed_apart(v, segs, region, original, page_size, 0, k - 3);
        }
    }
    assert forall|j: int, k: int|
        0 <= j < 3 && 0 <= k < part_count(w) && j != k implies parts_apart(
        #[trigger] part(w, j),
        #[trigger] part(w, k),
    ) || (k >= 3 && has_part(original, part(w, k))) by {
        if k >= 3 {
            lemma_fixed_apart(v, segs, region, original, page_size, j, k - 3);
            if stays(v, region, k - 3) && !behind_header(v, k - 3) {
                lemma_stays_as_is(v, segs, region, original, page_size, k - 3);
            }
        }
    }
}

/// After a relayout every part of the output has a place of its own.
pub proof fn law_relayout_placed(
    v: ImageView,
    segs: Seq<Phdr>,
    region: Option<u64>,
    original: Seq<u8>,
    page_size: Option<u64>,
)
    requires
        relays(v, segs, region, original, page_size),
        settled(v, region, original.len() as int),
    ensures
        ({
            let n = original.len() as int;
            placed(
                relaid_image(v, segs, region, n, page_size)->Ok_0,
                plan_of(v, segs, region, n, page_size).total,
            )
        }),
{
    let n = original.len() as int;
    let w = relaid_image(v, segs, region, n, page_size)->Ok_0;
    lemma_fixed_parts(v, segs, region, original, page_size);
    assert(w.shdrs.len() == v.shdrs.len());
    assert forall|k: int| 0 <= k < part_count(w) implies (#[trigger] part(w, k)).end() <= plan_of(
        v,
        segs,
        region,
        n,
        page_size,
    ).total || placeless(w, k) by {
        if k >= 3 {
            lemma_fixed_apart(v, segs, region, original, page_size, 0, k - 3);
        }
    }
    assert forall|j: int, k: int| 0 <= j < k < part_count(w) implies parts_apart(
        #[trigger] part(w, j),
        #[trigger] part(w, k),
    ) by {
        if j >= 3 {
            lemma_two_sections(v, segs, region, original, page_size, j - 3, k - 3);
        } else if k >= 3 {
            lemma_fixed_apart(v, segs, region, original, page_size, j, k - 3);
            assert(stays(v, region, k - 3) ==> behind_header(v, k - 3));
        }
    }
}

/// What a relayout writes reads back, and a second pass leaves it as it is.
pub proof fn law_relayout_reads_back(
    v: ImageView,
    original: Seq<u8>,
    page_size: Option<u64>,
    reclaim: bool,
)
    requires
        writable(v),
        settled(v, region_start(v, reclaim), original.len() as int),
        v.phdrs.len() + 1 < PN_XNUM,
    ensures
        relayout_result(v, original, page_size, reclaim) matches (w, Ok(out)) ==> {
            &&& parsed(out) == Outcome::<ImageView>::Ok(read_back(w, out))
            &&& finalized(read_back(w, out), out, page_size, !reclaim) == (
                read_back(w, out),
                Outcome::<Seq<u8>>::Ok(out),
            )
        },
{
    if let (w, Ok(out)) = relayout_result(v, original, page_size, reclaim) {
        let n = original.len() as int;
        let region = region_start(v, reclaim);
        let segs = kept(v, reclaim);
        let plan = plan_of(v, segs, region, n, page_size);
        let r = relaid(v, region, plan, segs);
        lemma_first_from(v.phdrs, region_at(v.ehdr.phoff), 0);
        assert(relays(v, segs, region, original, page_size));
        law_relayout_placed(v, segs, region, original, page_size);
        lemma_plan(v, segs, region, n, page_size);
        assert forall|k: int| 0 <= k < segs.len() implies (#[trigger] segs[k]).p_type == pt::DYNAMIC
            ==> first(v.phdrs, segment_type(pt::DYNAMIC)) is Some by {
            if segs[k].p_type == pt::DYNAMIC {
                let j = match prior(v, reclaim) {
                    Some(p) => if k < p {
                        k
                    } else {
                        k + 1
                    },
                    None => k,
                };
                assert(v.phdrs[j] == segs[k]);
                lemma_first_from(v.phdrs, segment_type(pt::DYNAMIC), 0);
                assert(segment_type(pt::DYNAMIC)(v.phdrs[j]));
            }
        }
        assert forall|i: int|
            0 <= i < v.shdrs.len() && relocates(v, region, i) implies 0 <= #[trigger] section_len(
            v,
            i,
        ) <= u64::MAX by {
            lemma_section_len(v, i);
            lemma_moved_size(v, region, i, v.shdrs.len() as int);
        }
        lemma_writable(v, region, plan, segs);
        law_emitted_reads_back(r, original, plan.total as u64);
        law_second_pass(r, original, plan.total as u64, page_size, !reclaim);
    }
}

/// A relayout keeps what makes an image writable.
proof fn lemma_writable(v: ImageView, region: Option<u64>, plan: Plan, segs: Seq<Phdr>)
    requires
        writable(v),
        segs.len() <= v.phdrs.len(),
        v.phdrs.len() + 1 < PN_XNUM,
        plan_fits(v, region, plan),
        forall|k: int|
            0 <= k < segs.len() ==> (#[trigger] segs[k]).p_type == pt::DYNAMIC ==> first(
                v.phdrs,
                segment_type(pt::DYNAMIC),
            ) is Some,
        forall|i: int|
            0 <= i < v.shdrs.len() && relocates(v, region, i) ==> 0 <= #[trigger] section_len(v, i)
                <= u64::MAX,
    ensures
        writable(relaid(v, region, plan, segs)),
{
    let r = relaid(v, region, plan, segs);
    lemma_same_dyn_idx(v, region, plan, segs);
    lemma_first_from(v.shdrs, section_type(sht::DYNAMIC), 0);
    match v.dyn_idx() {
        Some(k) => {
            lemma_section_len(v, k);
            let size = dyn_len(v.enc.class);
            let n = v.dynamic.len() as int;
            vstd::arithmetic::div_mod::lemma_mod_multiples_basic(n, size);
            assert(r.dynamic.last().tag == v.dynamic.last().tag);
            assert forall|i: int| 0 <= i < r.dynamic.len() - 1 implies (#[trigger] r.dynamic[i]).tag
                != dt::NULL by {
                assert(v.dynamic[i].tag != dt::NULL);
            }
            if v.enc.class is Elf32 {
                assert forall|i: int| 0 <= i < r.dynamic.len() implies i32::MIN <= (
                #[trigger] r.dynamic[i]).tag <= i32::MAX by {
                    assert(i32::MIN <= v.dynamic[i].tag <= i32::MAX);
                }
            }
        },
        None => {
            assert forall|j: int| 0 <= j < r.phdrs.len() implies !segment_type(pt::DYNAMIC)(
                #[trigger] r.phdrs[j],
            ) by {
                if j < segs.len() {
                    assert(segs[j].p_type != pt::DYNAMIC);
                }
            }
            lemma_first_none(r.phdrs, segment_type(pt::DYNAMIC), 0);
        },
    }
    assert forall|i: int|
        0 <= i < r.shdrs.len() && (#[trigger] r.shdrs[i]).sh_type == sht::NOBITS implies r.sections[i].len()
        == 0 by {
        assert(v.shdrs[i].sh_type == sht::NOBITS);
    }
}

} // verus!
