//! A file in good order stays readable, whatever is done to it.
use vstd::prelude::*;

use crate::cli::OperationView;
use crate::codec::{ehdr_at, record_of, shdr_in, PN_XNUM, SHN_LORESERVE};
use crate::error::Outcome;
use crate::ir::{pt, section_type, segment_type, sht, ImageView};
use crate::laws::carried::{carried, law_all_applied_carries, segment_carried};
use crate::laws::files::{
    in_place, lemma_parsed, lemma_phdrs_write_back, lemma_sections_read, lemma_shdrs_write_back,
    section_read,
};
use crate::laws::legible::{
    law_finalized_is_read, legible, lemma_not_grown, stay_limit, tables_have_room,
};
use crate::laws::output::{
    absence_told, dynamic_wf, has_part, lemma_phdrs_out, lemma_shdrs_out, lemma_spans_are, part,
    part_count, parts_apart, placeless, tables_placed,
};
use crate::laws::passes::lemma_fresh;
use crate::laws::region::{behind_header, bound, bounded, header_clear, stays};
use crate::laws::repeat::in_place_pass;
use crate::layout::{finalized, grown, region_at, region_start, section_len, synced};
use crate::ops::{ModifiersView, SurroundingsView};
use crate::parser::{bytes_at, parsed, section_bytes};
use crate::patch::{all_applied, no_report, patched};
use crate::raw::{dyn_len, header_len, phdr_len, shdr_len};
use crate::roundtrip::{ident_wf, lemma_header_len};
use crate::seqs::{first, lemma_first_from, lemma_first_is, lemma_first_none};
use crate::serialize::{spans_of, SpanView};

verus! {

/// Whether the `n` bytes at `a` and the `m` bytes at `b` share none.
pub open spec fn ranges_apart(a: int, n: int, b: int, m: int) -> bool {
    n == 0 || m == 0 || a + n <= b || b + m <= a
}

/// Whether the file header and the two header tables share no byte.
pub open spec fn tables_clear(v: ImageView) -> bool {
    let h = header_len(v.enc.class);
    let p = v.phdrs.len() * phdr_len(v.enc.class);
    let s = if v.shdrs.len() == 0 && v.ehdr.shoff != 0 {
        shdr_len(v.enc.class)
    } else {
        v.shdrs.len() * shdr_len(v.enc.class)
    };
    &&& ranges_apart(0, h, v.ehdr.phoff as int, p)
    &&& ranges_apart(0, h, v.ehdr.shoff as int, s)
    &&& ranges_apart(v.ehdr.phoff as int, p, v.ehdr.shoff as int, s)
}

/// Whether section `i` shares no byte with the file header and the two header tables.
pub open spec fn clear(v: ImageView, i: int) -> bool {
    let (at, n) = (v.shdrs[i].offset as int, v.shdrs[i].size as int);
    v.shdrs[i].sh_type == sht::NOBITS || {
        &&& ranges_apart(0, header_len(v.enc.class), at, n)
        &&& ranges_apart(v.ehdr.phoff as int, v.phdrs.len() * phdr_len(v.enc.class), at, n)
        &&& ranges_apart(v.ehdr.shoff as int, v.shdrs.len() * shdr_len(v.enc.class), at, n)
    }
}

/// Whether `n` operations can be applied to the file so that the counts of its tables
/// still fit in the header, as they do now; its header and tables share no byte; and,
/// where a region of it may be replaced, what stays lies before that region.
pub open spec fn sound(data: Seq<u8>, n: int, no_clobber: bool) -> bool {
    parsed(data) matches Ok(v) && {
        &&& data.len() <= isize::MAX
        &&& ehdr_at(data)->Ok_0.2 + n + 1 < PN_XNUM
        &&& v.shdrs.len() + n < SHN_LORESERVE
        &&& v.ehdr.shstrndx < SHN_LORESERVE
        &&& tables_clear(v)
        &&& region_start(v, !no_clobber) matches Some(r) ==> bounded(
            v,
            Some(r),
            data.len() as int,
        ) && dynamic_wf(v, r as int)
    }
}

/// Whether section `i` is in `u` as it was in `v`, and does not hold the dynamic array.
pub open spec fn left_alone(v: ImageView, u: ImageView, i: int) -> bool {
    u.shdrs[i] == v.shdrs[i] && u.sections[i] == v.sections[i] && v.dyn_idx() != Some(i)
}

/// Whether every section that shares bytes with the file header or the tables is left
/// alone.
pub open spec fn overlaps_left(v: ImageView, u: ImageView) -> bool {
    forall|i: int|
        0 <= i < v.shdrs.len() ==> #[trigger] clear(v, i) || left_alone(v, u, i)
}

/// What is found first stays so when more of another kind follow.
pub proof fn lemma_first_longer<T>(a: Seq<T>, b: Seq<T>, p: spec_fn(T) -> bool)
    requires
        a.len() <= b.len(),
        forall|i: int| 0 <= i < a.len() ==> p(a[i]) == p(#[trigger] b[i]),
        forall|i: int| a.len() <= i < b.len() ==> !p(#[trigger] b[i]),
    ensures
        first(b, p) == first(a, p),
{
    lemma_first_from(a, p, 0);
    match first(a, p) {
        Some(k) => {
            assert forall|j: int| 0 <= j < k implies !p(#[trigger] b[j]) by {
                assert(!p(a[j]));
            }
            assert(p(b[k]));
            lemma_first_is(b, p, 0, k);
        },
        None => {
            assert forall|j: int| 0 <= j < b.len() implies !p(#[trigger] b[j]) by {
                if j < a.len() {
                    assert(!p(a[j]));
                }
            }
            lemma_first_none(b, p, 0);
        },
    }
}

/// What operations leave of the dynamic array's place and of the region.
pub proof fn lemma_carried_places(v: ImageView, u: ImageView, reclaim: bool)
    requires
        carried(v, u),
    ensures
        u.dyn_idx() == v.dyn_idx(),
        v.dyn_idx() matches Some(k) ==> 0 <= k < v.shdrs.len(),
        region_start(u, reclaim) == region_start(v, reclaim),
        match (
            first(v.phdrs, segment_type(pt::DYNAMIC)),
            first(u.phdrs, segment_type(pt::DYNAMIC)),
        ) {
            (Some(a), Some(b)) => a == b && 0 <= a < v.phdrs.len() && u.phdrs[a] == v.phdrs[a],
            (None, None) => true,
            _ => false,
        },
{
    let p = section_type(sht::DYNAMIC);
    lemma_first_from(v.shdrs, p, 0);
    assert forall|i: int| 0 <= i < v.shdrs.len() implies p(v.shdrs[i]) == p(
        #[trigger] u.shdrs[i],
    ) by {}
    assert forall|i: int| v.shdrs.len() <= i < u.shdrs.len() implies !p(#[trigger] u.shdrs[i]) by {}
    lemma_first_longer(v.shdrs, u.shdrs, p);
    let q = segment_type(pt::DYNAMIC);
    lemma_first_from(v.phdrs, q, 0);
    assert forall|i: int| 0 <= i < v.phdrs.len() implies q(v.phdrs[i]) == q(
        #[trigger] u.phdrs[i],
    ) by {
        assert(segment_carried(v.phdrs[i], u.phdrs[i]));
    }
    assert forall|i: int| v.phdrs.len() <= i < u.phdrs.len() implies !q(#[trigger] u.phdrs[i]) by {}
    lemma_first_longer(v.phdrs, u.phdrs, q);
    if let Some(k) = first(v.phdrs, q) {
        assert(q(v.phdrs[k]));
        assert(segment_carried(v.phdrs[k], u.phdrs[k]));
    }
    let g = region_at(v.ehdr.phoff);
    lemma_first_from(v.phdrs, g, 0);
    assert forall|i: int| 0 <= i < v.phdrs.len() implies g(v.phdrs[i]) == g(
        #[trigger] u.phdrs[i],
    ) by {
        assert(segment_carried(v.phdrs[i], u.phdrs[i]));
    }
    assert forall|i: int| v.phdrs.len() <= i < u.phdrs.len() implies !g(#[trigger] u.phdrs[i]) by {}
    lemma_first_longer(v.phdrs, u.phdrs, g);
    if let Some(k) = first(v.phdrs, g) {
        assert(g(v.phdrs[k]));
        assert(g(u.phdrs[k]));
    }
}

/// Whether section `i` is as the file has it, with the size that its header says.
pub open spec fn as_read(v: ImageView, data: Seq<u8>, i: int) -> bool {
    &&& in_place(v, data, i)
    &&& v.shdrs[i].sh_type == sht::NOBITS ==> v.sections[i].len() == 0
    &&& v.shdrs[i].sh_type != sht::NOBITS ==> v.sections[i].len() == v.shdrs[i].size
}

/// What holds of every file that can be read.
pub proof fn lemma_read_places(data: Seq<u8>)
    requires
        parsed(data) is Ok,
    ensures
        ({
            let v = parsed(data)->Ok_0;
            &&& v.wf()
            &&& ident_wf(v.enc, v.ehdr)
            &&& header_len(v.enc.class) <= data.len()
            &&& dynamic_wf(v, data.len() as int)
            &&& v.phdrs.len() > 0 ==> v.ehdr.phoff + v.phdrs.len() * phdr_len(v.enc.class)
                <= data.len()
            &&& v.shdrs.len() > 0 ==> v.ehdr.shoff + v.shdrs.len() * shdr_len(v.enc.class)
                <= data.len()
            &&& forall|i: int| 0 <= i < v.shdrs.len() ==> #[trigger] as_read(v, data, i)
        }),
{
    let v = parsed(data)->Ok_0;
    lemma_parsed(data);
    lemma_fresh(data);
    let m = v.shdrs.len() as int;
    lemma_phdrs_write_back(data, v.enc, v.ehdr.phoff as int, v.phdrs.len() as int);
    lemma_shdrs_write_back(data, v.enc, v.ehdr.shoff as int, m);
    lemma_sections_read(data, v.shdrs, m);
    lemma_first_from(v.shdrs, section_type(sht::DYNAMIC), 0);
    assert forall|i: int| 0 <= i < v.shdrs.len() implies #[trigger] as_read(v, data, i) by {
        assert(section_read(data, v.shdrs[i], section_bytes(data, v.shdrs, m)->Ok_0[i]));
    }
}

/// What stays of a section in an edited image that is laid out anew.
pub proof fn lemma_stays_before(data: Seq<u8>, v: ImageView, u: ImageView, no_clobber: bool, i: int)
    requires
        parsed(data) == Outcome::<ImageView>::Ok(v),
        carried(v, u),
        region_start(v, !no_clobber) matches Some(r) ==> bounded(v, Some(r), data.len() as int),
        0 <= i < u.shdrs.len(),
        stays(u, region_start(v, !no_clobber), i),
    ensures
        i < v.shdrs.len(),
        u.shdrs[i].offset + u.shdrs[i].size <= bound(
            region_start(v, !no_clobber),
            data.len() as int,
        ),
{
    let region = region_start(v, !no_clobber);
    lemma_read_places(data);
    lemma_carried_places(v, u, !no_clobber);
    if i >= v.shdrs.len() {
        assert(u.shdrs[i].sh_type == sht::NOTE);
        assert(u.sections[i].len() > 0);
        assert(section_len(u, i) == u.sections[i].len());
        assert(grown(u, i));
        assert(false);
    }
    assert(as_read(v, data, i));
    assert(u.shdrs[i] == v.shdrs[i] || (u.shdrs[i].size == 0 && u.sections[i].len() > 0));
    assert(v.sections[i].len() > 0 ==> u.sections[i].len() > 0);
    if let Some(r) = region {
        assert(u.sections[i].len() > 0 ==> u.shdrs[i].offset < r);
        if u.shdrs[i].size > 0 || u.sections[i].len() == 0 {
            if !stays(v, region, i) {
                assert(grown(v, i));
                lemma_fresh(data);
                lemma_not_grown(v, i, v.shdrs.len() as int);
            }
            assert(stays(v, region, i));
        }
    }
}

/// The places of an edited image that is written in place.
pub proof fn lemma_places_kept(data: Seq<u8>, u: ImageView, n: int, no_clobber: bool)
    requires
        sound(data, n, no_clobber),
        0 <= n,
        carried(parsed(data)->Ok_0, u),
        overlaps_left(parsed(data)->Ok_0, u),
        in_place_pass(u, data),
    ensures
        synced(u) matches Ok(w) ==> spans_of(w, data) is Ok ==> tables_placed(
            w,
            data,
            data.len() as int,
        ) && absence_told(w, data, data.len() as int) && w.phdrs.len() == parsed(
            data,
        )->Ok_0.phdrs.len() && w.shdrs.len() == parsed(data)->Ok_0.shdrs.len(),
{
    let v = parsed(data)->Ok_0;
    lemma_parsed(data);
    lemma_read_places(data);
    lemma_carried_places(v, u, !no_clobber);
    if let Ok(w) = synced(u) {
        if spans_of(w, data) is Ok {
            assert(w.wf());
            lemma_spans_are(w, data);
            let np = w.phdrs.len() as int;
            let ns = w.shdrs.len() as int;
            assert(np == v.phdrs.len());
            if ns > v.shdrs.len() {
                let i = v.shdrs.len() as int;
                assert(w.shdrs[i].sh_type == sht::NOTE);
                assert(w.sections[i] == u.sections[i]);
                assert(u.sections[i].len() > 0);
                assert(false);
            }
            lemma_header_len(w.enc.class, w.enc.endian, record_of(w.ehdr, np, ns));
            lemma_phdrs_out(w.enc, w.phdrs, np);
            lemma_shdrs_out(w.enc, w.shdrs, ns);
            let total = data.len() as int;
            assert forall|k: int| 3 <= k < part_count(w) implies {
                let p = #[trigger] part(w, k);
                &&& p.end() <= total || placeless(w, k)
                &&& forall|j: int| 0 <= j < 3 ==> parts_apart(#[trigger] part(w, j), p) || has_part(
                    data,
                    p,
                )
            } by {
                let i = k - 3;
                assert(u.shdrs[i] == v.shdrs[i] || u.shdrs[i].size == 0);
                assert(u.shdrs[i].offset == v.shdrs[i].offset);
                assert(u.shdrs[i].sh_type == v.shdrs[i].sh_type);
                assert(as_read(v, data, i));
                if w.shdrs[i].sh_type != sht::NOBITS {
                    assert(w.sections[i].len() == w.shdrs[i].size);
                    if !clear(v, i) {
                        assert(left_alone(v, u, i));
                        assert(w.sections[i] == v.sections[i]);
                        assert(has_part(data, part(w, k)));
                    }
                }
            }
            assert(tables_placed(w, data, total));
            if w.shdrs.len() == 0 && w.ehdr.shoff != 0 {
                assert(0 * shdr_len(w.enc.class) == 0);
                let b = bytes_at(data, w.ehdr.shoff as int, shdr_len(w.enc.class), "shdr0"@)->Ok_0;
                assert(shdr_in(w.enc, b) is Ok);
                assert(parts_apart(part(w, 0), SpanView { at: w.ehdr.shoff, bytes: b }));
                assert(parts_apart(part(w, 1), SpanView { at: w.ehdr.shoff, bytes: b }));
            }
        }
    }
}

/// A file in good order gives images that can be written and read, whatever operations
/// are applied.
pub proof fn law_edits_keep_legible(data: Seq<u8>, u: ImageView, n: int, no_clobber: bool)
    requires
        sound(data, n, no_clobber),
        0 <= n,
        carried(parsed(data)->Ok_0, u),
        u.phdrs.len() <= parsed(data)->Ok_0.phdrs.len() + n,
        u.shdrs.len() <= parsed(data)->Ok_0.shdrs.len() + n,
        overlaps_left(parsed(data)->Ok_0, u),
    ensures
        legible(u, stay_limit(u, data, no_clobber)),
        tables_have_room(u, data, no_clobber),
{
    let v = parsed(data)->Ok_0;
    let region = region_start(v, !no_clobber);
    lemma_parsed(data);
    lemma_read_places(data);
    lemma_carried_places(v, u, !no_clobber);
    assert(v.phdrs.len() == ehdr_at(data)->Ok_0.2);
    if let Some(k) = v.dyn_idx() {
        assert(u.shdrs[k] == v.shdrs[k] || u.shdrs[k].size == 0);
        vstd::arithmetic::div_mod::lemma_small_mod(0, dyn_len(v.enc.class) as nat);
    }
    if in_place_pass(u, data) {
        lemma_places_kept(data, u, n, no_clobber);
    } else {
        if let Some(r) = region {
            lemma_first_from(v.phdrs, region_at(v.ehdr.phoff), 0);
            let k = first(v.phdrs, region_at(v.ehdr.phoff))->Some_0;
            assert(region_at(v.ehdr.phoff)(v.phdrs[k]));
        }
        assert forall|i: int| 0 <= i < u.shdrs.len() && #[trigger] stays(u, region, i) implies
            u.shdrs[i].offset + u.shdrs[i].size <= bound(region, data.len() as int) && (
        behind_header(u, i) || (in_place(u, data, i) && u.dyn_idx() != Some(i))) by {
            lemma_stays_before(data, v, u, no_clobber, i);
            assert(u.shdrs[i] == v.shdrs[i] || u.shdrs[i].size == 0);
            assert(as_read(v, data, i));
            if !clear(v, i) {
                assert(left_alone(v, u, i));
            }
        }
        assert(bounded(u, region, data.len() as int));
        assert(header_clear(u, region, data));
    }
}

/// What is written for an edited file in good order can be read.
pub proof fn law_edited_is_read(
    data: Seq<u8>,
    ops: Seq<OperationView>,
    mods: ModifiersView,
    around: SurroundingsView,
    page_size: Option<u64>,
    no_clobber: bool,
)
    requires
        sound(data, ops.len() as int, no_clobber),
        all_applied(
            parsed(data)->Ok_0,
            no_report(),
            ops,
            mods,
            around,
            ops.len() as int,
        ) matches Ok((u, _)) ==> overlaps_left(parsed(data)->Ok_0, u),
    ensures
        all_applied(
            parsed(data)->Ok_0,
            no_report(),
            ops,
            mods,
            around,
            ops.len() as int,
        ) matches Ok((u, _)) ==> (finalized(u, data, page_size, no_clobber) matches (_, Ok(out))
            ==> parsed(out) is Ok),
{
    let v = parsed(data)->Ok_0;
    let n = ops.len() as int;
    lemma_read_places(data);
    law_all_applied_carries(v, no_report(), ops, mods, around, n);
    if let Ok((u, _)) = all_applied(v, no_report(), ops, mods, around, n) {
        law_edits_keep_legible(data, u, n, no_clobber);
        law_finalized_is_read(u, data, page_size, no_clobber);
    }
}

/// A file in good order that operations were applied to can be read: with or without
/// section headers, with or without an end of its dynamic array, and with sections that
/// share bytes, where those that share bytes with the header or the tables are left
/// alone.
pub proof fn law_patched_is_read(
    data: Seq<u8>,
    ops: Seq<OperationView>,
    mods: ModifiersView,
    around: SurroundingsView,
    page_size: Option<u64>,
)
    requires
        parsed(data) matches Ok(v) ==> sound(data, ops.len() as int, false) && (all_applied(
            v,
            no_report(),
            ops,
            mods,
            around,
            ops.len() as int,
        ) matches Ok((u, _)) ==> overlaps_left(v, u)),
    ensures
        patched(data, ops, mods, around, page_size) matches Ok(out) ==> parsed(out) is Ok,
{
    if parsed(data) is Ok {
        law_edited_is_read(data, ops, mods, around, page_size, false);
    }
}

} // verus!
