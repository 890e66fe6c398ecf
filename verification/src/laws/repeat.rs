//! Doing the same to a file twice does no more than doing it once.
use vstd::prelude::*;

use crate::cli::OperationView;
use crate::codec::{ehdr_at, PN_XNUM};
use crate::error::Outcome;
use crate::ir::{dt, et, has_tag, lemma_section_from_same, section_type, sht, DynEntry, ImageView};
use crate::laws::edits::{
    law_set_run_path_idempotent, law_soname, lemma_live, storable, strings_linked, strings_wf,
};
use crate::laws::output::placed;
use crate::laws::passes::{law_emitted_reads_back, law_second_pass, read_back, writable};
use crate::laws::region::{law_relayout_reads_back, settled};
use crate::laws::tidy::{
    lemma_remove_editable, lemma_run_path_editable, lemma_soname_editable, tidy,
};
use crate::layout::{address_tag, finalized, grown_count, kept, plan_of, region_start, synced};
use crate::ops::{
    applied, entry_text, live, soname_set, string_put, with_string, ModifiersView, ReportView,
    SurroundingsView,
};
use crate::parser::parsed;
use crate::patch::{all_applied, no_report, patched};
use crate::rpath::{
    is_run_path, not_run_path, run_path_entries, run_path_removed, run_path_set, run_path_slot,
};
use crate::seqs::{first, first_from, lemma_first_from};
use crate::serialize::spans_of;

verus! {

/// Whether an edited image is written in place.
pub open spec fn in_place_pass(v: ImageView, original: Seq<u8>) -> bool {
    grown_count(v, v.shdrs.len() as int) == 0 && (ehdr_at(original) matches Ok((_, _, phnum, _))
        && v.phdrs.len() <= phnum)
}

/// Whether everything in an edited image has a place of its own: as it is, where
/// it is written in place; else what stays, before the new region.
pub open spec fn has_room(v: ImageView, original: Seq<u8>, no_clobber: bool) -> bool {
    if in_place_pass(v, original) {
        original.len() <= isize::MAX && (synced(v) matches Ok(w) ==> spans_of(w, original) is Ok
            ==> placed(w, original.len() as int))
    } else {
        v.phdrs.len() + 1 < PN_XNUM && settled(
            v,
            region_start(v, !no_clobber),
            original.len() as int,
        )
    }
}

/// What is written for an edited image reads back as it was written, and a second
/// pass that changes nothing leaves it as it is.
pub proof fn law_finalized_reads_back(
    v: ImageView,
    original: Seq<u8>,
    page_size: Option<u64>,
    no_clobber: bool,
)
    requires
        writable(v),
        has_room(v, original, no_clobber),
    ensures
        finalized(v, original, page_size, no_clobber) matches (w, Ok(out)) ==> {
            &&& parsed(out) == Outcome::<ImageView>::Ok(read_back(w, out))
            &&& finalized(read_back(w, out), out, page_size, no_clobber) == (
                read_back(w, out),
                Outcome::<Seq<u8>>::Ok(out),
            )
        },
{
    if in_place_pass(v, original) {
        law_emitted_reads_back(v, original, original.len() as u64);
        law_second_pass(v, original, original.len() as u64, page_size, no_clobber);
    } else {
        law_relayout_reads_back(v, original, page_size, !no_clobber);
    }
}

/// How an image that is written differs from the one that was to be: in places and
/// addresses, and in the encoded dynamic array.
pub open spec fn same_content(u: ImageView, x: ImageView) -> bool {
    &&& x.ehdr.e_type == u.ehdr.e_type
    &&& x.ehdr.shstrndx == u.ehdr.shstrndx
    &&& x.shdrs.len() == u.shdrs.len()
    &&& x.sections.len() == u.sections.len()
    &&& x.dyn_idx() == u.dyn_idx()
    &&& x.ehdr.os_abi == u.ehdr.os_abi
    &&& forall|i: int|
        0 <= i < u.shdrs.len() ==> (#[trigger] x.shdrs[i]).name == u.shdrs[i].name
            && x.shdrs[i].sh_type == u.shdrs[i].sh_type && x.shdrs[i].link == u.shdrs[i].link
    &&& forall|i: int|
        0 <= i < u.sections.len() && u.dyn_idx() != Some(i) ==> #[trigger] x.sections[i]
            == u.sections[i]
    &&& x.dynamic.len() == u.dynamic.len()
    &&& forall|i: int|
        0 <= i < u.dynamic.len() ==> (#[trigger] x.dynamic[i]).tag == u.dynamic[i].tag && (
        !address_tag(u.dynamic[i].tag) && u.dynamic[i].tag != dt::STRSZ ==> x.dynamic[i]
            == u.dynamic[i])
}

/// What is written differs from the image only so.
pub proof fn lemma_same_content(
    u: ImageView,
    original: Seq<u8>,
    page_size: Option<u64>,
    no_clobber: bool,
)
    requires
        u.wf(),
    ensures
        finalized(u, original, page_size, no_clobber) matches (w, Ok(out)) ==> same_content(
            u,
            read_back(w, out),
        ),
{
    if let (w, Ok(out)) = finalized(u, original, page_size, no_clobber) {
        lemma_first_from(u.shdrs, section_type(sht::DYNAMIC), 0);
        if !in_place_pass(u, original) {
            let reclaim = !no_clobber;
            let region = region_start(u, reclaim);
            let segs = kept(u, reclaim);
            let plan = plan_of(u, segs, region, original.len() as int, page_size);
            crate::laws::region::lemma_same_dyn_idx(u, region, plan, segs);
        }
    }
}

/// The live part of an array goes by the tags alone.
pub proof fn lemma_live_same(a: Seq<DynEntry>, b: Seq<DynEntry>)
    requires
        a.len() == b.len(),
        forall|i: int| 0 <= i < a.len() ==> (#[trigger] a[i]).tag == b[i].tag,
    ensures
        live(a).len() == live(b).len(),
{
    lemma_live(a);
    lemma_live(b);
    let n = live(a).len() as int;
    let m = live(b).len() as int;
    if n < m {
        assert(live(b)[n] == b[n]);
        assert(a[n].tag == b[n].tag);
    } else if m < n {
        assert(live(a)[m] == a[m]);
        assert(a[m].tag == b[m].tag);
    }
}

/// A search by tag finds the same place in arrays with the same tags.
pub proof fn lemma_first_same(
    a: Seq<DynEntry>,
    b: Seq<DynEntry>,
    p: spec_fn(DynEntry) -> bool,
    i: int,
)
    requires
        0 <= i,
        a.len() == b.len(),
        forall|k: int| 0 <= k < a.len() ==> p(#[trigger] a[k]) == p(b[k]),
    ensures
        first_from(a, p, i) == first_from(b, p, i),
    decreases a.len() - i,
{
    if i < a.len() {
        assert(p(a[i]) == p(b[i]));
        lemma_first_same(a, b, p, i + 1);
    }
}

/// Setting the run path to what it is changes nothing, wherever things are placed.
proof fn lemma_set_run_path_again(u: ImageView, x: ImageView, new: Seq<char>, force: bool)
    requires
        strings_linked(u),
        u.dyn_idx() matches Some(k) && u.ehdr.shstrndx != k,
        same_content(u, x),
        run_path_set(u, new, force) == Outcome::<ImageView>::Ok(u),
    ensures
        run_path_set(x, new, force) == Outcome::<ImageView>::Ok(x),
{
    let a = u.dynamic;
    let b = x.dynamic;
    let s = u.find_section(".dynstr"@)->Some_0;
    lemma_first_from(u.shdrs, section_type(sht::DYNAMIC), 0);
    lemma_section_from_same(u, x, ".dynstr"@, 0);
    assert(x.sections[s] == u.sections[s]);
    lemma_live_same(a, b);
    lemma_live(a);
    lemma_live(b);
    let la = live(a);
    let lb = live(b);
    assert forall|k: int| 0 <= k < la.len() implies is_run_path()(#[trigger] la[k])
        == is_run_path()(lb[k]) && has_tag(dt::RUNPATH)(la[k]) == has_tag(dt::RUNPATH)(lb[k]) by {
        assert(la[k] == a[k] && lb[k] == b[k]);
        assert(b[k].tag == a[k].tag);
    }
    lemma_first_same(la, lb, is_run_path(), 0);
    assert forall|k: int| 0 <= k < la.len() implies has_tag(dt::RUNPATH)(#[trigger] la[k])
        == has_tag(dt::RUNPATH)(lb[k]) by {
        assert(la[k] == a[k] && lb[k] == b[k]);
        assert(b[k].tag == a[k].tag);
    }
    lemma_first_same(la, lb, has_tag(dt::RUNPATH), 0);
    lemma_first_from(la, is_run_path(), 0);
    let (tab, off) = string_put(u.sections[s], run_path_slot(a), new);
    assert(run_path_entries(a, off, force) == a);
    if first(la, is_run_path()) is None {
        assert(run_path_entries(a, off, force).len() == a.len() + 1);
    }
    let k = first(la, is_run_path())->Some_0;
    assert(is_run_path()(la[k]));
    assert(la[k] == a[k] && lb[k] == b[k]);
    assert(b[k] == a[k]);
    assert(run_path_slot(b) == run_path_slot(a));
    assert(u.sections.update(s, tab)[s] == u.sections[s]);
    assert(x.sections.update(s, tab) =~= x.sections);
    let again = run_path_entries(b, off, force);
    assert forall|i: int| 0 <= i < b.len() implies again[i] == b[i] by {
        assert(b[i].tag == a[i].tag);
        assert(run_path_entries(a, off, force)[i] == a[i]);
    }
    assert(again =~= b);
}

/// Setting the soname to what it is changes nothing, wherever things are placed.
proof fn lemma_set_soname_again(u: ImageView, x: ImageView, name: Seq<char>)
    requires
        strings_linked(u),
        u.dyn_idx() matches Some(k) && u.ehdr.shstrndx != k,
        same_content(u, x),
        u.ehdr.e_type == et::DYN,
        soname_set(u, name) == Outcome::<ImageView>::Ok(u),
    ensures
        soname_set(x, name) == Outcome::<ImageView>::Ok(x),
{
    let a = u.dynamic;
    let b = x.dynamic;
    let s = u.find_section(".dynstr"@)->Some_0;
    let p = has_tag(dt::SONAME);
    lemma_first_from(u.shdrs, section_type(sht::DYNAMIC), 0);
    lemma_section_from_same(u, x, ".dynstr"@, 0);
    assert(x.sections[s] == u.sections[s]);
    assert forall|k: int| 0 <= k < a.len() implies p(#[trigger] a[k]) == p(b[k]) by {
        assert(b[k].tag == a[k].tag);
    }
    lemma_first_same(a, b, p, 0);
    lemma_first_from(a, p, 0);
    if first(a, p) is None {
        assert(soname_set(u, name)->Ok_0.dynamic.len() == a.len() + 1);
    }
    let k = first(a, p)->Some_0;
    assert(b[k] == a[k]);
    let tab = with_string(u.sections[s], name);
    if entry_text(u.sections[s], a[k]) != Some(name) {
        assert(u.sections.update(s, tab)[s].len() > u.sections[s].len());
    }
}

/// Removing a run path that is not there changes nothing.
proof fn lemma_remove_again(u: ImageView, x: ImageView)
    requires
        same_content(u, x),
        forall|i: int| 0 <= i < u.dynamic.len() ==> not_run_path()(#[trigger] u.dynamic[i]),
    ensures
        run_path_removed(x) == x,
{
    assert forall|i: int| 0 <= i < x.dynamic.len() implies not_run_path()(
        #[trigger] x.dynamic[i],
    ) by {
        assert(not_run_path()(u.dynamic[i]));
        assert(x.dynamic[i].tag == u.dynamic[i].tag);
    }
    crate::laws::edits::lemma_filter_same(x.dynamic, not_run_path());
}

/// Whether a file can be edited so that the edited image can be written and read
/// back: `u` is what the edit makes of it.
pub open spec fn editable(data: Seq<u8>, u: ImageView) -> bool {
    &&& writable(u)
    &&& has_room(u, data, false)
    &&& u.dyn_idx() matches Some(k) ==> u.ehdr.shstrndx != k
}

/// Patching a file with one operation, given what the operation makes of it.
proof fn lemma_patch_one(
    data: Seq<u8>,
    op: OperationView,
    mods: ModifiersView,
    around: SurroundingsView,
    page_size: Option<u64>,
    v: ImageView,
    u: ImageView,
    r: ReportView,
)
    requires
        parsed(data) == Outcome::<ImageView>::Ok(v),
        applied(v, no_report(), op, mods, around) == Outcome::<(ImageView, ReportView)>::Ok((u, r)),
    ensures
        patched(data, seq![op], mods, around, page_size) == finalized(
            u,
            data,
            page_size,
            false,
        ).1,
{
    let ops = seq![op];
    assert(all_applied(v, no_report(), ops, mods, around, 0) == Outcome::<
        (ImageView, ReportView),
    >::Ok((v, no_report())));
    assert(ops[0] == op);
}

/// Setting the run path twice gives the same file as setting it once, byte for
/// byte.
pub proof fn law_set_run_path_twice(
    data: Seq<u8>,
    path: Seq<char>,
    mods: ModifiersView,
    around: SurroundingsView,
    page_size: Option<u64>,
)
    requires
        storable(path),
        parsed(data) matches Ok(v) ==> tidy(data, 1) && strings_wf(v),
    ensures
        patched(data, seq![OperationView::SetRpath(path)], mods, around, page_size) matches Ok(out)
            ==> patched(out, seq![OperationView::SetRpath(path)], mods, around, page_size)
            == Outcome::<Seq<u8>>::Ok(out),
{
    let op = OperationView::SetRpath(path);
    if let Ok(out) = patched(data, seq![op], mods, around, page_size) {
        let ops = seq![op];
        let v = parsed(data)->Ok_0;
        assert(all_applied(v, no_report(), ops, mods, around, 0) == Outcome::<
            (ImageView, ReportView),
        >::Ok((v, no_report())));
        assert(ops[0] == op);
        let u = run_path_set(v, path, mods.force_rpath)->Ok_0;
        lemma_run_path_editable(data, path, mods, around);
        lemma_patch_one(data, op, mods, around, page_size, v, u, no_report());
        let w = finalized(u, data, page_size, false).0;
        let x = read_back(w, out);
        law_finalized_reads_back(u, data, page_size, false);
        lemma_same_content(u, data, page_size, false);
        law_set_run_path_idempotent(v, path, mods.force_rpath);
        lemma_set_run_path_again(u, x, path, mods.force_rpath);
        lemma_patch_one(out, op, mods, around, page_size, x, x, no_report());
    }
}

/// Setting the soname twice gives the same file as setting it once, byte for byte.
pub proof fn law_set_soname_twice(
    data: Seq<u8>,
    name: Seq<char>,
    mods: ModifiersView,
    around: SurroundingsView,
    page_size: Option<u64>,
)
    requires
        storable(name),
        parsed(data) matches Ok(v) ==> tidy(data, 1) && v.ehdr.e_type == et::DYN && strings_wf(v),
    ensures
        patched(data, seq![OperationView::SetSoname(name)], mods, around, page_size) matches Ok(out)
            ==> patched(out, seq![OperationView::SetSoname(name)], mods, around, page_size)
            == Outcome::<Seq<u8>>::Ok(out),
{
    let op = OperationView::SetSoname(name);
    if let Ok(out) = patched(data, seq![op], mods, around, page_size) {
        let ops = seq![op];
        let v = parsed(data)->Ok_0;
        assert(all_applied(v, no_report(), ops, mods, around, 0) == Outcome::<
            (ImageView, ReportView),
        >::Ok((v, no_report())));
        assert(ops[0] == op);
        let u = soname_set(v, name)->Ok_0;
        lemma_soname_editable(data, name, mods, around);
        lemma_patch_one(data, op, mods, around, page_size, v, u, no_report());
        let w = finalized(u, data, page_size, false).0;
        let x = read_back(w, out);
        law_finalized_reads_back(u, data, page_size, false);
        lemma_same_content(u, data, page_size, false);
        law_soname(v, name);
        lemma_set_soname_again(u, x, name);
        lemma_patch_one(out, op, mods, around, page_size, x, x, no_report());
    }
}

/// Removing the run path twice gives the same file as removing it once, byte for
/// byte.
pub proof fn law_remove_run_path_twice(
    data: Seq<u8>,
    mods: ModifiersView,
    around: SurroundingsView,
    page_size: Option<u64>,
)
    requires
        parsed(data) is Ok ==> tidy(data, 1),
    ensures
        patched(data, seq![OperationView::RemoveRpath], mods, around, page_size) matches Ok(out)
            ==> patched(out, seq![OperationView::RemoveRpath], mods, around, page_size)
            == Outcome::<Seq<u8>>::Ok(out),
{
    let op = OperationView::RemoveRpath;
    if let Ok(out) = patched(data, seq![op], mods, around, page_size) {
        let v = parsed(data)->Ok_0;
        let u = run_path_removed(v);
        lemma_remove_editable(data, mods, around);
        lemma_patch_one(data, op, mods, around, page_size, v, u, no_report());
        let w = finalized(u, data, page_size, false).0;
        let x = read_back(w, out);
        law_finalized_reads_back(u, data, page_size, false);
        lemma_same_content(u, data, page_size, false);
        assert forall|i: int| 0 <= i < u.dynamic.len() implies not_run_path()(
            #[trigger] u.dynamic[i],
        ) by {
            v.dynamic.lemma_filter_pred(not_run_path(), i);
        }
        lemma_remove_again(u, x);
        lemma_patch_one(out, op, mods, around, page_size, x, x, no_report());
    }
}

} // verus!
