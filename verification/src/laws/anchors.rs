//! The loader finds what moved.
use vstd::prelude::*;

use crate::cli::OperationView;
use crate::error::Outcome;
use crate::ir::{
    dt, lemma_section_from, lemma_section_from_same, pt, section_type, segment_type, sht, ImageView,
};
use crate::laws::apart::{law_set_run_path_keeps, spared, strings_of};
use crate::laws::edits::{lemma_names_stay, storable, strings_wf, terminated};
use crate::laws::files::lemma_parsed;
use crate::laws::legible::{lemma_first_kept, lemma_not_grown};
use crate::laws::passes::read_back;
use crate::laws::readback::{law_run_path_in_file, lemma_patched_once};
use crate::laws::repeat::{in_place_pass, law_finalized_reads_back, lemma_same_content};
use crate::laws::sound::{as_read, lemma_read_places};
use crate::laws::tidy::{lemma_run_path_editable, tidy};
use crate::layout::{finalized, grown, kept, moved_from, plan_of, region_start, relaid, relocates};
use crate::ops::{interpreter_of, needed_of, soname_of, ModifiersView, ReportView, SurroundingsView};
use crate::parser::parsed;
use crate::patch::{all_applied, no_report, patched};
use crate::rpath::{run_path, run_path_set, run_path_slot};
use crate::seqs::{first, lemma_first_from, lemma_first_none};

verus! {

/// Whether the dynamic array says where section `s` is, when it says where its strings
/// are.
pub open spec fn place_told(v: ImageView, s: int) -> bool {
    forall|i: int|
        0 <= i < v.dynamic.len() && (#[trigger] v.dynamic[i]).tag == dt::STRTAB ==> v.dynamic[i].val
            == v.shdrs[s].addr
}

/// Whether the dynamic array says how large section `s` is, when it says how large its
/// strings are.
pub open spec fn size_told(v: ImageView, s: int) -> bool {
    forall|i: int|
        0 <= i < v.dynamic.len() && (#[trigger] v.dynamic[i]).tag == dt::STRSZ ==> v.dynamic[i].val
            == v.shdrs[s].size
}

/// Whether section `s` is loaded at an address that is in no other section with
/// file bytes.
pub open spec fn alone(v: ImageView, s: int) -> bool {
    &&& v.shdrs[s].addr != 0
    &&& v.shdrs[s].size > 0
    &&& v.shdrs[s].sh_type != sht::NOBITS
    &&& forall|i: int|
        0 <= i < v.shdrs.len() && i != s && (#[trigger] v.shdrs[i]).sh_type != sht::NOBITS ==> !(
        v.shdrs[i].addr <= v.shdrs[s].addr < v.shdrs[i].addr + v.shdrs[i].size)
}

/// The address of a section that is alone moves with that section only.
proof fn lemma_moves_alone(v: ImageView, region: Option<u64>, s: int, i: int)
    requires
        0 <= s < v.shdrs.len(),
        alone(v, s),
        0 <= i,
    ensures
        moved_from(v, region, v.shdrs[s].addr, i) == if i <= s && relocates(v, region, s) {
            Some(s)
        } else {
            None
        },
    decreases v.shdrs.len() - i,
{
    if i < v.shdrs.len() {
        lemma_moves_alone(v, region, s, i + 1);
        assert(v.shdrs[i].sh_type == v.shdrs[i].sh_type);
    }
}

/// The dynamic strings are where the dynamic array says, also after a relayout; and it
/// says how large they are, where it did before or after a relayout.
pub proof fn law_strings_are_found(
    v: ImageView,
    original: Seq<u8>,
    page_size: Option<u64>,
    no_clobber: bool,
)
    requires
        v.wf(),
        v.find_section(".dynstr"@) matches Some(s) && place_told(v, s) && alone(v, s),
    ensures
        finalized(v, original, page_size, no_clobber) matches (w, Ok(_)) ==> {
            let s = v.find_section(".dynstr"@)->Some_0;
            &&& place_told(w, s)
            &&& size_told(v, s) || !in_place_pass(v, original) ==> size_told(w, s)
        },
{
    let s = v.find_section(".dynstr"@)->Some_0;
    lemma_section_from(v, ".dynstr"@, 0);
    if let (w, Ok(_)) = finalized(v, original, page_size, no_clobber) {
        if !in_place_pass(v, original) {
            let region = region_start(v, !no_clobber);
            let segs = kept(v, !no_clobber);
            let plan = plan_of(v, segs, region, original.len() as int, page_size);
            let r = relaid(v, region, plan, segs);
            lemma_moves_alone(v, region, s, 0);
            assert(w.dynamic == r.dynamic && w.shdrs == r.shdrs);
            assert forall|i: int|
                0 <= i < w.dynamic.len() && (#[trigger] w.dynamic[i]).tag
                    == dt::STRTAB implies w.dynamic[i].val == w.shdrs[s].addr by {
                assert(v.dynamic[i].tag == w.dynamic[i].tag);
            }
            assert forall|i: int|
                0 <= i < w.dynamic.len() && (#[trigger] w.dynamic[i]).tag
                    == dt::STRSZ implies w.dynamic[i].val == w.shdrs[s].size by {
                assert(v.dynamic[i].tag == w.dynamic[i].tag);
            }
        }
    }
}

/// A file without a segment for the interpreter gets none.
proof fn lemma_no_interp(
    u: ImageView,
    original: Seq<u8>,
    page_size: Option<u64>,
    no_clobber: bool,
)
    requires
        first(u.phdrs, segment_type(pt::INTERP)) is None,
    ensures
        finalized(u, original, page_size, no_clobber) matches (w, Ok(_)) ==> first(
            w.phdrs,
            segment_type(pt::INTERP),
        ) is None,
{
    let p = segment_type(pt::INTERP);
    lemma_first_from(u.phdrs, p, 0);
    if let (w, Ok(_)) = finalized(u, original, page_size, no_clobber) {
        if !in_place_pass(u, original) {
            let reclaim = !no_clobber;
            let segs = kept(u, reclaim);
            lemma_first_kept(u, reclaim, pt::INTERP);
            lemma_first_from(segs, p, 0);
            assert forall|j: int| 0 <= j < w.phdrs.len() implies !p(#[trigger] w.phdrs[j]) by {
                if j < segs.len() {
                    assert(!p(segs[j]));
                }
            }
            lemma_first_none(w.phdrs, p, 0);
        }
    }
}

/// A run path that was set in a file is what is read from it afterwards, wherever
/// its string had to go: the dynamic array says where the strings are and how many,
/// and the libraries that are needed, the soname and the interpreter are what they
/// were.
pub proof fn law_run_path_leaves_the_rest(
    data: Seq<u8>,
    path: Seq<char>,
    mods: ModifiersView,
    around: SurroundingsView,
    page_size: Option<u64>,
)
    requires
        storable(path),
        parsed(data) matches Ok(v) ==> {
            &&& tidy(data, 1)
            &&& strings_wf(v)
            &&& terminated(strings_of(v))
            &&& spared(v, dt::NEEDED, path)
            &&& spared(v, dt::SONAME, path)
            &&& place_told(v, v.find_section(".dynstr"@)->Some_0)
            &&& alone(v, v.find_section(".dynstr"@)->Some_0)
        },
    ensures
        patched(data, seq![OperationView::SetRpath(path)], mods, around, page_size) matches Ok(out)
            ==> (parsed(out) matches Ok(x) && {
            let v = parsed(data)->Ok_0;
            &&& run_path(x) == Outcome::<Seq<char>>::Ok(path)
            &&& needed_of(x) == needed_of(v)
            &&& soname_of(x) == soname_of(v)
            &&& v.find_section(".interp"@) matches Some(i) ==> v.dyn_idx() != Some(i)
                && v.find_section(".dynstr"@) != Some(i) ==> interpreter_of(x) == interpreter_of(v)
            &&& v.find_section(".interp"@) is None && first(
                v.phdrs,
                segment_type(pt::INTERP),
            ) is None ==> interpreter_of(x) == interpreter_of(v)
            &&& x.find_section(".dynstr"@) == v.find_section(".dynstr"@)
            &&& place_told(x, x.find_section(".dynstr"@)->Some_0)
            &&& size_told(v, v.find_section(".dynstr"@)->Some_0) || strings_of(x).len()
                != strings_of(v).len() ==> size_told(x, x.find_section(".dynstr"@)->Some_0)
        }),
{
    let op = OperationView::SetRpath(path);
    law_run_path_in_file(data, path, mods, around, page_size);
    if parsed(data) is Ok {
        lemma_run_path_editable(data, path, mods, around);
        lemma_parsed(data);
    }
    lemma_patched_once(data, op, mods, around, page_size);
    if let Ok(out) = patched(data, seq![op], mods, around, page_size) {
        let v = parsed(data)->Ok_0;
        let u = run_path_set(v, path, mods.force_rpath)->Ok_0;
        let ops = seq![op];
        assert(all_applied(v, no_report(), ops, mods, around, 0) == Outcome::<
            (ImageView, ReportView),
        >::Ok((v, no_report())));
        assert(ops[0] == op);
        law_set_run_path_keeps(v, path, mods.force_rpath);
        let slot = run_path_slot(v.dynamic);
        lemma_names_stay(v, u, slot, path, ".dynstr"@);
        lemma_names_stay(v, u, slot, path, ".interp"@);
        lemma_section_from(v, ".interp"@, 0);
        lemma_section_from(v, ".dynstr"@, 0);
        assert(interpreter_of(u) == interpreter_of(v) || v.find_section(".interp"@) == v.find_section(
            ".dynstr"@,
        ));
        lemma_anchored_entries(v, path, mods.force_rpath);
        let w = finalized(u, data, page_size, false).0;
        let x = read_back(w, out);
        law_finalized_reads_back(u, data, page_size, false);
        lemma_same_content(u, data, page_size, false);
        lemma_first_from(u.shdrs, section_type(sht::DYNAMIC), 0);
        lemma_section_from_same(u, x, ".dynstr"@, 0);
        lemma_section_from_same(u, x, ".interp"@, 0);
        law_strings_are_found(u, data, page_size, false);
        if first(v.phdrs, segment_type(pt::INTERP)) is None {
            lemma_no_interp(u, data, page_size, false);
        }
        let s = v.find_section(".dynstr"@)->Some_0;
        if strings_of(x).len() != strings_of(v).len() {
            lemma_read_places(data);
            assert(as_read(v, data, s));
            assert(x.sections[s] == u.sections[s]);
            assert(grown(u, s));
            lemma_not_grown(u, s, u.shdrs.len() as int);
        }
    }
}

/// Setting the run path leaves where the strings are said to be, and how large.
proof fn lemma_anchored_entries(v: ImageView, path: Seq<char>, force: bool)
    requires
        v.find_section(".dynstr"@) matches Some(s) && place_told(v, s),
    ensures
        run_path_set(v, path, force) matches Ok(u) ==> {
            let s = v.find_section(".dynstr"@)->Some_0;
            place_told(u, s) && (size_told(v, s) ==> size_told(u, s))
        },
{
    if let Ok(u) = run_path_set(v, path, force) {
        let d = u.dynamic.len() - v.dynamic.len();
        assert forall|i: int|
            0 <= i < u.dynamic.len() && ((#[trigger] u.dynamic[i]).tag == dt::STRTAB
                || u.dynamic[i].tag == dt::STRSZ) implies i >= d && v.dynamic[i - d]
            == u.dynamic[i] by {}
    }
}

} // verus!
