//! What an edited image says, the file that is written for it says too.
use vstd::prelude::*;

use crate::cli::OperationView;
use crate::error::Outcome;
use crate::ir::{
    dt, et, has_tag, lemma_section_from, lemma_section_from_same, section_type, sht, DynEntry,
    ImageView,
};
use crate::laws::edits::{
    law_add_needed, law_interpreter, law_run_path_reads_back, law_soname, lemma_live, needs_within,
    storable, strings_linked, strings_wf,
};
use crate::laws::passes::{read_back, writable};
use crate::laws::repeat::{
    editable, has_room, law_finalized_reads_back, lemma_first_same, lemma_live_same,
    lemma_same_content, same_content,
};
use crate::laws::tidy::{
    lemma_interpreter_editable, lemma_needed_editable, lemma_run_path_editable,
    lemma_soname_editable, tidy,
};
use crate::layout::finalized;
use crate::ops::{
    applied, interpreter_of, interpreter_set, live, needed_from, needed_of, soname_of,
    ModifiersView, ReportView, SurroundingsView,
};
use crate::parser::parsed;
use crate::patch::{all_applied, no_report, patched};
use crate::rpath::{last_with, run_path};
use crate::seqs::{first, lemma_first_from};

verus! {

/// The last entry with a tag is the same in arrays that agree on it.
pub proof fn lemma_last_same(a: Seq<DynEntry>, b: Seq<DynEntry>, tag: i64)
    requires
        a.len() == b.len(),
        forall|i: int|
            0 <= i < a.len() ==> (#[trigger] a[i]).tag == b[i].tag && (a[i].tag == tag ==> a[i]
                == b[i]),
    ensures
        last_with(a, tag) == last_with(b, tag),
    decreases a.len(),
{
    if a.len() > 0 {
        let n = a.len() - 1;
        assert(a[n].tag == b[n].tag);
        assert forall|i: int| 0 <= i < a.drop_last().len() implies (
        #[trigger] a.drop_last()[i]).tag == b.drop_last()[i].tag && (a.drop_last()[i].tag == tag
            ==> a.drop_last()[i] == b.drop_last()[i]) by {
            assert(a.drop_last()[i] == a[i] && b.drop_last()[i] == b[i]);
        }
        lemma_last_same(a.drop_last(), b.drop_last(), tag);
    }
}

/// What is needed is the same in arrays that agree on it.
proof fn lemma_needed_same(tab: Seq<u8>, a: Seq<DynEntry>, b: Seq<DynEntry>, i: int)
    requires
        0 <= i,
        a.len() == b.len(),
        forall|k: int|
            0 <= k < a.len() ==> (#[trigger] a[k]).tag == b[k].tag && (a[k].tag == dt::NEEDED
                ==> a[k] == b[k]),
    ensures
        needed_from(tab, a, i) == needed_from(tab, b, i),
    decreases a.len() - i,
{
    if i < a.len() {
        lemma_needed_same(tab, a, b, i + 1);
        assert(a[i].tag == b[i].tag);
    }
}

/// Whether two images say the same: the run path, the libraries that are needed,
/// the soname, the OS ABI, and the interpreter that a section of `u` names.
pub open spec fn says_same(x: ImageView, u: ImageView) -> bool {
    &&& run_path(x) == run_path(u)
    &&& needed_of(x) == needed_of(u)
    &&& soname_of(x) == soname_of(u)
    &&& x.ehdr.os_abi == u.ehdr.os_abi
    &&& u.find_section(".interp"@) matches Some(i) ==> u.dyn_idx() != Some(i) ==> interpreter_of(x)
        == interpreter_of(u)
}

/// Images with the same content say the same.
proof fn lemma_says_same(u: ImageView, x: ImageView)
    requires
        u.wf(),
        x.wf(),
        strings_linked(u),
        u.dyn_idx() matches Some(k) && u.ehdr.shstrndx != k,
        same_content(u, x),
    ensures
        run_path(x) == run_path(u),
        needed_of(x) == needed_of(u),
        soname_of(x) == soname_of(u),
        u.find_section(".interp"@) matches Some(i) ==> u.dyn_idx() != Some(i) ==> interpreter_of(x)
            == interpreter_of(u),
{
    let a = u.dynamic;
    let b = x.dynamic;
    let s = u.find_section(".dynstr"@)->Some_0;
    lemma_first_from(u.shdrs, section_type(sht::DYNAMIC), 0);
    let k = u.dyn_idx()->Some_0;
    assert(x.shdrs[k].link == u.shdrs[k].link);
    assert(x.shdrs[s].sh_type == u.shdrs[s].sh_type);
    assert(x.sections[s] == u.sections[s]);
    let tab = u.sections[s];
    assert(u.dynstr() == Some(tab));
    assert(x.dynstr() == Some(tab));
    lemma_live_same(a, b);
    lemma_live(a);
    lemma_live(b);
    let la = live(a);
    let lb = live(b);
    assert forall|i: int| 0 <= i < la.len() implies has_tag(dt::RUNPATH)(#[trigger] la[i])
        == has_tag(dt::RUNPATH)(lb[i]) by {
        assert(la[i] == a[i] && lb[i] == b[i]);
        assert(b[i].tag == a[i].tag);
    }
    lemma_first_same(la, lb, has_tag(dt::RUNPATH), 0);
    lemma_first_from(la, has_tag(dt::RUNPATH), 0);
    if let Some(i) = first(la, has_tag(dt::RUNPATH)) {
        assert(la[i] == a[i] && lb[i] == b[i]);
        assert(b[i] == a[i]);
    }
    assert forall|i: int| 0 <= i < la.len() implies (#[trigger] la[i]).tag == lb[i].tag && (la[i].tag
        == dt::RPATH ==> la[i] == lb[i]) by {
        assert(la[i] == a[i] && lb[i] == b[i]);
        assert(b[i].tag == a[i].tag);
    }
    lemma_last_same(la, lb, dt::RPATH);
    assert forall|i: int| 0 <= i < a.len() implies (#[trigger] a[i]).tag == b[i].tag && (a[i].tag
        == dt::NEEDED ==> a[i] == b[i]) by {
        assert(b[i].tag == a[i].tag);
    }
    lemma_needed_same(tab, a, b, 0);
    assert forall|i: int| 0 <= i < a.len() implies has_tag(dt::SONAME)(#[trigger] a[i]) == has_tag(
        dt::SONAME,
    )(b[i]) by {
        assert(b[i].tag == a[i].tag);
    }
    lemma_first_same(a, b, has_tag(dt::SONAME), 0);
    lemma_first_from(a, has_tag(dt::SONAME), 0);
    if let Some(i) = first(a, has_tag(dt::SONAME)) {
        assert(b[i] == a[i]);
    }
    lemma_section_from_same(u, x, ".interp"@, 0);
    lemma_section_from(u, ".interp"@, 0);
}

/// The file that is written for an edited image says what the image says.
pub proof fn law_file_says(
    u: ImageView,
    original: Seq<u8>,
    page_size: Option<u64>,
    no_clobber: bool,
)
    requires
        writable(u),
        has_room(u, original, no_clobber),
        strings_linked(u),
        u.dyn_idx() matches Some(k) && u.ehdr.shstrndx != k,
    ensures
        finalized(u, original, page_size, no_clobber) matches (_, Ok(out)) ==> (parsed(
            out,
        ) matches Ok(x) && says_same(x, u)),
{
    if let (w, Ok(out)) = finalized(u, original, page_size, no_clobber) {
        law_finalized_reads_back(u, original, page_size, no_clobber);
        lemma_same_content(u, original, page_size, no_clobber);
        let x = read_back(w, out);
        assert(x.wf());
        lemma_says_same(u, x);
    }
}

/// A file that operations were applied to says what they made of its image.
pub proof fn law_patched_says(
    data: Seq<u8>,
    ops: Seq<OperationView>,
    mods: ModifiersView,
    around: SurroundingsView,
    page_size: Option<u64>,
)
    requires
        parsed(data) matches Ok(v) ==> (all_applied(
            v,
            no_report(),
            ops,
            mods,
            around,
            ops.len() as int,
        ) matches Ok((u, _)) ==> strings_linked(u) && editable(data, u)),
    ensures
        patched(data, ops, mods, around, page_size) matches Ok(out) ==> (parsed(out) matches Ok(x)
            && (all_applied(
            parsed(data)->Ok_0,
            no_report(),
            ops,
            mods,
            around,
            ops.len() as int,
        ) matches Ok((u, _)) && says_same(x, u))),
{
    if let Ok(out) = patched(data, ops, mods, around, page_size) {
        let v = parsed(data)->Ok_0;
        let (u, _) = all_applied(v, no_report(), ops, mods, around, ops.len() as int)->Ok_0;
        law_file_says(u, data, page_size, false);
    }
}

/// The image that one operation makes of the one in a file.
pub open spec fn edit_of(
    data: Seq<u8>,
    op: OperationView,
    mods: ModifiersView,
    around: SurroundingsView,
) -> Outcome<ImageView> {
    match parsed(data) {
        Err(e) => Err(e),
        Ok(v) => match applied(v, no_report(), op, mods, around) {
            Err(e) => Err(e),
            Ok((u, _)) => Ok(u),
        },
    }
}

/// A file with one operation applied to it says what the operation made of its image.
pub proof fn lemma_patched_once(
    data: Seq<u8>,
    op: OperationView,
    mods: ModifiersView,
    around: SurroundingsView,
    page_size: Option<u64>,
)
    requires
        edit_of(data, op, mods, around) matches Ok(u) ==> strings_linked(u) && editable(data, u),
    ensures
        patched(data, seq![op], mods, around, page_size) matches Ok(out) ==> (edit_of(
            data,
            op,
            mods,
            around,
        ) matches Ok(u) && (parsed(out) matches Ok(x) && says_same(x, u))),
{
    let ops = seq![op];
    if let Ok(v) = parsed(data) {
        assert(all_applied(v, no_report(), ops, mods, around, 0) == Outcome::<
            (ImageView, ReportView),
        >::Ok((v, no_report())));
        assert(ops[0] == op);
        assert(all_applied(v, no_report(), ops, mods, around, 1) == applied(
            v,
            no_report(),
            op,
            mods,
            around,
        ));
        law_patched_says(data, ops, mods, around, page_size);
    }
}

/// A run path that was set in a file is what is read from it afterwards.
pub proof fn law_run_path_in_file(
    data: Seq<u8>,
    path: Seq<char>,
    mods: ModifiersView,
    around: SurroundingsView,
    page_size: Option<u64>,
)
    requires
        storable(path),
        parsed(data) matches Ok(v) ==> tidy(data, 1) && strings_wf(v),
    ensures
        patched(data, seq![OperationView::SetRpath(path)], mods, around, page_size) matches Ok(out)
            ==> (parsed(out) matches Ok(x) && run_path(x) == Outcome::<Seq<char>>::Ok(path)),
{
    if let Ok(v) = parsed(data) {
        lemma_run_path_editable(data, path, mods, around);
        lemma_patched_once(data, OperationView::SetRpath(path), mods, around, page_size);
        law_run_path_reads_back(v, path, mods.force_rpath);
    }
}

/// A soname that was set in a shared object is what is read from it afterwards.
pub proof fn law_soname_in_file(
    data: Seq<u8>,
    name: Seq<char>,
    mods: ModifiersView,
    around: SurroundingsView,
    page_size: Option<u64>,
)
    requires
        storable(name),
        name.len() > 0,
        parsed(data) matches Ok(v) ==> tidy(data, 1) && strings_wf(v) && v.ehdr.e_type == et::DYN,
    ensures
        patched(data, seq![OperationView::SetSoname(name)], mods, around, page_size) matches Ok(out)
            ==> (parsed(out) matches Ok(x) && soname_of(x) == Some(name)),
{
    if let Ok(v) = parsed(data) {
        lemma_soname_editable(data, name, mods, around);
        lemma_patched_once(data, OperationView::SetSoname(name), mods, around, page_size);
        law_soname(v, name);
    }
}

/// An interpreter that was set in a file is what is read from it afterwards.
pub proof fn law_interpreter_in_file(
    data: Seq<u8>,
    path: Seq<char>,
    mods: ModifiersView,
    around: SurroundingsView,
    page_size: Option<u64>,
)
    requires
        storable(path),
        parsed(data) matches Ok(v) ==> tidy(data, 1) && strings_linked(v) && (v.find_section(
            ".interp"@,
        ) matches Some(i) ==> v.ehdr.shstrndx != i && v.dyn_idx() != Some(i)
            && v.shdrs[i].sh_type != sht::NOBITS),
    ensures
        patched(data, seq![OperationView::SetInterpreter(path)], mods, around, page_size) matches Ok(
            out,
        ) ==> (parsed(out) matches Ok(x) && interpreter_of(x) == Outcome::<Seq<char>>::Ok(path)),
{
    if let Ok(v) = parsed(data) {
        lemma_interpreter_editable(data, path, mods, around);
        lemma_patched_once(data, OperationView::SetInterpreter(path), mods, around, page_size);
        law_interpreter(v, path);
        if let Ok(u) = interpreter_set(v, path) {
            lemma_section_from(v, ".interp"@, 0);
            lemma_section_from_same(v, u, ".interp"@, 0);
        }
    }
}

/// A library that was added in a file comes first among those that it needs
/// afterwards; the others stay, in their order.
pub proof fn law_needed_in_file(
    data: Seq<u8>,
    lib: Seq<char>,
    mods: ModifiersView,
    around: SurroundingsView,
    page_size: Option<u64>,
)
    requires
        storable(lib),
        parsed(data) matches Ok(v) ==> tidy(data, 1) && strings_wf(v) && needs_within(v, lib),
    ensures
        patched(data, seq![OperationView::AddNeeded(lib)], mods, around, page_size) matches Ok(out)
            ==> (parsed(out) matches Ok(x) && (needed_of(parsed(data)->Ok_0) matches Ok(names)
            && needed_of(x) == Outcome::<Seq<Seq<char>>>::Ok(seq![lib] + names))),
{
    if let Ok(v) = parsed(data) {
        lemma_needed_editable(data, lib, mods, around);
        lemma_patched_once(data, OperationView::AddNeeded(lib), mods, around, page_size);
        law_add_needed(v, lib);
    }
}

} // verus!
