//! A file that was wired up, read again, says where its libraries are.
use vstd::prelude::*;

use crate::cli::OperationView;
use crate::error::Outcome;
use crate::ir::{lemma_section_from, lemma_section_from_same, sht, ImageView};
use crate::laws::carried::{carried, law_all_applied_carries};
use crate::laws::dependencies::{
    dep_dir, dirs_storable, is_wired_up, law_found_libraries_are_on_the_run_path, rewired,
};
use crate::laws::edits::{
    law_interpreter, law_run_path_reads_back, lemma_names_stay, storable, strings_linked,
    strings_wf,
};
use crate::laws::files::lemma_parsed;
use crate::laws::lists::is_item;
use crate::laws::readback::law_patched_says;
use crate::laws::renaming::lemma_apart;
use crate::laws::repeat::editable;
use crate::laws::tidy::{law_edits_keep_editable, lemma_dynamic_read, lemma_ended_entries, tidy};
use crate::ops::{applied, interpreter_of, interpreter_set, string_put, ReportView};
use crate::parser::parsed;
use crate::patch::{all_applied, no_report};
use crate::paths::lossy;
use crate::rpath::{run_path, run_path_set, run_path_slot};
use crate::text::fields;
use crate::wiring::{deps_of, no_surroundings, plain_modifiers, wired, WiringView};

verus! {

/// Whether the section of the interpreter, where there is one, is a plain one, with a place
/// in the file.
pub open spec fn interpreter_plain(v: ImageView) -> bool {
    v.find_section(".interp"@) matches Some(i) ==> {
        &&& v.ehdr.shstrndx != i
        &&& v.dyn_idx() != Some(i)
        &&& v.shdrs[i].sh_type != sht::NOBITS
    }
}

/// What setting the run path makes of an image that comes from a file.
proof fn lemma_run_path_then(data: Seq<u8>, u: ImageView, path: Seq<char>)
    requires
        tidy(data, 2),
        parsed(data)->Ok_0.dyn_idx() is Some,
        u == (ImageView { sections: u.sections, ..parsed(data)->Ok_0 }),
        u.wf(),
        strings_wf(u),
        forall|i: int|
            0 <= i < u.shdrs.len() && (#[trigger] u.shdrs[i]).sh_type == sht::NOBITS
                ==> u.sections[i].len() == 0,
    ensures
        run_path_set(u, path, false) matches Ok(w) ==> {
            &&& strings_linked(w)
            &&& carried(parsed(data)->Ok_0, w) ==> editable(data, w)
        },
{
    let v = parsed(data)->Ok_0;
    lemma_dynamic_read(data);
    if let Ok(w) = run_path_set(u, path, false) {
        let s = u.find_section(".dynstr"@)->Some_0;
        let slot = run_path_slot(u.dynamic);
        let off = string_put(u.sections[s], slot, path).1;
        lemma_names_stay(u, w, slot, path, ".dynstr"@);
        lemma_ended_entries(v.enc, v.dynamic, off, false);
        assert forall|i: int|
            0 <= i < w.shdrs.len() && (#[trigger] w.shdrs[i]).sh_type
                == sht::NOBITS implies w.sections[i].len() == 0 by {
            assert(u.shdrs[i].sh_type == sht::NOBITS);
        }
        if carried(v, w) {
            law_edits_keep_editable(data, w, 2);
        }
    }
}

/// A file that was wired up says the run path that was set and, where it has one, the
/// interpreter of the target.
pub proof fn law_wired_file_says(data: Seq<u8>, w: WiringView, path: Seq<char>)
    requires
        storable(path),
        storable(w.target.interpreter),
        tidy(data, 2),
        strings_wf(parsed(data)->Ok_0),
        interpreter_plain(parsed(data)->Ok_0),
    ensures
        rewired(data, w, Some(path)) matches Ok(out) ==> (parsed(out) matches Ok(x) && run_path(x)
            == Outcome::<Seq<char>>::Ok(path) && (parsed(data)->Ok_0.find_section(
            ".interp"@,
        ) is Some ==> interpreter_of(x) == Outcome::<Seq<char>>::Ok(w.target.interpreter))),
{
    let v = parsed(data)->Ok_0;
    let mods = plain_modifiers();
    let around = no_surroundings();
    let r = no_report();
    let set_path = OperationView::SetRpath(path);
    lemma_parsed(data);
    lemma_dynamic_read(data);
    if v.find_section(".interp"@) is Some {
        let i = v.find_section(".interp"@)->Some_0;
        let ops = seq![OperationView::SetInterpreter(w.target.interpreter)].push(set_path);
        let u = interpreter_set(v, w.target.interpreter)->Ok_0;
        reveal_strlit(".interp");
        reveal_strlit(".dynstr");
        assert(".interp"@[1] != ".dynstr"@[1]);
        lemma_apart(v, ".interp"@, ".dynstr"@);
        lemma_section_from(v, ".interp"@, 0);
        lemma_section_from_same(v, u, ".interp"@, 0);
        lemma_section_from_same(v, u, ".dynstr"@, 0);
        law_interpreter(v, w.target.interpreter);
        assert(all_applied(v, r, ops, mods, around, 0) == Outcome::<(ImageView, ReportView)>::Ok(
            (v, r),
        ));
        assert(ops[0] == OperationView::SetInterpreter(w.target.interpreter));
        assert(all_applied(v, r, ops, mods, around, 1) == Outcome::<(ImageView, ReportView)>::Ok(
            (u, r),
        ));
        assert(ops[1] == set_path);
        assert(all_applied(v, r, ops, mods, around, 2) == applied(u, r, set_path, mods, around));
        assert(ops.len() == 2);
        law_all_applied_carries(v, r, ops, mods, around, 2);
        assert forall|j: int|
            0 <= j < u.shdrs.len() && (#[trigger] u.shdrs[j]).sh_type
                == sht::NOBITS implies u.sections[j].len() == 0 by {
            assert(v.shdrs[j].sh_type == sht::NOBITS);
        }
        lemma_run_path_then(data, u, path);
        law_run_path_reads_back(u, path, false);
        if let Ok(y) = run_path_set(u, path, false) {
            let slot = run_path_slot(u.dynamic);
            lemma_names_stay(u, y, slot, path, ".interp"@);
        }
        law_patched_says(data, ops, mods, around, w.cfg.page_size);
    } else {
        let ops = Seq::<OperationView>::empty().push(set_path);
        assert(all_applied(v, r, ops, mods, around, 0) == Outcome::<(ImageView, ReportView)>::Ok(
            (v, r),
        ));
        assert(ops[0] == set_path && ops.len() == 1);
        assert(all_applied(v, r, ops, mods, around, 1) == applied(v, r, set_path, mods, around));
        law_all_applied_carries(v, r, ops, mods, around, 1);
        lemma_run_path_then(data, v, path);
        law_run_path_reads_back(v, path, false);
        law_patched_says(data, ops, mods, around, w.cfg.page_size);
    }
}

/// A dependency that is found in a directory of the cache is found through the file that was
/// written: read again, its run path has that directory among its components, and its
/// interpreter is that of the target.
pub proof fn law_wired_file_finds(data: Seq<u8>, w: WiringView, k: int, d: Seq<u8>)
    requires
        tidy(data, 2),
        strings_wf(parsed(data)->Ok_0),
        interpreter_plain(parsed(data)->Ok_0),
        storable(w.target.interpreter),
        parsed(data) matches Ok(v) && is_wired_up(v, w) && 0 <= k < deps_of(v).len() && dep_dir(
            v,
            w,
            deps_of(v)[k],
            d,
        ),
        dirs_storable(w),
        forall|m: int|
            0 <= m < w.cache.libs.len() ==> is_item(lossy((#[trigger] w.cache.libs[m]).dir), ':'),
        forall|m: int|
            0 <= m < w.cfg.runtime_deps.len() ==> is_item(
                lossy(#[trigger] w.cfg.runtime_deps[m]),
                ':',
            ),
        forall|m: int|
            0 <= m < w.cfg.append_rpaths.len() ==> is_item(
                lossy(#[trigger] w.cfg.append_rpaths[m]),
                ':',
            ),
    ensures
        wired(data, w) matches Ok((out, _)) ==> out is Some && (parsed(out->Some_0) matches Ok(x)
            && (run_path(x) matches Ok(path) && fields(path, ':').contains(lossy(d))) && (parsed(
            data,
        )->Ok_0.find_section(".interp"@) is Some ==> interpreter_of(x) == Outcome::<
            Seq<char>,
        >::Ok(w.target.interpreter))),
{
    let p = law_found_libraries_are_on_the_run_path(data, w, k, d);
    law_wired_file_says(data, w, p);
}

} // verus!
