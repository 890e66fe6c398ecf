//! A file whose parts are all apart stays so, whatever is done to it.
use vstd::prelude::*;

use crate::cli::OperationView;
use crate::codec::{dyn_at, record_of};
use crate::ir::{
    dt, et, has_tag, lemma_section_from, lemma_section_from_same, pt, segment_type, sht, DynEntry,
    Encoding, ImageView,
};
use crate::laws::carried::{carried, law_applied_carries};
use crate::laws::dynamic::{ended, tags_fit};
use crate::laws::edits::{lemma_live, lemma_names_stay, strings_linked, strings_wf};
use crate::laws::files::lemma_parsed;
use crate::laws::legible::nobits_empty;
use crate::laws::output::{
    lemma_phdrs_out, lemma_shdrs_out, lemma_spans_are, part, part_count, parts_apart, placed,
};
use crate::laws::passes::{lemma_fresh, writable};
use crate::laws::region::{behind_header, settled, stay_apart, stays};
use crate::laws::repeat::{editable, has_room, in_place_pass};
use crate::laws::sound::{
    as_read, clear, law_edits_keep_legible, lemma_carried_places, lemma_places_kept,
    lemma_read_places, lemma_stays_before, overlaps_left, ranges_apart, sound,
};
use crate::layout::{region_start, synced};
use crate::ops::{
    interpreter_set, needed_added, soname_set, string_put, ModifiersView, SurroundingsView,
};
use crate::parser::{dyn_entries, parsed};
use crate::patch::no_report;
use crate::raw::dyn_len;
use crate::roundtrip::lemma_header_len;
use crate::rpath::{not_run_path, run_path_entries, run_path_removed, run_path_set, run_path_slot};
use crate::seqs::{first, lemma_filter_push, lemma_first_from};
use crate::serialize::spans_of;

verus! {

/// Whether sections `i` and `j` share no byte of the file.
pub open spec fn sections_apart(v: ImageView, i: int, j: int) -> bool {
    v.shdrs[i].sh_type == sht::NOBITS || v.shdrs[j].sh_type == sht::NOBITS || ranges_apart(
        v.shdrs[i].offset as int,
        v.shdrs[i].size as int,
        v.shdrs[j].offset as int,
        v.shdrs[j].size as int,
    )
}

/// Whether `n` operations can be applied to the file, all parts of it are apart from
/// each other, and its dynamic array has a section, which is not that of the section
/// names, and an end; or there is none.
pub open spec fn tidy(data: Seq<u8>, n: int) -> bool {
    sound(data, n, false) && {
        let v = parsed(data)->Ok_0;
        &&& forall|i: int| 0 <= i < v.shdrs.len() ==> #[trigger] clear(v, i)
        &&& forall|i: int, j: int|
            0 <= i < j < v.shdrs.len() ==> #[trigger] sections_apart(v, i, j)
        &&& match v.dyn_idx() {
            Some(k) => ended(v.dynamic) && v.ehdr.shstrndx != k,
            None => first(v.phdrs, segment_type(pt::DYNAMIC)) is None && (v.shdrs.len() > 0
                || v.ehdr.shoff == 0),
        }
    }
}

/// The tags that were read fit in tag fields.
proof fn lemma_tags_read(enc: Encoding, b: Seq<u8>)
    ensures
        tags_fit(enc, dyn_entries(enc, b)),
    decreases b.len(),
{
    reveal(dyn_at);
    let n = dyn_len(enc.class);
    if b.len() >= n {
        lemma_tags_read(enc, b.skip(n));
        let rest = dyn_entries(enc, b.skip(n));
        assert forall|i: int| enc.class is Elf32 && 0 <= i < dyn_entries(enc, b).len() implies
            i32::MIN <= (#[trigger] dyn_entries(enc, b)[i]).tag <= i32::MAX by {
            if i > 0 {
                assert(dyn_entries(enc, b)[i] == rest[i - 1]);
            }
        }
    }
}

/// The parts of an edited image that is written in place are apart.
proof fn lemma_placed_kept(data: Seq<u8>, u: ImageView, n: int)
    requires
        tidy(data, n),
        0 <= n,
        carried(parsed(data)->Ok_0, u),
        in_place_pass(u, data),
    ensures
        synced(u) matches Ok(w) ==> spans_of(w, data) is Ok ==> placed(w, data.len() as int),
{
    let v = parsed(data)->Ok_0;
    lemma_parsed(data);
    lemma_read_places(data);
    lemma_carried_places(v, u, true);
    assert(overlaps_left(v, u));
    lemma_places_kept(data, u, n, false);
    if let Ok(w) = synced(u) {
        if spans_of(w, data) is Ok {
            assert(w.wf());
            lemma_spans_are(w, data);
            let np = w.phdrs.len() as int;
            let ns = w.shdrs.len() as int;
            lemma_header_len(w.enc.class, w.enc.endian, record_of(w.ehdr, np, ns));
            lemma_phdrs_out(w.enc, w.phdrs, np);
            lemma_shdrs_out(w.enc, w.shdrs, ns);
            assert forall|k: int| 3 <= k < part_count(w) implies {
                let p = #[trigger] part(w, k);
                &&& p.at == w.shdrs[k - 3].offset && p.at == v.shdrs[k - 3].offset
                &&& w.shdrs[k - 3].sh_type == v.shdrs[k - 3].sh_type
                &&& p.bytes.len() == 0 || (p.bytes.len() == v.shdrs[k - 3].size
                    && v.shdrs[k - 3].sh_type != sht::NOBITS)
            } by {
                let i = k - 3;
                assert(u.shdrs[i] == v.shdrs[i] || u.shdrs[i].size == 0);
                assert(u.shdrs[i].offset == v.shdrs[i].offset);
                assert(u.shdrs[i].sh_type == v.shdrs[i].sh_type);
                if w.shdrs[i].sh_type != sht::NOBITS {
                    assert(w.sections[i].len() == w.shdrs[i].size);
                }
            }
            assert forall|j: int, k: int| 0 <= j < k < part_count(w) implies parts_apart(
                #[trigger] part(w, j),
                #[trigger] part(w, k),
            ) by {
                if j >= 3 {
                    assert(sections_apart(v, j - 3, k - 3));
                } else if k >= 3 {
                    assert(clear(v, k - 3));
                }
            }
        }
    }
}

/// An edited image of a file whose parts are apart can be written and read back.
pub proof fn law_edits_keep_editable(data: Seq<u8>, u: ImageView, n: int)
    requires
        tidy(data, n),
        0 <= n,
        carried(parsed(data)->Ok_0, u),
        u.phdrs.len() <= parsed(data)->Ok_0.phdrs.len() + n,
        u.shdrs.len() <= parsed(data)->Ok_0.shdrs.len() + n,
        nobits_empty(u),
        match u.dyn_idx() {
            Some(k) => ended(u.dynamic) && tags_fit(u.enc, u.dynamic),
            None => u.dynamic.len() == 0,
        },
    ensures
        editable(data, u),
{
    let v = parsed(data)->Ok_0;
    let region = region_start(v, true);
    lemma_parsed(data);
    lemma_read_places(data);
    lemma_carried_places(v, u, true);
    assert(overlaps_left(v, u));
    law_edits_keep_legible(data, u, n, false);
    if let Some(k) = v.dyn_idx() {
        lemma_fresh(data);
        assert(u.shdrs[k] == v.shdrs[k] || u.shdrs[k].size == 0);
        vstd::arithmetic::div_mod::lemma_small_mod(0, dyn_len(v.enc.class) as nat);
    }
    assert(writable(u));
    if in_place_pass(u, data) {
        lemma_placed_kept(data, u, n);
    } else {
        assert forall|i: int| 0 <= i < u.shdrs.len() && #[trigger] stays(
            u,
            region,
            i,
        ) implies behind_header(u, i) && i < v.shdrs.len() && u.shdrs[i].offset
            == v.shdrs[i].offset && u.shdrs[i].size <= v.shdrs[i].size && u.shdrs[i].sh_type
            == v.shdrs[i].sh_type by {
            lemma_stays_before(data, v, u, false, i);
            assert(u.shdrs[i] == v.shdrs[i] || u.shdrs[i].size == 0);
            assert(clear(v, i));
        }
        assert forall|i: int, j: int|
            0 <= i < j < u.shdrs.len() && #[trigger] stays(u, region, i) && #[trigger] stays(
                u,
                region,
                j,
            ) implies u.shdrs[i].size == 0 || u.shdrs[j].size == 0 || u.shdrs[i].offset
            + u.shdrs[i].size <= u.shdrs[j].offset || u.shdrs[j].offset + u.shdrs[j].size
            <= u.shdrs[i].offset by {
            assert(sections_apart(v, i, j));
        }
        assert(stay_apart(u, region));
        assert(settled(u, region, data.len() as int));
    }
    assert(has_room(u, data, false));
}

/// What was read of the dynamic array.
pub proof fn lemma_dynamic_read(data: Seq<u8>)
    requires
        parsed(data) matches Ok(v) && v.dyn_idx() is Some,
    ensures
        tags_fit(parsed(data)->Ok_0.enc, parsed(data)->Ok_0.dynamic),
        nobits_empty(parsed(data)->Ok_0),
{
    let v = parsed(data)->Ok_0;
    lemma_fresh(data);
    lemma_read_places(data);
    lemma_tags_read(v.enc, v.sections[v.dyn_idx()->Some_0]);
    assert forall|i: int|
        0 <= i < v.shdrs.len() && (#[trigger] v.shdrs[i]).sh_type
            == sht::NOBITS implies v.sections[i].len() == 0 by {
        assert(as_read(v, data, i));
    }
}

/// A file in which a run path is set can be written and read back.
pub proof fn lemma_run_path_editable(
    data: Seq<u8>,
    path: Seq<char>,
    mods: ModifiersView,
    around: SurroundingsView,
)
    requires
        tidy(data, 1),
        strings_wf(parsed(data)->Ok_0),
    ensures
        run_path_set(parsed(data)->Ok_0, path, mods.force_rpath) matches Ok(u) ==> strings_linked(u)
            && editable(data, u),
{
    let v = parsed(data)->Ok_0;
    lemma_parsed(data);
    lemma_dynamic_read(data);
    law_applied_carries(v, no_report(), OperationView::SetRpath(path), mods, around);
    if let Ok(u) = run_path_set(v, path, mods.force_rpath) {
        let s = v.find_section(".dynstr"@)->Some_0;
        let slot = run_path_slot(v.dynamic);
        let off = string_put(v.sections[s], slot, path).1;
        lemma_names_stay(v, u, slot, path, ".dynstr"@);
        lemma_ended_entries(v.enc, v.dynamic, off, mods.force_rpath);
        assert forall|i: int|
            0 <= i < u.shdrs.len() && (#[trigger] u.shdrs[i]).sh_type
                == sht::NOBITS implies u.sections[i].len() == 0 by {
            assert(v.shdrs[i].sh_type == sht::NOBITS);
        }
        law_edits_keep_editable(data, u, 1);
    }
}

/// Setting the run path keeps the end of the dynamic array.
pub proof fn lemma_ended_entries(enc: Encoding, d: Seq<DynEntry>, off: u64, force: bool)
    requires
        ended(d),
        tags_fit(enc, d),
    ensures
        ended(run_path_entries(d, off, force)),
        tags_fit(enc, run_path_entries(d, off, force)),
{
    let e = run_path_entries(d, off, force);
    let more = e.len() - d.len();
    lemma_live(d);
    assert forall|i: int| 0 <= i < d.len() implies (#[trigger] e[i + more]).tag == d[i].tag || (
    d[i].tag != dt::NULL && (e[i + more].tag == dt::RPATH || e[i + more].tag == dt::RUNPATH)) by {}
    assert(e[d.len() - 1 + more] == e.last());
    assert forall|i: int| 0 <= i < e.len() - 1 implies (#[trigger] e[i]).tag != dt::NULL by {
        if i >= more {
            assert(e[(i - more) + more].tag == d[i - more].tag || e[i].tag != dt::NULL);
        }
    }
    if enc.class is Elf32 {
        assert forall|i: int| 0 <= i < e.len() implies i32::MIN <= (#[trigger] e[i]).tag
            <= i32::MAX by {
            if i >= more {
                let x = d[i - more];
                assert(i32::MIN <= x.tag <= i32::MAX);
                assert(e[(i - more) + more].tag == x.tag || e[i].tag == dt::RPATH || e[i].tag
                    == dt::RUNPATH);
            }
        }
    }
}

/// One more entry in front, or one with another value, keeps the end of the dynamic
/// array.
proof fn lemma_ended_with(enc: Encoding, d: Seq<DynEntry>, x: DynEntry)
    requires
        ended(d),
        tags_fit(enc, d),
        x.tag != dt::NULL,
        i32::MIN <= x.tag <= i32::MAX,
    ensures
        ended(seq![x] + d),
        tags_fit(enc, seq![x] + d),
        forall|k: int|
            0 <= k < d.len() && d[k].tag == x.tag ==> ended(#[trigger] d.update(k, x)) && tags_fit(
                enc,
                d.update(k, x),
            ),
{
    let e = seq![x] + d;
    assert forall|i: int| 0 <= i < e.len() - 1 implies (#[trigger] e[i]).tag != dt::NULL by {
        if i > 0 {
            assert(d[i - 1].tag != dt::NULL);
        }
    }
    assert forall|k: int| 0 <= k < d.len() && d[k].tag == x.tag implies ended(
        #[trigger] d.update(k, x),
    ) && tags_fit(enc, d.update(k, x)) by {}
}

/// A file in which a soname is set can be written and read back.
pub proof fn lemma_soname_editable(
    data: Seq<u8>,
    name: Seq<char>,
    mods: ModifiersView,
    around: SurroundingsView,
)
    requires
        tidy(data, 1),
        strings_wf(parsed(data)->Ok_0),
        parsed(data)->Ok_0.ehdr.e_type == et::DYN,
    ensures
        soname_set(parsed(data)->Ok_0, name) matches Ok(u) ==> strings_linked(u) && editable(
            data,
            u,
        ),
{
    let v = parsed(data)->Ok_0;
    lemma_parsed(data);
    lemma_dynamic_read(data);
    law_applied_carries(v, no_report(), OperationView::SetSoname(name), mods, around);
    if let Ok(u) = soname_set(v, name) {
        let s = v.find_section(".dynstr"@)->Some_0;
        let x = DynEntry { tag: dt::SONAME, val: v.sections[s].len() as u64 };
        lemma_ended_with(v.enc, v.dynamic, x);
        lemma_first_from(v.dynamic, has_tag(dt::SONAME), 0);
        if u != v {
            lemma_names_stay(v, u, None, name, ".dynstr"@);
        }
        assert forall|i: int|
            0 <= i < u.shdrs.len() && (#[trigger] u.shdrs[i]).sh_type
                == sht::NOBITS implies u.sections[i].len() == 0 by {
            assert(v.shdrs[i].sh_type == sht::NOBITS);
        }
        law_edits_keep_editable(data, u, 1);
    }
}

/// A file to which a library is added can be written and read back.
pub proof fn lemma_needed_editable(
    data: Seq<u8>,
    lib: Seq<char>,
    mods: ModifiersView,
    around: SurroundingsView,
)
    requires
        tidy(data, 1),
        strings_wf(parsed(data)->Ok_0),
    ensures
        needed_added(parsed(data)->Ok_0, lib) matches Ok(u) ==> strings_linked(u) && editable(
            data,
            u,
        ),
{
    let v = parsed(data)->Ok_0;
    lemma_parsed(data);
    lemma_dynamic_read(data);
    law_applied_carries(v, no_report(), OperationView::AddNeeded(lib), mods, around);
    if let Ok(u) = needed_added(v, lib) {
        let s = v.find_section(".dynstr"@)->Some_0;
        let x = DynEntry { tag: dt::NEEDED, val: v.sections[s].len() as u64 };
        lemma_ended_with(v.enc, v.dynamic, x);
        lemma_names_stay(v, u, None, lib, ".dynstr"@);
        assert forall|i: int|
            0 <= i < u.shdrs.len() && (#[trigger] u.shdrs[i]).sh_type
                == sht::NOBITS implies u.sections[i].len() == 0 by {
            assert(v.shdrs[i].sh_type == sht::NOBITS);
        }
        law_edits_keep_editable(data, u, 1);
    }
}

/// A file in which the interpreter is set can be written and read back.
pub proof fn lemma_interpreter_editable(
    data: Seq<u8>,
    path: Seq<char>,
    mods: ModifiersView,
    around: SurroundingsView,
)
    requires
        tidy(data, 1),
        strings_linked(parsed(data)->Ok_0),
        parsed(data)->Ok_0.find_section(".interp"@) matches Some(i) ==> {
            &&& parsed(data)->Ok_0.ehdr.shstrndx != i
            &&& parsed(data)->Ok_0.shdrs[i].sh_type != sht::NOBITS
        },
    ensures
        interpreter_set(parsed(data)->Ok_0, path) matches Ok(u) ==> strings_linked(u) && editable(
            data,
            u,
        ),
{
    let v = parsed(data)->Ok_0;
    lemma_parsed(data);
    lemma_dynamic_read(data);
    law_applied_carries(v, no_report(), OperationView::SetInterpreter(path), mods, around);
    if let Ok(u) = interpreter_set(v, path) {
        lemma_section_from(v, ".interp"@, 0);
        lemma_section_from_same(v, u, ".dynstr"@, 0);
        assert forall|i: int|
            0 <= i < u.shdrs.len() && (#[trigger] u.shdrs[i]).sh_type
                == sht::NOBITS implies u.sections[i].len() == 0 by {
            assert(v.shdrs[i].sh_type == sht::NOBITS);
        }
        law_edits_keep_editable(data, u, 1);
    }
}

/// A file from which the run path is removed can be written and read back.
pub proof fn lemma_remove_editable(data: Seq<u8>, mods: ModifiersView, around: SurroundingsView)
    requires
        tidy(data, 1),
    ensures
        editable(data, run_path_removed(parsed(data)->Ok_0)),
{
    let v = parsed(data)->Ok_0;
    let u = run_path_removed(v);
    lemma_parsed(data);
    lemma_read_places(data);
    law_applied_carries(v, no_report(), OperationView::RemoveRpath, mods, around);
    if v.dyn_idx() is Some {
        lemma_dynamic_read(data);
        lemma_ended_without(v.enc, v.dynamic);
    } else {
        reveal(Seq::filter);
        assert(v.dynamic.len() == 0);
        assert forall|i: int|
            0 <= i < v.shdrs.len() && (#[trigger] v.shdrs[i]).sh_type
                == sht::NOBITS implies v.sections[i].len() == 0 by {
            assert(as_read(v, data, i));
        }
    }
    law_edits_keep_editable(data, u, 1);
}

/// Removing the run path keeps the end of the dynamic array.
proof fn lemma_ended_without(enc: Encoding, d: Seq<DynEntry>)
    requires
        ended(d),
        tags_fit(enc, d),
    ensures
        ended(d.filter(not_run_path())),
        tags_fit(enc, d.filter(not_run_path())),
{
    let p = not_run_path();
    let head = d.drop_last();
    let e = d.filter(p);
    lemma_filter_push(head, d.last(), p);
    assert(head.push(d.last()) =~= d);
    assert(e == head.filter(p).push(d.last()));
    assert forall|i: int| 0 <= i < e.len() - 1 implies (#[trigger] e[i]).tag != dt::NULL by {
        assert(e[i] == head.filter(p)[i]);
        assert(head.filter(p).contains(e[i]));
        head.lemma_filter_contains_rev(p, e[i]);
        let k = choose|k: int| 0 <= k < head.len() && head[k] == e[i];
        assert(d[k].tag != dt::NULL);
    }
    assert forall|i: int| enc.class is Elf32 && 0 <= i < e.len() implies i32::MIN <= (
    #[trigger] e[i]).tag <= i32::MAX by {
        assert(e.contains(e[i]));
        d.lemma_filter_contains_rev(p, e[i]);
        let k = choose|k: int| 0 <= k < d.len() && d[k] == e[i];
        assert(i32::MIN <= d[k].tag <= i32::MAX);
    }
}

} // verus!
