//! How the edits of an image undo, repeat and leave alone each other.
use vstd::prelude::*;
use vstd::utf8::encode_utf8;

use crate::cli::OperationView;
use crate::error::Outcome;
use crate::ir::{
    c_text, df1, dt, et, has_tag, lemma_section_from, lemma_section_from_same, lemma_str_end,
    lemma_str_end_is, pf, pt, segment_type, sht, str_end, DynEntry, ImageView,
};
use crate::ops::{
    applied, debug_tag_added, entry_text, execstack_of, execstack_set, interpreter_of,
    interpreter_set, live, needed_added, needed_from, needed_of, needed_removed, needed_replaced,
    needs, no_default_lib_set, os_abi_set, slot_fits, soname_of, soname_set, spares, string_offset,
    string_put, with_string, ModifiersView, ReportView, SurroundingsView,
};
use crate::patch::read_only;
use crate::rpath::{
    absolute, changes_tag, extended, filtered, is_run_path, kept_dirs, last_with, not_run_path,
    run_path, run_path_added, run_path_entries, run_path_entry, run_path_removed, run_path_set,
    run_path_slot, run_path_tag,
};
use crate::seqs::{first, lemma_filter_push, lemma_first_from, lemma_first_is, lemma_first_none};
use crate::text::{fields, join, lemma_utf8_text};

verus! {

/// Whether a string can be stored in a string table: no NUL ends it early.
pub open spec fn storable(s: Seq<char>) -> bool {
    forall|i: int| 0 <= i < encode_utf8(s).len() ==> #[trigger] encode_utf8(s)[i] != 0
}

/// Whether the dynamic array links to the section that is named for its strings.
pub open spec fn strings_linked(v: ImageView) -> bool {
    match (v.find_section(".dynstr"@), v.dyn_idx()) {
        (Some(s), Some(k)) => {
            &&& 0 <= s < v.shdrs.len()
            &&& 0 <= k < v.shdrs.len()
            &&& v.shdrs.len() == v.sections.len()
            &&& v.shdrs[k].link == s
            &&& v.shdrs[s].sh_type == sht::STRTAB
        },
        _ => false,
    }
}

/// Whether the dynamic strings are in the section that is named so, at offsets
/// that a string reference can hold.
pub open spec fn strings_short(v: ImageView) -> bool {
    strings_linked(v) && v.sections[v.find_section(".dynstr"@)->Some_0].len() < 0x1_0000_0000
}

/// Whether the names of the sections start in the string table `tab`, which ends
/// with a NUL, and share no byte with the run path's string.
pub open spec fn names_apart(v: ImageView, tab: Seq<u8>) -> bool {
    &&& terminated(tab)
    &&& forall|i: int|
        0 <= i < v.shdrs.len() ==> (#[trigger] v.shdrs[i]).name < tab.len() && (run_path_slot(
            v.dynamic,
        ) matches Some(o) ==> o < tab.len() ==> apart(tab, v.shdrs[i].name as int, o as int))
}

/// Whether the dynamic strings are in the section that is named so, at offsets
/// that a string reference can hold, and the section names, where they are in it
/// too, are apart from the run path.
pub open spec fn strings_wf(v: ImageView) -> bool {
    strings_short(v) && names_safe(v)
}

/// Whether the section names, where they are among the dynamic strings, are apart
/// from the run path.
pub open spec fn names_safe(v: ImageView) -> bool {
    let s = v.find_section(".dynstr"@)->Some_0;
    v.ehdr.shstrndx != s || names_apart(v, v.sections[s])
}

/// The sections keep their names when a string is stored among the dynamic ones, at
/// the end or over the run path's.
pub proof fn lemma_names_stay(
    v: ImageView,
    w: ImageView,
    slot: Option<u64>,
    new: Seq<char>,
    name: Seq<char>,
)
    requires
        v.wf(),
        v.find_section(".dynstr"@) is Some,
        names_safe(v),
        slot is None || slot == run_path_slot(v.dynamic),
        w.shdrs == v.shdrs,
        w.ehdr.shstrndx == v.ehdr.shstrndx,
        ({
            let s = v.find_section(".dynstr"@)->Some_0;
            w.sections == v.sections.update(s, string_put(v.sections[s], slot, new).0)
        }),
    ensures
        w.find_section(name) == v.find_section(name),
{
    let s = v.find_section(".dynstr"@)->Some_0;
    lemma_section_from(v, ".dynstr"@, 0);
    if v.ehdr.shstrndx != s {
        lemma_section_from_same(v, w, name, 0);
    } else {
        let tab = v.sections[s];
        let t = string_put(tab, slot, new).0;
        assert forall|i: int| 0 <= i < v.shdrs.len() implies #[trigger] w.section_name(i)
            == v.section_name(i) by {
            let at = v.shdrs[i].name as int;
            if slot_fits(tab, slot, encode_utf8(new).len() as int) {
                lemma_text_apart(tab, slot, new, at);
            } else {
                let more = encode_utf8(new) + seq![0u8];
                assert(t =~= tab + more);
                lemma_text_grows(tab, more, at);
            }
        }
        lemma_named_same(v, w, name, 0);
    }
}

/// Sections with the same names are found alike.
proof fn lemma_named_same(v: ImageView, w: ImageView, name: Seq<char>, i: int)
    requires
        0 <= i,
        w.shdrs.len() == v.shdrs.len(),
        forall|j: int|
            0 <= j < v.shdrs.len() ==> #[trigger] w.section_name(j) == v.section_name(j),
    ensures
        w.section_from(name, i) == v.section_from(name, i),
    decreases v.shdrs.len() - i,
{
    if i < v.shdrs.len() {
        assert(w.section_name(i) == v.section_name(i));
        lemma_named_same(v, w, name, i + 1);
    }
}

/// A string that was stored reads back.
pub proof fn law_string_reads_back(tab: Seq<u8>, reuse: Option<u64>, new: Seq<char>)
    requires
        storable(new),
        tab.len() <= u64::MAX,
    ensures
        c_text(string_put(tab, reuse, new).0, string_put(tab, reuse, new).1 as int) == Some(new),
{
    let b = encode_utf8(new);
    let (t, o) = string_put(tab, reuse, new);
    lemma_utf8_text(b, new);
    if slot_fits(tab, reuse, b.len() as int) {
        lemma_str_end(tab, o as int);
        let e = o + b.len();
        assert forall|j: int| o <= j < e implies #[trigger] t[j] != 0 by {
            assert(t[j] == b[j - o]);
        }
        assert(e < t.len() ==> t[e] == 0);
        lemma_str_end_is(t, o as int, e);
        assert(t.subrange(o as int, e) =~= b);
    } else {
        let e = (tab.len() + b.len()) as int;
        assert forall|j: int| o <= j < e implies #[trigger] t[j] != 0 by {
            assert(t[j] == b[j - o]);
        }
        lemma_str_end_is(t, o as int, e);
        assert(t.subrange(o as int, e) =~= b);
    }
}

/// Storing a string in its own place changes nothing.
pub proof fn law_string_stays(tab: Seq<u8>, reuse: Option<u64>, new: Seq<char>)
    requires
        storable(new),
        tab.len() <= u64::MAX,
    ensures
        ({
            let (t, o) = string_put(tab, reuse, new);
            string_put(t, Some(o), new) == (t, o)
        }),
{
    let b = encode_utf8(new);
    let (t, o) = string_put(tab, reuse, new);
    let e = o + b.len();
    if slot_fits(tab, reuse, b.len() as int) {
        lemma_str_end(tab, o as int);
    }
    assert forall|j: int| o <= j < e implies #[trigger] t[j] != 0 by {
        assert(t[j] == b[j - o]);
    }
    assert(e < t.len() ==> t[e] == 0);
    lemma_str_end_is(t, o as int, e);
    assert(slot_fits(t, Some(o), b.len() as int));
    assert(string_put(t, Some(o), new).0 =~= t);
}

/// An operation that only prints leaves the image alone.
pub proof fn law_read_only(
    v: ImageView,
    r: ReportView,
    op: OperationView,
    mods: ModifiersView,
    around: SurroundingsView,
)
    requires
        read_only(op),
    ensures
        applied(v, r, op, mods, around) matches Ok((w, _)) ==> w == v,
{
}

/// Without a terminating entry among the first `k`, and none of the searched kind,
/// nothing is found there.
pub proof fn lemma_live(dynamic: Seq<DynEntry>)
    ensures
        live(dynamic).len() <= dynamic.len(),
        forall|i: int|
            0 <= i < live(dynamic).len() ==> #[trigger] live(dynamic)[i] == dynamic[i]
                && dynamic[i].tag != dt::NULL,
        live(dynamic).len() < dynamic.len() ==> dynamic[live(dynamic).len() as int].tag
            == dt::NULL,
{
    lemma_first_from(dynamic, has_tag(dt::NULL), 0);
}

/// The live part of an array is told by where its first terminating entry is.
proof fn lemma_live_is(dynamic: Seq<DynEntry>, n: int)
    requires
        0 <= n <= dynamic.len(),
        forall|i: int| 0 <= i < n ==> (#[trigger] dynamic[i]).tag != dt::NULL,
        n < dynamic.len() ==> dynamic[n].tag == dt::NULL,
    ensures
        live(dynamic) == dynamic.take(n),
{
    if n < dynamic.len() {
        lemma_first_is(dynamic, has_tag(dt::NULL), 0, n);
    } else {
        lemma_first_none(dynamic, has_tag(dt::NULL), 0);
        assert(dynamic.take(n) =~= dynamic);
    }
}

/// The entry that holds the run path after it was set.
proof fn lemma_run_path_entries(dynamic: Seq<DynEntry>, off: u64, force: bool)
    ensures
        run_path_entry(run_path_entries(dynamic, off, force)) matches Some(d) && d.val == off
            && d.tag == run_path_tag(force),
        run_path_slot(run_path_entries(dynamic, off, force)) == Some(off),
{
    let d = run_path_entries(dynamic, off, force);
    lemma_live(dynamic);
    let n = live(dynamic).len() as int;
    lemma_first_from(live(dynamic), is_run_path(), 0);
    lemma_first_from(live(dynamic), has_tag(dt::RUNPATH), 0);
    if first(live(dynamic), is_run_path()) is None {
        assert forall|i: int| 0 <= i < n + 1 implies (#[trigger] d[i]).tag != dt::NULL by {
            if i > 0 {
                assert(d[i] == dynamic[i - 1]);
                assert(live(dynamic)[i - 1] == dynamic[i - 1]);
            }
        }
        if n + 1 < d.len() {
            assert(d[n + 1] == dynamic[n]);
        }
        lemma_live_is(d, n + 1);
        let l = live(d);
        assert(l[0] == d[0]);
        lemma_first_is(l, is_run_path(), 0, 0);
        if force {
            assert forall|i: int| 0 <= i < l.len() implies !has_tag(dt::RUNPATH)(
                #[trigger] l[i],
            ) by {
                if i > 0 {
                    assert(l[i] == live(dynamic)[i - 1]);
                    assert(!is_run_path()(live(dynamic)[i - 1]));
                }
            }
            lemma_first_none(l, has_tag(dt::RUNPATH), 0);
            assert forall|i: int| 0 < i < l.len() implies (#[trigger] l[i]).tag != dt::RPATH by {
                assert(l[i] == live(dynamic)[i - 1]);
                assert(!is_run_path()(live(dynamic)[i - 1]));
            }
            lemma_last_with(l, 0, dt::RPATH);
        } else {
            lemma_first_is(l, has_tag(dt::RUNPATH), 0, 0);
        }
    } else {
        let k = first(live(dynamic), is_run_path())->Some_0;
        assert forall|i: int| 0 <= i < n implies (#[trigger] d[i]).tag != dt::NULL by {
            assert(live(dynamic)[i] == dynamic[i]);
        }
        lemma_live_is(d, n);
        let l = live(d);
        assert forall|i: int| 0 <= i < n implies is_run_path()(#[trigger] l[i]) == is_run_path()(
            live(dynamic)[i],
        ) && (is_run_path()(l[i]) ==> l[i].val == off) by {
            assert(l[i] == d[i]);
            assert(live(dynamic)[i] == dynamic[i]);
        }
        assert forall|j: int| 0 <= j < k implies !is_run_path()(#[trigger] l[j]) by {
            assert(!is_run_path()(live(dynamic)[j]));
        }
        assert(is_run_path()(live(dynamic)[k]));
        assert(is_run_path()(l[k]));
        lemma_first_is(l, is_run_path(), 0, k);
        lemma_first_from(l, has_tag(dt::RUNPATH), 0);
        assert(l[k] == d[k] && live(dynamic)[k] == dynamic[k]);
        if force {
            assert forall|i: int| 0 <= i < n implies !has_tag(dt::RUNPATH)(#[trigger] l[i]) by {
                assert(l[i] == d[i] && live(dynamic)[i] == dynamic[i]);
                assert(!has_tag(dt::RUNPATH)(live(dynamic)[i]) || changes_tag(dynamic, force));
            }
        } else if !changes_tag(dynamic, force) {
            let j = first(live(dynamic), has_tag(dt::RUNPATH))->Some_0;
            assert(has_tag(dt::RUNPATH)(live(dynamic)[j]));
            assert(l[j] == d[j] && live(dynamic)[j] == dynamic[j]);
            assert(has_tag(dt::RUNPATH)(l[j]));
        } else {
            assert(has_tag(dt::RUNPATH)(l[k]));
        }
        if first(l, has_tag(dt::RUNPATH)) is None {
            assert(!has_tag(dt::RUNPATH)(l[k]));
            lemma_last_with(l, k, dt::RPATH);
            lemma_last_with_val(l, off);
        } else {
            let j = first(l, has_tag(dt::RUNPATH))->Some_0;
            assert(is_run_path()(l[j]));
        }
    }
}

/// An array with an entry of a tag has a last one.
proof fn lemma_last_with(d: Seq<DynEntry>, k: int, tag: i64)
    requires
        0 <= k < d.len(),
        d[k].tag == tag,
    ensures
        last_with(d, tag) is Some,
        (forall|i: int| 0 < i < d.len() ==> (#[trigger] d[i]).tag != tag) ==> last_with(d, tag)
            == Some(d[k]),
    decreases d.len(),
{
    if d.last().tag != tag {
        assert(d.drop_last()[k] == d[k]);
        lemma_last_with(d.drop_last(), k, tag);
        if forall|i: int| 0 < i < d.len() ==> (#[trigger] d[i]).tag != tag {
            assert forall|i: int| 0 < i < d.drop_last().len() implies (
            #[trigger] d.drop_last()[i]).tag != tag by {
                assert(d.drop_last()[i] == d[i]);
            }
        }
    } else if forall|i: int| 0 < i < d.len() ==> (#[trigger] d[i]).tag != tag {
        if d.len() > 1 {
            assert(d[d.len() - 1].tag != tag);
        }
    }
}

/// When all entries of the run path hold one value, the last has it.
proof fn lemma_last_with_val(d: Seq<DynEntry>, off: u64)
    requires
        forall|i: int| 0 <= i < d.len() && is_run_path()(#[trigger] d[i]) ==> d[i].val == off,
    ensures
        last_with(d, dt::RPATH) matches Some(e) ==> e.val == off && e.tag == dt::RPATH,
    decreases d.len(),
{
    if d.len() > 0 {
        if d.last().tag != dt::RPATH {
            assert forall|i: int|
                0 <= i < d.drop_last().len() && is_run_path()(
                    #[trigger] d.drop_last()[i],
                ) implies d.drop_last()[i].val == off by {
                assert(d.drop_last()[i] == d[i]);
            }
            lemma_last_with_val(d.drop_last(), off);
        } else {
            assert(is_run_path()(d[d.len() - 1]));
        }
    }
}

/// A run path that was set reads back.
pub proof fn law_run_path_reads_back(v: ImageView, new: Seq<char>, force: bool)
    requires
        strings_short(v),
        storable(new),
    ensures
        run_path_set(v, new, force) matches Ok(w) ==> run_path(w) == Outcome::<Seq<char>>::Ok(new),
{
    if let Ok(w) = run_path_set(v, new, force) {
        let s = v.find_section(".dynstr"@)->Some_0;
        let slot = run_path_slot(v.dynamic);
        let (tab, off) = string_put(v.sections[s], slot, new);
        lemma_run_path_entries(v.dynamic, off, force);
        law_string_reads_back(v.sections[s], slot, new);
        assert(w.dynstr() == Some(tab));
        assert(off < 0x1_0000_0000);
    }
}

/// A run path is stored under `DT_RUNPATH`, and under `DT_RPATH` where that is
/// forced.
pub proof fn law_run_path_tag(v: ImageView, new: Seq<char>, force: bool)
    ensures
        run_path_set(v, new, force) matches Ok(w) ==> (run_path_entry(w.dynamic) matches Some(d)
            && d.tag == run_path_tag(force)),
{
    if let Ok(w) = run_path_set(v, new, force) {
        let s = v.find_section(".dynstr"@)->Some_0;
        let (_, off) = string_put(v.sections[s], run_path_slot(v.dynamic), new);
        lemma_run_path_entries(v.dynamic, off, force);
    }
}

/// Setting the run path to what it was set to changes nothing.
pub proof fn law_set_run_path_idempotent(v: ImageView, new: Seq<char>, force: bool)
    requires
        v.wf(),
        names_safe(v),
        v.find_section(".dynstr"@) matches Some(s) ==> v.sections[s].len() <= u64::MAX,
        storable(new),
    ensures
        run_path_set(v, new, force) matches Ok(w) ==> run_path_set(w, new, force) == Outcome::<
            ImageView,
        >::Ok(w),
{
    if let Ok(w) = run_path_set(v, new, force) {
        let s = v.find_section(".dynstr"@)->Some_0;
        let slot = run_path_slot(v.dynamic);
        let (tab, off) = string_put(v.sections[s], slot, new);
        lemma_section_from(v, ".dynstr"@, 0);
        lemma_run_path_entries(v.dynamic, off, force);
        law_string_stays(v.sections[s], slot, new);
        lemma_names_stay(v, w, slot, new, ".dynstr"@);
        assert(w.find_section(".dynstr"@) == Some(s));
        assert(w.sections[s] == tab);
        lemma_entries_again(v.dynamic, off, force);
        assert(w.sections.update(s, tab) =~= w.sections);
    }
}

/// The entries of the run path stay as they were set.
proof fn lemma_entries_again(dynamic: Seq<DynEntry>, off: u64, force: bool)
    ensures
        ({
            let d = run_path_entries(dynamic, off, force);
            run_path_entries(d, off, force) == d
        }),
{
    let d = run_path_entries(dynamic, off, force);
    lemma_run_path_entries(dynamic, off, force);
    lemma_live(dynamic);
    lemma_live(d);
    lemma_first_from(live(dynamic), is_run_path(), 0);
    lemma_first_from(live(dynamic), has_tag(dt::RUNPATH), 0);
    let l = live(d);
    lemma_first_from(l, is_run_path(), 0);
    lemma_first_from(l, has_tag(dt::RUNPATH), 0);
    let again = run_path_entries(d, off, force);
    assert(first(l, is_run_path()) is Some);
    let n = live(dynamic).len() as int;
    if first(live(dynamic), is_run_path()) is None {
        assert forall|i: int| 0 <= i < n + 1 implies (#[trigger] d[i]).tag != dt::NULL by {
            if i > 0 {
                assert(d[i] == dynamic[i - 1]);
                assert(live(dynamic)[i - 1] == dynamic[i - 1]);
            }
        }
        if n + 1 < d.len() {
            assert(d[n + 1] == dynamic[n]);
        }
        lemma_live_is(d, n + 1);
        assert forall|i: int| 0 <= i < d.len() implies again[i] == d[i] by {
            if 0 < i < l.len() {
                assert(d[i] == live(dynamic)[i - 1]);
                assert(!is_run_path()(live(dynamic)[i - 1]));
            } else if i == 0 {
                assert(l[0] == d[0]);
                if !force {
                    assert(has_tag(dt::RUNPATH)(l[0]));
                }
            }
        }
    } else {
        assert forall|i: int| 0 <= i < n implies (#[trigger] d[i]).tag != dt::NULL by {
            assert(live(dynamic)[i] == dynamic[i]);
        }
        lemma_live_is(d, n);
        assert forall|i: int| 0 <= i < d.len() implies again[i] == d[i] by {
            if i < l.len() && is_run_path()(d[i]) {
                assert(l[i] == d[i]);
                assert(live(dynamic)[i] == dynamic[i]);
                if changes_tag(d, force) && d[i].tag != run_path_tag(force) {
                    if force {
                        let j = first(l, has_tag(dt::RUNPATH))->Some_0;
                        assert(has_tag(dt::RUNPATH)(l[j]));
                        assert(l[j] == d[j] && live(dynamic)[j] == dynamic[j]);
                        assert(false);
                    } else {
                        assert(!has_tag(dt::RUNPATH)(l[i]));
                        if changes_tag(dynamic, force) {
                            assert(false);
                        } else {
                            let j = first(live(dynamic), has_tag(dt::RUNPATH))->Some_0;
                            assert(live(dynamic)[j] == dynamic[j]);
                            assert(is_run_path()(dynamic[j]));
                            assert(l[j] == d[j]);
                            assert(!has_tag(dt::RUNPATH)(l[j]));
                            assert(false);
                        }
                    }
                }
            }
        }
    }
    assert(again =~= d);
}

/// Texts one after the other have their bytes one after the other.
pub proof fn lemma_encode_concat(a: Seq<char>, b: Seq<char>)
    ensures
        encode_utf8(a + b) == encode_utf8(a) + encode_utf8(b),
    decreases a.len(),
{
    if a.len() == 0 {
        assert(a + b =~= b);
        assert(encode_utf8(a) + encode_utf8(b) =~= encode_utf8(b));
    } else {
        assert((a + b).drop_first() =~= a.drop_first() + b);
        lemma_encode_concat(a.drop_first(), b);
        let h = vstd::utf8::encode_scalar(a[0] as u32);
        assert(h + (encode_utf8(a.drop_first()) + encode_utf8(b)) =~= h + encode_utf8(
            a.drop_first(),
        ) + encode_utf8(b));
    }
}

/// What was read from a string table can be stored again.
pub proof fn lemma_read_storable(tab: Seq<u8>, off: int)
    ensures
        c_text(tab, off) matches Some(t) ==> storable(t),
{
    if let Some(t) = c_text(tab, off) {
        lemma_str_end(tab, off);
        let b = tab.subrange(off, str_end(tab, off));
        lemma_utf8_text(b, t);
        assert forall|i: int| 0 <= i < encode_utf8(t).len() implies #[trigger] encode_utf8(t)[i]
            != 0 by {
            assert(b[i] == tab[off + i]);
        }
    }
}

pub proof fn lemma_storable_concat(a: Seq<char>, b: Seq<char>)
    requires
        storable(a),
        storable(b),
    ensures
        storable(a + b),
{
    lemma_encode_concat(a, b);
    assert forall|i: int| 0 <= i < encode_utf8(a + b).len() implies #[trigger] encode_utf8(
        a + b,
    )[i] != 0 by {
        if i < encode_utf8(a).len() {
            assert(encode_utf8(a)[i] != 0);
        } else {
            assert(encode_utf8(b)[i - encode_utf8(a).len()] != 0);
        }
    }
}

/// Adding to the run path appends, with a colon in between.
pub proof fn law_run_path_grows(v: ImageView, path: Seq<char>, force: bool)
    requires
        strings_short(v),
        storable(path),
    ensures
        run_path(v) matches Ok(cur) ==> (run_path_added(v, path, force) matches Ok(w) ==> run_path(w)
            == Outcome::<Seq<char>>::Ok(
            if cur.len() == 0 {
                path
            } else {
                cur + ":"@ + path
            },
        )),
{
    if let Ok(cur) = run_path(v) {
        if cur.len() > 0 {
            let d = run_path_entry(v.dynamic)->Some_0;
            lemma_read_storable(v.dynstr()->Some_0, string_offset(d));
            reveal_strlit(":");
            vstd::utf8::is_ascii_chars_encode_utf8(":"@);
            assert(storable(":"@));
            lemma_storable_concat(cur, ":"@);
            lemma_storable_concat(cur + ":"@, path);
        }
        law_run_path_reads_back(v, extended(cur, path), force);
    }
}

/// Entries that are dropped do not matter to what the others need.
proof fn lemma_needed_filtered(tab: Seq<u8>, d: Seq<DynEntry>, p: spec_fn(DynEntry) -> bool, i: int)
    requires
        0 <= i <= d.len(),
        forall|k: int|
            0 <= k < d.len() && !p(#[trigger] d[k]) ==> d[k].tag != dt::NULL && (d[k].tag
                != dt::NEEDED || entry_text(tab, d[k]) is None),
    ensures
        needed_from(tab, d.skip(i).filter(p), 0) == needed_from(tab, d, i),
    decreases d.len() - i,
{
    reveal(Seq::filter);
    if i < d.len() {
        lemma_needed_filtered(tab, d, p, i + 1);
        let rest = d.skip(i + 1);
        assert(d.skip(i) =~= seq![d[i]] + rest);
        lemma_filter_front(d[i], rest, p);
        if p(d[i]) {
            lemma_needed_front(tab, d[i], rest.filter(p));
        }
    } else {
        assert(d.skip(i) =~= Seq::empty());
    }
}

/// Filtering a sequence with one more element in front.
pub proof fn lemma_filter_front<T>(x: T, s: Seq<T>, p: spec_fn(T) -> bool)
    ensures
        (seq![x] + s).filter(p) == if p(x) {
            seq![x] + s.filter(p)
        } else {
            s.filter(p)
        },
    decreases s.len(),
{
    reveal(Seq::filter);
    if s.len() == 0 {
        assert(seq![x] + s =~= Seq::empty().push(x));
        lemma_filter_push(Seq::empty(), x, p);
        assert(s.filter(p) =~= Seq::empty());
        assert(seq![x] + s.filter(p) =~= seq![x]);
        assert(Seq::<T>::empty().filter(p) =~= Seq::empty());
        assert(Seq::<T>::empty().push(x) =~= seq![x]);
    } else {
        let t = s.drop_last();
        lemma_filter_front(x, t, p);
        assert(seq![x] + s =~= (seq![x] + t).push(s.last()));
        lemma_filter_push(seq![x] + t, s.last(), p);
        assert(s =~= t.push(s.last()));
        lemma_filter_push(t, s.last(), p);
        assert((seq![x] + t.filter(p)).push(s.last()) =~= seq![x] + t.filter(p).push(s.last()));
    }
}

/// What one more entry in front needs.
pub proof fn lemma_needed_front(tab: Seq<u8>, x: DynEntry, s: Seq<DynEntry>)
    ensures
        needed_from(tab, seq![x] + s, 0) == if x.tag == dt::NULL {
            Seq::empty()
        } else if x.tag == dt::NEEDED && entry_text(tab, x) is Some {
            seq![entry_text(tab, x)->Some_0] + needed_from(tab, s, 0)
        } else {
            needed_from(tab, s, 0)
        },
{
    lemma_needed_shift(tab, x, s, 0);
}

proof fn lemma_needed_shift(tab: Seq<u8>, x: DynEntry, s: Seq<DynEntry>, i: int)
    requires
        0 <= i <= s.len(),
    ensures
        needed_from(tab, seq![x] + s, i + 1) == needed_from(tab, s, i),
    decreases s.len() - i,
{
    if i < s.len() {
        assert((seq![x] + s)[i + 1] == s[i]);
        lemma_needed_shift(tab, x, s, i + 1);
    }
}

/// Removing the run path leaves none, keeps the libraries that are needed, and
/// done twice does no more than done once.
pub proof fn law_remove_run_path(v: ImageView)
    ensures
        ({
            let w = run_path_removed(v);
            &&& w.dynamic.len() > 0 ==> run_path(w) == Outcome::<Seq<char>>::Ok(Seq::empty())
            &&& w.dynamic.len() > 0 ==> needed_of(w) == needed_of(v)
            &&& run_path_removed(w) == w
        }),
{
    let w = run_path_removed(v);
    lemma_filter_all(v.dynamic, not_run_path());
    assert forall|i: int| 0 <= i < w.dynamic.len() implies not_run_path()(
        #[trigger] w.dynamic[i],
    ) by {
        v.dynamic.lemma_filter_pred(not_run_path(), i);
    }
    lemma_live(w.dynamic);
    let l = live(w.dynamic);
    assert forall|i: int| 0 <= i < l.len() implies !has_tag(dt::RUNPATH)(#[trigger] l[i]) && l[i].tag
        != dt::RPATH by {
        assert(not_run_path()(w.dynamic[i]));
    }
    lemma_first_none(l, has_tag(dt::RUNPATH), 0);
    lemma_no_last(l, dt::RPATH);
    if v.dynamic.len() > 0 {
        if let Some(tab) = v.dynstr() {
            lemma_needed_filtered(tab, v.dynamic, not_run_path(), 0);
            assert(v.dynamic.skip(0) =~= v.dynamic);
        }
    } else {
        reveal(Seq::filter);
    }
}

proof fn lemma_no_last(d: Seq<DynEntry>, tag: i64)
    requires
        forall|i: int| 0 <= i < d.len() ==> (#[trigger] d[i]).tag != tag,
    ensures
        last_with(d, tag) is None,
    decreases d.len(),
{
    if d.len() > 0 {
        assert(d[d.len() - 1].tag != tag);
        assert forall|i: int| 0 <= i < d.drop_last().len() implies (#[trigger] d.drop_last()[i]).tag
            != tag by {
            assert(d.drop_last()[i] == d[i]);
        }
        lemma_no_last(d.drop_last(), tag);
    }
}

/// Filtering what was filtered changes nothing.
proof fn lemma_filter_all(d: Seq<DynEntry>, p: spec_fn(DynEntry) -> bool)
    ensures
        d.filter(p).filter(p) == d.filter(p),
    decreases d.len(),
{
    reveal(Seq::filter);
    if d.len() > 0 {
        lemma_filter_all(d.drop_last(), p);
        let f = d.drop_last().filter(p);
        if p(d.last()) {
            lemma_filter_push(f, d.last(), p);
        }
    }
}

/// Filtering with what everything satisfies changes nothing.
pub proof fn lemma_filter_same(d: Seq<DynEntry>, p: spec_fn(DynEntry) -> bool)
    requires
        forall|i: int| 0 <= i < d.len() ==> p(#[trigger] d[i]),
    ensures
        d.filter(p) == d,
    decreases d.len(),
{
    reveal(Seq::filter);
    if d.len() > 0 {
        assert forall|i: int| 0 <= i < d.drop_last().len() implies p(#[trigger] d.drop_last()[i]) by {
            assert(d.drop_last()[i] == d[i]);
        }
        lemma_filter_same(d.drop_last(), p);
        assert(p(d[d.len() - 1]));
        assert(d.drop_last().push(d.last()) =~= d);
    }
}

/// Whether a string table ends in a NUL, so that its last string is ended.
pub open spec fn terminated(tab: Seq<u8>) -> bool {
    tab.len() > 0 && tab.last() == 0
}

/// Whether a string at `off` starts in the table, or so far behind it that it is not
/// in what is added for `new` either.
pub open spec fn no_new(tab: Seq<u8>, off: int, new: Seq<char>) -> bool {
    off < tab.len() || off > tab.len() + encode_utf8(new).len() + 1
}

/// A string in a terminated table reads the same when more strings follow.
pub proof fn lemma_text_grows(tab: Seq<u8>, more: Seq<u8>, off: int)
    requires
        terminated(tab),
        0 <= off < tab.len() || off > tab.len() + more.len(),
    ensures
        c_text(tab + more, off) == c_text(tab, off),
{
    if off < tab.len() {
        lemma_inner_text_grows(tab, more, off);
    }
}

proof fn lemma_inner_text_grows(tab: Seq<u8>, more: Seq<u8>, off: int)
    requires
        terminated(tab),
        0 <= off < tab.len(),
    ensures
        c_text(tab + more, off) == c_text(tab, off),
{
    lemma_str_end(tab, off);
    let e = str_end(tab, off);
    if e == tab.len() {
        assert(tab[tab.len() - 1] != 0);
    }
    assert forall|j: int| off <= j < e implies #[trigger] (tab + more)[j] != 0 by {
        assert(tab[j] != 0);
    }
    assert((tab + more)[e] == tab[e]);
    lemma_str_end_is(tab + more, off, e);
    assert((tab + more).subrange(off, e) =~= tab.subrange(off, e));
}

/// A library that was added comes first among those that are needed.
pub proof fn law_add_needed(v: ImageView, lib: Seq<char>)
    requires
        strings_short(v),
        storable(lib),
        needs_within(v, lib),
    ensures
        needed_added(v, lib) matches Ok(w) ==> (needed_of(v) matches Ok(names) && needed_of(w)
            == Outcome::<Seq<Seq<char>>>::Ok(seq![lib] + names)),
{
    if let Ok(w) = needed_added(v, lib) {
        let s = v.find_section(".dynstr"@)->Some_0;
        let tab = v.sections[s];
        let grown = with_string(tab, lib);
        let more = encode_utf8(lib) + seq![0u8];
        assert(grown =~= tab + more);
        assert(v.dynstr() == Some(tab));
        assert(w.dynstr() == Some(grown));
        law_string_reads_back(tab, None, lib);
        lemma_needs_grow(v, lib, more);
        lemma_needed_table(tab, grown, v.dynamic, 0);
        let new = DynEntry { tag: dt::NEEDED, val: tab.len() as u64 };
        assert(entry_text(grown, new) == Some(lib));
        lemma_needed_front(grown, new, v.dynamic);
    }
}

/// Names other than `lib`.
pub open spec fn other_than(lib: Seq<char>) -> spec_fn(Seq<char>) -> bool {
    |name: Seq<char>| name != lib
}

/// Being an entry of another kind than a needed library.
pub open spec fn no_need() -> spec_fn(DynEntry) -> bool {
    |d: DynEntry| d.tag != dt::NEEDED
}

/// Removing a library removes it from those that are needed, and no other; the
/// other entries stay, in their order, and so does the rest of the image.
pub proof fn law_remove_needed(v: ImageView, lib: Seq<char>)
    requires
        strings_linked(v),
    ensures
        needed_removed(v, lib) matches Ok(w) ==> {
            &&& w == (ImageView { dynamic: w.dynamic, ..v })
            &&& w.dynamic.filter(no_need()) == v.dynamic.filter(no_need())
            &&& w.dynamic.len() > 0 ==> (needed_of(v) matches Ok(names) && needed_of(w)
                == Outcome::<Seq<Seq<char>>>::Ok(names.filter(other_than(lib))))
        },
{
    if let Ok(w) = needed_removed(v, lib) {
        let s = v.find_section(".dynstr"@)->Some_0;
        let tab = v.sections[s];
        assert(v.dynstr() == Some(tab));
        assert(w.dynstr() == Some(tab));
        lemma_needed_without(tab, v.dynamic, lib, 0);
        assert(v.dynamic.skip(0) =~= v.dynamic);
        lemma_filter_twice(v.dynamic, spares(tab, lib), no_need());
    }
}

/// Filtering by `p` makes no difference to a later filter that asks for more.
pub proof fn lemma_filter_twice<T>(s: Seq<T>, p: spec_fn(T) -> bool, q: spec_fn(T) -> bool)
    requires
        forall|x: T| #[trigger] q(x) ==> p(x),
    ensures
        s.filter(p).filter(q) == s.filter(q),
    decreases s.len(),
{
    reveal(Seq::filter);
    if s.len() > 0 {
        lemma_filter_twice(s.drop_last(), p, q);
        if p(s.last()) {
            lemma_filter_push(s.drop_last().filter(p), s.last(), q);
        }
    }
}

proof fn lemma_needed_without(tab: Seq<u8>, d: Seq<DynEntry>, lib: Seq<char>, i: int)
    requires
        0 <= i <= d.len(),
    ensures
        needed_from(tab, d.skip(i).filter(spares(tab, lib)), 0) == needed_from(tab, d, i).filter(
            other_than(lib),
        ),
    decreases d.len() - i,
{
    reveal(Seq::filter);
    let keep = spares(tab, lib);
    let other = other_than(lib);
    if i < d.len() {
        lemma_needed_without(tab, d, lib, i + 1);
        let rest = d.skip(i + 1);
        assert(d.skip(i) =~= seq![d[i]] + rest);
        lemma_filter_front(d[i], rest, keep);
        if keep(d[i]) {
            lemma_needed_front(tab, d[i], rest.filter(keep));
        }
        if d[i].tag != dt::NULL && d[i].tag == dt::NEEDED && entry_text(tab, d[i]) is Some {
            lemma_filter_front(entry_text(tab, d[i])->Some_0, needed_from(tab, d, i + 1), other);
        }
    } else {
        assert(d.skip(i) =~= Seq::empty());
    }
}

/// Whether the strings end with a NUL, and no library that is needed is named by what
/// is added for `new`.
pub open spec fn needs_within(v: ImageView, new: Seq<char>) -> bool {
    let tab = v.sections[v.find_section(".dynstr"@)->Some_0];
    &&& terminated(tab)
    &&& forall|i: int|
        0 <= i < v.dynamic.len() && (#[trigger] v.dynamic[i]).tag == dt::NEEDED ==> no_new(
            tab,
            string_offset(v.dynamic[i]),
            new,
        )
}

/// Names of needed libraries stay what they are when the strings grow.
proof fn lemma_needs_grow(v: ImageView, new: Seq<char>, more: Seq<u8>)
    requires
        needs_within(v, new),
        more.len() == encode_utf8(new).len() + 1,
    ensures
        ({
            let tab = v.sections[v.find_section(".dynstr"@)->Some_0];
            forall|k: int|
                0 <= k < v.dynamic.len() && (#[trigger] v.dynamic[k]).tag == dt::NEEDED
                    ==> entry_text(tab, v.dynamic[k]) == entry_text(tab + more, v.dynamic[k])
        }),
{
    let tab = v.sections[v.find_section(".dynstr"@)->Some_0];
    assert forall|k: int|
        0 <= k < v.dynamic.len() && (#[trigger] v.dynamic[k]).tag == dt::NEEDED implies entry_text(
        tab,
        v.dynamic[k],
    ) == entry_text(tab + more, v.dynamic[k]) by {
        lemma_text_grows(tab, more, string_offset(v.dynamic[k]));
    }
}

/// A library that was added and removed again leaves the dynamic array as it was,
/// where it was not needed before.
pub proof fn law_add_then_remove_needed(v: ImageView, lib: Seq<char>)
    requires
        strings_wf(v),
        v.dynamic.len() > 0,
        storable(lib),
        needs_within(v, lib),
        forall|i: int|
            0 <= i < v.dynamic.len() && (#[trigger] v.dynamic[i]).tag == dt::NEEDED ==> entry_text(
                v.sections[v.find_section(".dynstr"@)->Some_0],
                v.dynamic[i],
            ) != Some(lib),
    ensures
        needed_added(v, lib) matches Ok(w) && (needed_removed(w, lib) matches Ok(x) && x.dynamic
            == v.dynamic && needed_of(x) == needed_of(v)),
{
    let s = v.find_section(".dynstr"@)->Some_0;
    let tab = v.sections[s];
    let w = needed_added(v, lib)->Ok_0;
    let grown = with_string(tab, lib);
    lemma_names_stay(v, w, None, lib, ".dynstr"@);
    let x = needed_removed(w, lib)->Ok_0;
    let keep = spares(grown, lib);
    let new = DynEntry { tag: dt::NEEDED, val: tab.len() as u64 };
    lemma_filter_front(new, v.dynamic, keep);
    law_string_reads_back(tab, None, lib);
    assert(entry_text(grown, new) == Some(lib));
    let more = encode_utf8(lib) + seq![0u8];
    assert(grown =~= tab + more);
    assert forall|i: int| 0 <= i < v.dynamic.len() implies keep(#[trigger] v.dynamic[i]) by {
        if v.dynamic[i].tag == dt::NEEDED {
            lemma_text_grows(tab, more, string_offset(v.dynamic[i]));
        }
    }
    lemma_filter_same(v.dynamic, keep);
    assert(w.sections[s] == grown);
    assert(x.dynamic == v.dynamic);
    assert(v.dynstr() == Some(tab));
    assert(x.dynstr() == Some(grown));
    lemma_needs_grow(v, lib, more);
    lemma_needed_table(tab, grown, v.dynamic, 0);
}

/// What is needed reads the same from two tables that agree on it.
pub proof fn lemma_needed_table(a: Seq<u8>, b: Seq<u8>, d: Seq<DynEntry>, i: int)
    requires
        0 <= i,
        forall|k: int|
            0 <= k < d.len() && (#[trigger] d[k]).tag == dt::NEEDED ==> entry_text(a, d[k])
                == entry_text(b, d[k]),
    ensures
        needed_from(a, d, i) == needed_from(b, d, i),
    decreases d.len() - i,
{
    if i < d.len() {
        lemma_needed_table(a, b, d, i + 1);
    }
}

/// The names of the needed libraries with `before` replaced by `after`.
pub open spec fn replaced(
    names: Seq<Seq<char>>,
    before: Seq<char>,
    after: Seq<char>,
) -> Seq<Seq<char>> {
    Seq::new(
        names.len(),
        |i: int|
            if names[i] == before {
                after
            } else {
                names[i]
            },
    )
}

/// Replacing a library replaces it among those that are needed, each in its place.
pub proof fn law_replace_needed(v: ImageView, before: Seq<char>, after: Seq<char>)
    requires
        strings_short(v),
        storable(after),
        needs_within(v, after),
    ensures
        needed_replaced(v, before, after) matches Ok(w) ==> (needed_of(v) matches Ok(names)
            && needed_of(w) == Outcome::<Seq<Seq<char>>>::Ok(replaced(names, before, after))),
{
    if let Ok(w) = needed_replaced(v, before, after) {
        let s = v.find_section(".dynstr"@)->Some_0;
        let tab = v.sections[s];
        assert(v.dynstr() == Some(tab));
        let names = needed_from(tab, v.dynamic, 0);
        if first(v.dynamic, needs(tab, before)) is None {
            lemma_first_from(v.dynamic, needs(tab, before), 0);
            lemma_none_named(tab, v.dynamic, before, 0);
            assert(replaced(names, before, after) =~= names);
        } else {
            let grown = with_string(tab, after);
            let more = encode_utf8(after) + seq![0u8];
            assert(grown =~= tab + more);
            assert(w.dynstr() == Some(grown));
            law_string_reads_back(tab, None, after);
            lemma_needs_grow(v, after, more);
            lemma_replaced_from(tab, grown, v.dynamic, w.dynamic, before, after, 0);
        }
    }
}

/// Where no entry needs a library, its name is not among those that are needed.
proof fn lemma_none_named(tab: Seq<u8>, d: Seq<DynEntry>, name: Seq<char>, i: int)
    requires
        0 <= i,
        forall|k: int| 0 <= k < d.len() ==> !needs(tab, name)(#[trigger] d[k]),
    ensures
        forall|j: int|
            0 <= j < needed_from(tab, d, i).len() ==> #[trigger] needed_from(tab, d, i)[j] != name,
    decreases d.len() - i,
{
    if i < d.len() && d[i].tag != dt::NULL {
        lemma_none_named(tab, d, name, i + 1);
        assert(!needs(tab, name)(d[i]));
        let rest = needed_from(tab, d, i + 1);
        let all = needed_from(tab, d, i);
        assert forall|j: int| 0 <= j < all.len() implies #[trigger] all[j] != name by {
            if all.len() > rest.len() {
                if j > 0 {
                    assert(all[j] == rest[j - 1]);
                }
            } else {
                assert(all[j] == rest[j]);
            }
        }
    }
}

proof fn lemma_replaced_from(
    tab: Seq<u8>,
    grown: Seq<u8>,
    a: Seq<DynEntry>,
    b: Seq<DynEntry>,
    before: Seq<char>,
    after: Seq<char>,
    i: int,
)
    requires
        0 <= i,
        tab.len() < 0x1_0000_0000,
        c_text(grown, tab.len() as int) == Some(after),
        forall|k: int|
            0 <= k < a.len() && (#[trigger] a[k]).tag == dt::NEEDED ==> entry_text(grown, a[k])
                == entry_text(tab, a[k]),
        b == Seq::new(
            a.len(),
            |k: int|
                if needs(tab, before)(a[k]) {
                    DynEntry { val: tab.len() as u64, ..a[k] }
                } else {
                    a[k]
                },
        ),
    ensures
        needed_from(grown, b, i) == replaced(needed_from(tab, a, i), before, after),
    decreases a.len() - i,
{
    let want = replaced(needed_from(tab, a, i), before, after);
    if i < a.len() && a[i].tag != dt::NULL {
        lemma_replaced_from(tab, grown, a, b, before, after, i + 1);
        assert(b[i].tag == a[i].tag);
        assert(needed_from(grown, b, i) =~= want);
    } else {
        assert(want =~= Seq::empty());
    }
}

/// Whether the string at `off` shares no byte with the one at `o`.
pub open spec fn apart(tab: Seq<u8>, off: int, o: int) -> bool {
    str_end(tab, off) <= o || str_end(tab, o) <= off
}

/// Whether the string at `off` is left alone when the string at `slot` is set to `new`:
/// it shares no byte with the one that is written over, and is not in what is added
/// where there is no room.
pub open spec fn run_path_spares(
    tab: Seq<u8>,
    slot: Option<u64>,
    new: Seq<char>,
    off: int,
) -> bool {
    if slot_fits(tab, slot, encode_utf8(new).len() as int) {
        off >= tab.len() || apart(tab, off, slot->Some_0 as int)
    } else {
        no_new(tab, off, new)
    }
}

/// Setting the run path keeps the libraries that are needed, where their names do
/// not share bytes with the run path's string.
pub proof fn law_set_run_path_keeps_needed(v: ImageView, new: Seq<char>, force: bool)
    requires
        strings_short(v),
        terminated(v.sections[v.find_section(".dynstr"@)->Some_0]),
        forall|i: int|
            0 <= i < v.dynamic.len() && (#[trigger] v.dynamic[i]).tag == dt::NEEDED
                ==> run_path_spares(
                v.sections[v.find_section(".dynstr"@)->Some_0],
                run_path_slot(v.dynamic),
                new,
                string_offset(v.dynamic[i]),
            ),
    ensures
        run_path_set(v, new, force) matches Ok(w) ==> needed_of(w) == needed_of(v),
{
    if let Ok(w) = run_path_set(v, new, force) {
        let s = v.find_section(".dynstr"@)->Some_0;
        let tab = v.sections[s];
        let slot = run_path_slot(v.dynamic);
        let (t, off) = string_put(tab, slot, new);
        let b = encode_utf8(new);
        assert(v.dynstr() == Some(tab));
        assert(w.dynstr() == Some(t));
        assert forall|k: int|
            0 <= k < v.dynamic.len() && (#[trigger] v.dynamic[k]).tag == dt::NEEDED implies entry_text(
            tab,
            v.dynamic[k],
        ) == entry_text(t, v.dynamic[k]) by {
            let at = string_offset(v.dynamic[k]);
            if slot_fits(tab, slot, b.len() as int) {
                lemma_text_apart(tab, slot, new, at);
            } else {
                let more = b + seq![0u8];
                assert(t =~= tab + more);
                lemma_text_grows(tab, more, at);
            }
        }
        lemma_needed_table(tab, t, v.dynamic, 0);
        lemma_needed_entries(t, v.dynamic, off, force);
    }
}

/// A string that is apart from the one that is written over stays.
pub proof fn lemma_text_apart(tab: Seq<u8>, slot: Option<u64>, new: Seq<char>, at: int)
    requires
        slot_fits(tab, slot, encode_utf8(new).len() as int),
        terminated(tab),
        0 <= at,
        at >= tab.len() || apart(tab, at, slot->Some_0 as int),
    ensures
        c_text(string_put(tab, slot, new).0, at) == c_text(tab, at),
{
    if at < tab.len() {
        lemma_inner_text_apart(tab, slot, new, at);
    } else if at == tab.len() {
        let t = string_put(tab, slot, new).0;
        assert(t.subrange(at, at) =~= tab.subrange(at, at));
    }
}

proof fn lemma_inner_text_apart(tab: Seq<u8>, slot: Option<u64>, new: Seq<char>, at: int)
    requires
        slot_fits(tab, slot, encode_utf8(new).len() as int),
        terminated(tab),
        0 <= at < tab.len(),
        apart(tab, at, slot->Some_0 as int),
    ensures
        c_text(string_put(tab, slot, new).0, at) == c_text(tab, at),
{
    let o = slot->Some_0 as int;
    let t = string_put(tab, slot, new).0;
    lemma_str_end(tab, at);
    lemma_str_end(tab, o);
    let e = str_end(tab, at);
    if e == tab.len() {
        assert(tab[tab.len() - 1] != 0);
    }
    assert forall|j: int| at <= j <= e implies #[trigger] t[j] == tab[j] by {
        if e <= o && j == o {
            assert(tab[o] == 0);
        }
    }
    assert forall|j: int| at <= j < e implies #[trigger] t[j] != 0 by {
        assert(t[j] == tab[j]);
        assert(tab[j] != 0);
    }
    assert(t[e] == tab[e]);
    lemma_str_end_is(t, at, e);
    assert(t.subrange(at, e) =~= tab.subrange(at, e));
}

/// The run path's entries need nothing.
proof fn lemma_needed_entries(tab: Seq<u8>, d: Seq<DynEntry>, off: u64, force: bool)
    ensures
        needed_from(tab, run_path_entries(d, off, force), 0) == needed_from(tab, d, 0),
{
    let e = run_path_entries(d, off, force);
    if first(live(d), is_run_path()) is None {
        lemma_needed_front(tab, DynEntry { tag: run_path_tag(force), val: off }, d);
    } else {
        assert forall|k: int| 0 <= k < d.len() implies ((#[trigger] e[k]) == d[k] || (e[k].tag
            != dt::NEEDED && e[k].tag != dt::NULL && d[k].tag != dt::NEEDED && d[k].tag
            != dt::NULL)) by {}
        lemma_needed_alike(tab, e, d, 0);
    }
}

proof fn lemma_needed_alike(tab: Seq<u8>, a: Seq<DynEntry>, b: Seq<DynEntry>, i: int)
    requires
        0 <= i,
        a.len() == b.len(),
        forall|k: int|
            0 <= k < a.len() ==> ((#[trigger] a[k]) == b[k] || (a[k].tag != dt::NEEDED && a[k].tag
                != dt::NULL && b[k].tag != dt::NEEDED && b[k].tag != dt::NULL)),
    ensures
        needed_from(tab, a, i) == needed_from(tab, b, i),
    decreases a.len() - i,
{
    if i < a.len() {
        lemma_needed_alike(tab, a, b, i + 1);
        assert(a[i] == b[i] || a[i].tag != dt::NEEDED);
    }
}

/// A soname that was set reads back, and setting it again changes nothing.
pub proof fn law_soname(v: ImageView, name: Seq<char>)
    requires
        strings_wf(v),
        storable(name),
        v.ehdr.e_type == et::DYN,
    ensures
        soname_set(v, name) matches Ok(w) ==> {
            &&& soname_of(w) == if name.len() > 0 {
                Some(name)
            } else {
                None
            }
            &&& soname_set(w, name) == Outcome::<ImageView>::Ok(w)
        },
{
    if let Ok(w) = soname_set(v, name) {
        let s = v.find_section(".dynstr"@)->Some_0;
        lemma_first_from(v.dynamic, has_tag(dt::SONAME), 0);
        let k = first(v.dynamic, has_tag(dt::SONAME));
        let at = match k {
            Some(k) => k,
            None => 0,
        };
        if w != v {
            let tab = with_string(v.sections[s], name);
            law_string_reads_back(v.sections[s], None, name);
            lemma_names_stay(v, w, None, name, ".dynstr"@);
            assert forall|j: int| 0 <= j < at implies !has_tag(dt::SONAME)(
                #[trigger] w.dynamic[j],
            ) by {
                assert(w.dynamic[j] == v.dynamic[j]);
                assert(!has_tag(dt::SONAME)(v.dynamic[j]));
            }
            assert(has_tag(dt::SONAME)(w.dynamic[at]));
            lemma_first_is(w.dynamic, has_tag(dt::SONAME), 0, at);
            assert(w.dynstr() == Some(tab));
            assert(entry_text(tab, w.dynamic[at]) == Some(name));
        }
    }
}

/// An interpreter that was set reads back.
pub proof fn law_interpreter(v: ImageView, new: Seq<char>)
    requires
        v.wf(),
        storable(new),
        v.find_section(".interp"@) matches Some(k) ==> v.ehdr.shstrndx != k,
    ensures
        interpreter_set(v, new) matches Ok(w) ==> interpreter_of(w) == Outcome::<Seq<char>>::Ok(new),
{
    if let Ok(w) = interpreter_set(v, new) {
        lemma_section_from(v, ".interp"@, 0);
        lemma_section_from_same(v, w, ".interp"@, 0);
        law_string_reads_back(Seq::empty(), None, new);
    }
}

/// The OS ABI that was set is in the header and in its identification bytes, and
/// the rest of the identification stays.
pub proof fn law_os_abi(v: ImageView, name: Seq<char>)
    requires
        v.ehdr.ident.len() == 16,
    ensures
        os_abi_set(v, name) matches Ok(w) ==> {
            &&& w.ehdr.os_abi == w.ehdr.ident[7]
            &&& forall|i: int|
                0 <= i < 16 && i != 7 ==> #[trigger] w.ehdr.ident[i] == v.ehdr.ident[i]
        },
{
}

/// After setting or clearing it, the stack is executable or not.
pub proof fn law_execstack(v: ImageView, set: bool)
    ensures
        execstack_of(execstack_set(v, set)) == if set {
            'X'
        } else {
            '-'
        },
        execstack_set(execstack_set(v, set), set) == execstack_set(v, set),
{
    let w = execstack_set(v, set);
    let p = segment_type(pt::GNU_STACK);
    lemma_first_from(v.phdrs, p, 0);
    lemma_first_from(v.phdrs, segment_type(pt::NULL), 0);
    let k = match first(v.phdrs, p) {
        Some(k) => k,
        None => match first(v.phdrs, segment_type(pt::NULL)) {
            Some(k) => k,
            None => v.phdrs.len() as int,
        },
    };
    assert forall|j: int| 0 <= j < k implies !p(#[trigger] w.phdrs[j]) by {
        assert(w.phdrs[j] == v.phdrs[j]);
        assert(!p(v.phdrs[j]));
    }
    assert(p(w.phdrs[k]));
    lemma_first_is(w.phdrs, p, 0, k);
    let f = if first(v.phdrs, p) is Some {
        v.phdrs[k].flags
    } else {
        pf::R | pf::W
    };
    assert((f | 1) & 1 != 0) by (bit_vector);
    assert((f & !1u32) & 1 == 0) by (bit_vector);
    assert((f | 1) | 1 == f | 1) by (bit_vector);
    assert((f & !1u32) & !1u32 == f & !1u32) by (bit_vector);
    let again = execstack_set(w, set);
    assert(again.phdrs =~= w.phdrs);
}

/// Switching the default libraries off sets the flag for it, and done twice does no
/// more than once.
pub proof fn law_no_default_lib(v: ImageView)
    ensures
        no_default_lib_set(v) matches Ok(w) ==> {
            &&& first(w.dynamic, has_tag(dt::FLAGS_1)) matches Some(k) && w.dynamic[k].val
                & df1::NODEFLIB == df1::NODEFLIB
            &&& no_default_lib_set(w) == Outcome::<ImageView>::Ok(w)
        },
{
    if let Ok(w) = no_default_lib_set(v) {
        let p = has_tag(dt::FLAGS_1);
        lemma_first_from(v.dynamic, p, 0);
        let k = match first(v.dynamic, p) {
            Some(k) => k,
            None => 0,
        };
        assert forall|j: int| 0 <= j < k implies !p(#[trigger] w.dynamic[j]) by {
            assert(w.dynamic[j] == v.dynamic[j]);
            assert(!p(v.dynamic[j]));
        }
        lemma_first_is(w.dynamic, p, 0, k);
        let f = if first(v.dynamic, p) is Some {
            v.dynamic[k].val
        } else {
            0
        };
        assert((f | 0x800) | 0x800 == f | 0x800) by (bit_vector);
        assert(0x800u64 | 0x800 == 0x800) by (bit_vector);
        assert((f | 0x800) & 0x800 == 0x800) by (bit_vector);
        assert(0x800u64 & 0x800 == 0x800) by (bit_vector);
        let again = no_default_lib_set(w)->Ok_0;
        assert(again.dynamic =~= w.dynamic);
    }
}

/// Adding a debug tag leaves one, and done twice does no more than once.
pub proof fn law_debug_tag(v: ImageView)
    ensures
        debug_tag_added(v) matches Ok(w) ==> first(w.dynamic, has_tag(dt::DEBUG)) is Some
            && debug_tag_added(w) == Outcome::<ImageView>::Ok(w),
{
    if let Ok(w) = debug_tag_added(v) {
        if first(v.dynamic, has_tag(dt::DEBUG)) is None {
            lemma_first_is(w.dynamic, has_tag(dt::DEBUG), 0, 0);
        }
    }
}

/// With everything accepted, filtering a run path only drops empty components.
pub proof fn law_filter_keeps(cur: Seq<char>, accept: Seq<bool>)
    requires
        accept.len() == fields(cur, ':').len(),
        forall|i: int| 0 <= i < accept.len() ==> #[trigger] accept[i],
    ensures
        filtered(cur, Seq::empty(), accept) == join(fields(cur, ':'), ":"@),
{
    let dirs = fields(cur, ':');
    lemma_keeps(dirs, accept, dirs.len() as int);
    assert(dirs.take(dirs.len() as int) =~= dirs);
}

proof fn lemma_keeps(dirs: Seq<Seq<char>>, accept: Seq<bool>, n: int)
    requires
        0 <= n <= dirs.len(),
        accept.len() == dirs.len(),
        forall|i: int| 0 <= i < accept.len() ==> #[trigger] accept[i],
    ensures
        kept_dirs(dirs, Seq::empty(), accept, n) == dirs.take(n),
    decreases n,
{
    if n > 0 {
        lemma_keeps(dirs, accept, n - 1);
        assert(accept[n - 1]);
        assert(dirs.take(n - 1).push(dirs[n - 1]) =~= dirs.take(n));
    } else {
        assert(dirs.take(0) =~= Seq::empty());
    }
}

/// Whatever is accepted, the components that stay are components of the run path,
/// and one that is absolute was accepted; with nothing accepted none is absolute.
pub proof fn law_filter_drops(
    dirs: Seq<Seq<char>>,
    allowed: Seq<Seq<char>>,
    accept: Seq<bool>,
    n: int,
)
    requires
        0 <= n <= dirs.len(),
        accept.len() == dirs.len(),
    ensures
        forall|k: int|
            0 <= k < kept_dirs(dirs, allowed, accept, n).len() ==> {
                let d = #[trigger] kept_dirs(dirs, allowed, accept, n)[k];
                exists|i: int|
                    0 <= i < n && #[trigger] dirs[i] == d && (absolute(d) ==> accept[i]
                        && crate::rpath::allowed_dir(d, allowed))
            },
        (forall|i: int| 0 <= i < accept.len() ==> !#[trigger] accept[i]) ==> forall|k: int|
            0 <= k < kept_dirs(dirs, allowed, accept, n).len() ==> !absolute(
                #[trigger] kept_dirs(dirs, allowed, accept, n)[k],
            ),
    decreases n,
{
    if n > 0 {
        law_filter_drops(dirs, allowed, accept, n - 1);
        let before = kept_dirs(dirs, allowed, accept, n - 1);
        let all = kept_dirs(dirs, allowed, accept, n);
        assert forall|k: int| 0 <= k < all.len() implies {
            let d = #[trigger] all[k];
            exists|i: int|
                0 <= i < n && #[trigger] dirs[i] == d && (absolute(d) ==> accept[i]
                    && crate::rpath::allowed_dir(d, allowed))
        } by {
            if k < before.len() {
                assert(all[k] == before[k]);
                let i = choose|i: int|
                    0 <= i < n - 1 && #[trigger] dirs[i] == before[k] && (absolute(before[k])
                        ==> accept[i] && crate::rpath::allowed_dir(before[k], allowed));
                assert(dirs[i] == all[k]);
            } else {
                assert(dirs[n - 1] == all[k]);
            }
        }
        if forall|i: int| 0 <= i < accept.len() ==> !#[trigger] accept[i] {
            assert(!accept[n - 1]);
            assert forall|k: int| 0 <= k < all.len() implies !absolute(#[trigger] all[k]) by {
                if k < before.len() {
                    assert(all[k] == before[k]);
                }
            }
        }
    }
}

} // verus!
