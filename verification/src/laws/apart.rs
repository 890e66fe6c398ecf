//! What the edits of one thing leave alone.
use vstd::prelude::*;
use vstd::utf8::encode_utf8;

use crate::ir::{dt, et, has_tag, lemma_section_from, str_end, DynEntry, ImageView};
use crate::laws::edits::{
    law_set_run_path_keeps_needed, lemma_filter_front, lemma_live, lemma_needed_front,
    lemma_needed_table, lemma_text_apart, lemma_text_grows, no_new, run_path_spares, strings_short,
    terminated,
};
use crate::laws::readback::lemma_last_same;
use crate::laws::repeat::{lemma_first_same, lemma_live_same};
use crate::ops::{
    entry_text, live, needed_from, needed_of, slot_fits, soname_of, soname_set, string_offset,
    string_put, tag_text, with_string,
};
use crate::rpath::{
    is_run_path, last_with, not_run_path, run_path, run_path_entries, run_path_entry, run_path_set,
    run_path_slot,
};
use crate::seqs::{first, lemma_first_from, lemma_first_is, lemma_first_none};

verus! {

/// The dynamic strings of an image that has a section for them.
pub open spec fn strings_of(v: ImageView) -> Seq<u8> {
    v.sections[v.find_section(".dynstr"@)->Some_0]
}

/// Whether no entry with the tag `tag` names what is added to the strings for `new`.
pub open spec fn within(v: ImageView, tag: i64, new: Seq<char>) -> bool {
    forall|i: int|
        0 <= i < v.dynamic.len() && (#[trigger] v.dynamic[i]).tag == tag ==> no_new(
            strings_of(v),
            string_offset(v.dynamic[i]),
            new,
        )
}

/// Whether the strings that the entries with the tag `tag` name are left alone when the
/// run path is set to `new`.
pub open spec fn spared(v: ImageView, tag: i64, new: Seq<char>) -> bool {
    forall|i: int|
        0 <= i < v.dynamic.len() && (#[trigger] v.dynamic[i]).tag == tag ==> run_path_spares(
            strings_of(v),
            run_path_slot(v.dynamic),
            new,
            string_offset(v.dynamic[i]),
        )
}

/// The text of an entry stays when the run path is set.
proof fn lemma_entry_stays(v: ImageView, new: Seq<char>, tag: i64, i: int)
    requires
        terminated(strings_of(v)),
        spared(v, tag, new),
        0 <= i < v.dynamic.len(),
        v.dynamic[i].tag == tag,
    ensures
        entry_text(string_put(strings_of(v), run_path_slot(v.dynamic), new).0, v.dynamic[i])
            == entry_text(strings_of(v), v.dynamic[i]),
{
    let tab = strings_of(v);
    let slot = run_path_slot(v.dynamic);
    let b = encode_utf8(new);
    let at = string_offset(v.dynamic[i]);
    if slot_fits(tab, slot, b.len() as int) {
        lemma_text_apart(tab, slot, new, at);
    } else {
        let more = b + seq![0u8];
        assert(string_put(tab, slot, new).0 =~= tab + more);
        lemma_text_grows(tab, more, at);
    }
}

/// An entry with another tag comes first where it came first before the run path
/// was set.
proof fn lemma_first_other(d: Seq<DynEntry>, off: u64, force: bool, tag: i64)
    requires
        tag != dt::RPATH,
        tag != dt::RUNPATH,
    ensures
        match (first(d, has_tag(tag)), first(run_path_entries(d, off, force), has_tag(tag))) {
            (Some(a), Some(b)) => 0 <= a < d.len() && 0 <= b < run_path_entries(
                d,
                off,
                force,
            ).len() && d[a] == run_path_entries(d, off, force)[b],
            (None, None) => true,
            _ => false,
        },
{
    let e = run_path_entries(d, off, force);
    let p = has_tag(tag);
    lemma_first_from(d, p, 0);
    if first(live(d), is_run_path()) is None {
        lemma_first_front(e[0], d, p);
        assert(e =~= seq![e[0]] + d);
    } else {
        assert forall|i: int| 0 <= i < d.len() implies p(#[trigger] d[i]) == p(e[i]) by {}
        lemma_first_same(d, e, p, 0);
    }
}

/// Searching a sequence with one more element in front.
proof fn lemma_first_front<T>(x: T, s: Seq<T>, p: spec_fn(T) -> bool)
    requires
        !p(x),
    ensures
        first(seq![x] + s, p) == match first(s, p) {
            Some(k) => Some(k + 1),
            None => None,
        },
{
    let t = seq![x] + s;
    lemma_first_from(s, p, 0);
    match first(s, p) {
        Some(k) => {
            assert forall|j: int| 0 <= j < k + 1 implies !p(#[trigger] t[j]) by {
                if j > 0 {
                    assert(t[j] == s[j - 1]);
                    assert(!p(s[j - 1]));
                }
            }
            assert(t[k + 1] == s[k]);
            lemma_first_is(t, p, 0, k + 1);
        },
        None => {
            assert forall|j: int| 0 <= j < t.len() implies !p(#[trigger] t[j]) by {
                if j > 0 {
                    assert(t[j] == s[j - 1]);
                    assert(!p(s[j - 1]));
                }
            }
            lemma_first_none(t, p, 0);
        },
    }
}

/// Setting the run path keeps the libraries that are needed and the soname, where
/// their names do not share bytes with the run path's string. The entries of other
/// kinds stay, in their order, and so does all but the strings.
pub proof fn law_set_run_path_keeps(v: ImageView, new: Seq<char>, force: bool)
    requires
        strings_short(v),
        terminated(strings_of(v)),
        spared(v, dt::NEEDED, new),
        spared(v, dt::SONAME, new),
    ensures
        run_path_set(v, new, force) matches Ok(w) ==> {
            &&& needed_of(w) == needed_of(v)
            &&& soname_of(w) == soname_of(v)
            &&& w.dynamic.filter(not_run_path()) == v.dynamic.filter(not_run_path())
            &&& w == (ImageView { dynamic: w.dynamic, sections: w.sections, ..v })
            &&& w.sections.len() == v.sections.len()
            &&& forall|i: int|
                0 <= i < v.sections.len() && Some(i) != v.find_section(".dynstr"@)
                    ==> #[trigger] w.sections[i] == v.sections[i]
        },
{
    if let Ok(w) = run_path_set(v, new, force) {
        let tab = strings_of(v);
        let slot = run_path_slot(v.dynamic);
        let (t, off) = string_put(tab, slot, new);
        law_set_run_path_keeps_needed(v, new, force);
        assert(v.dynstr() == Some(tab));
        assert(w.dynstr() == Some(t));
        lemma_first_other(v.dynamic, off, force, dt::SONAME);
        lemma_first_from(v.dynamic, has_tag(dt::SONAME), 0);
        if let Some(k) = first(v.dynamic, has_tag(dt::SONAME)) {
            lemma_entry_stays(v, new, dt::SONAME, k);
        }
        assert(tag_text(w, dt::SONAME) == tag_text(v, dt::SONAME));
        let p = not_run_path();
        if first(live(v.dynamic), is_run_path()) is None {
            lemma_filter_front(w.dynamic[0], v.dynamic, p);
            assert(w.dynamic =~= seq![w.dynamic[0]] + v.dynamic);
        } else {
            lemma_live(v.dynamic);
            lemma_filter_alike(v.dynamic, w.dynamic, p);
        }
    }
}

/// Sequences that agree on what `p` holds of are the same when filtered by it.
pub proof fn lemma_filter_alike<T>(a: Seq<T>, b: Seq<T>, p: spec_fn(T) -> bool)
    requires
        a.len() == b.len(),
        forall|i: int| 0 <= i < a.len() ==> p(#[trigger] a[i]) == p(b[i]) && (p(a[i]) ==> a[i] == b[i]),
    ensures
        a.filter(p) == b.filter(p),
    decreases a.len(),
{
    reveal(Seq::filter);
    if a.len() > 0 {
        assert(p(a[a.len() - 1]) == p(b[a.len() - 1]));
        assert forall|i: int| 0 <= i < a.drop_last().len() implies p(#[trigger] a.drop_last()[i])
            == p(b.drop_last()[i]) && (p(a.drop_last()[i]) ==> a.drop_last()[i] == b.drop_last()[i]) by {
            assert(a.drop_last()[i] == a[i] && b.drop_last()[i] == b[i]);
        }
        lemma_filter_alike(a.drop_last(), b.drop_last(), p);
    }
}

/// The run path's string is written over the old one where it fits, and the table
/// keeps its length; else it goes behind the others. Every entry of the run path
/// names it.
pub proof fn law_run_path_slot(v: ImageView, new: Seq<char>, force: bool)
    requires
        v.wf(),
        run_path_slot(v.dynamic) matches Some(o) && o < strings_of(v).len(),
    ensures
        run_path_set(v, new, force) matches Ok(w) ==> {
            let tab = strings_of(v);
            let o = run_path_slot(v.dynamic)->Some_0;
            let b = encode_utf8(new);
            let t = w.sections[v.find_section(".dynstr"@)->Some_0];
            let fits = b.len() <= str_end(tab, o as int) - o;
            &&& fits ==> t.len() == tab.len()
            &&& !fits ==> t == tab + b + seq![0u8]
            &&& live(w.dynamic).len() == live(v.dynamic).len()
            &&& forall|i: int|
                0 <= i < live(w.dynamic).len() && is_run_path()(#[trigger] live(w.dynamic)[i])
                    ==> live(w.dynamic)[i].val == if fits {
                    o
                } else {
                    tab.len() as u64
                }
        },
{
    if let Ok(w) = run_path_set(v, new, force) {
        lemma_section_from(v, ".dynstr"@, 0);
        lemma_live(v.dynamic);
        lemma_live(w.dynamic);
        assert forall|i: int| 0 <= i < v.dynamic.len() implies (#[trigger] w.dynamic[i]).tag
            == dt::NULL <==> v.dynamic[i].tag == dt::NULL by {
            if i < live(v.dynamic).len() {
                assert(live(v.dynamic)[i] == v.dynamic[i]);
            }
        }
        let n = live(v.dynamic).len() as int;
        let m = live(w.dynamic).len() as int;
        if n < m {
            assert(live(w.dynamic)[n] == w.dynamic[n]);
            assert(v.dynamic[n].tag == dt::NULL);
        } else if m < n {
            assert(live(v.dynamic)[m] == v.dynamic[m]);
            assert(w.dynamic[m].tag == dt::NULL);
        }
        assert forall|i: int|
            0 <= i < m && is_run_path()(#[trigger] live(w.dynamic)[i]) implies live(
            w.dynamic,
        )[i].val == string_put(strings_of(v), run_path_slot(v.dynamic), new).1 by {
            assert(live(w.dynamic)[i] == w.dynamic[i]);
            assert(live(v.dynamic)[i] == v.dynamic[i]);
        }
    }
}

/// The entry of the run path stays behind one of another kind.
proof fn lemma_run_path_front(x: DynEntry, d: Seq<DynEntry>)
    requires
        x.tag != dt::NULL,
        x.tag != dt::RPATH,
        x.tag != dt::RUNPATH,
    ensures
        run_path_entry(seq![x] + d) == run_path_entry(d),
{
    let e = seq![x] + d;
    lemma_first_front(x, d, has_tag(dt::NULL));
    lemma_first_from(d, has_tag(dt::NULL), 0);
    assert(live(e) =~= seq![x] + live(d));
    lemma_first_front(x, live(d), has_tag(dt::RUNPATH));
    lemma_first_from(live(d), has_tag(dt::RUNPATH), 0);
    lemma_last_front(x, live(d), dt::RPATH);
}

proof fn lemma_last_front(x: DynEntry, d: Seq<DynEntry>, tag: i64)
    requires
        x.tag != tag,
    ensures
        last_with(seq![x] + d, tag) == last_with(d, tag),
    decreases d.len(),
{
    let e = seq![x] + d;
    if d.len() == 0 {
        assert(e.last() == x);
        assert(e.drop_last() =~= d);
        assert(last_with(d, tag) is None);
    } else {
        assert(e.last() == d.last());
        assert(e.drop_last() =~= seq![x] + d.drop_last());
        lemma_last_front(x, d.drop_last(), tag);
    }
}

/// The entry of the run path stays when one of another kind, that was of another
/// kind, changes.
proof fn lemma_run_path_update(d: Seq<DynEntry>, k: int, x: DynEntry)
    requires
        0 <= k < d.len(),
        d[k].tag == x.tag,
        x.tag != dt::RPATH,
        x.tag != dt::RUNPATH,
    ensures
        run_path_entry(d.update(k, x)) == run_path_entry(d),
{
    let e = d.update(k, x);
    lemma_live_same(d, e);
    lemma_live(d);
    lemma_live(e);
    let a = live(d);
    let b = live(e);
    assert forall|i: int| 0 <= i < a.len() implies (#[trigger] a[i]).tag == b[i].tag && (i != k
        ==> a[i] == b[i]) by {
        assert(a[i] == d[i] && b[i] == e[i]);
    }
    let p = has_tag(dt::RUNPATH);
    assert forall|i: int| 0 <= i < a.len() implies p(#[trigger] a[i]) == p(b[i]) by {
        assert(a[i].tag == b[i].tag);
    }
    lemma_first_same(a, b, p, 0);
    lemma_first_from(a, p, 0);
    if let Some(i) = first(a, p) {
        assert(p(a[i]));
        assert(a[i] == d[i]);
    }
    lemma_last_same(a, b, dt::RPATH);
}

/// Being an entry of another kind than the soname.
pub open spec fn not_soname() -> spec_fn(DynEntry) -> bool {
    |d: DynEntry| d.tag != dt::SONAME
}

/// Setting the soname keeps the libraries that are needed and the run path. The
/// entries of other kinds stay, in their order, and so does all but the strings,
/// which only grow.
pub proof fn law_set_soname_keeps(v: ImageView, name: Seq<char>)
    requires
        v.ehdr.e_type == et::DYN ==> strings_short(v) && terminated(strings_of(v)),
        v.ehdr.e_type == et::DYN ==> within(v, dt::NEEDED, name) && within(
            v,
            dt::RUNPATH,
            name,
        ) && within(v, dt::RPATH, name),
    ensures
        soname_set(v, name) matches Ok(w) ==> {
            &&& needed_of(w) == needed_of(v)
            &&& run_path(w) == run_path(v)
            &&& w.dynamic.filter(not_soname()) == v.dynamic.filter(not_soname())
            &&& w == (ImageView { dynamic: w.dynamic, sections: w.sections, ..v })
            &&& w.sections.len() == v.sections.len()
            &&& forall|i: int|
                0 <= i < v.sections.len() && Some(i) != v.find_section(".dynstr"@)
                    ==> #[trigger] w.sections[i] == v.sections[i]
            &&& w != v ==> w.sections[v.find_section(".dynstr"@)->Some_0] == strings_of(v)
                + encode_utf8(name) + seq![0u8]
        },
{
    if let Ok(w) = soname_set(v, name) {
        if w != v {
            let tab = strings_of(v);
            let t = with_string(tab, name);
            let more = encode_utf8(name) + seq![0u8];
            assert(t =~= tab + more);
            assert(t =~= tab + encode_utf8(name) + seq![0u8]);
            assert(v.dynstr() == Some(tab));
            assert(w.dynstr() == Some(t));
            assert forall|k: int|
                0 <= k < v.dynamic.len() && ((#[trigger] v.dynamic[k]).tag == dt::NEEDED
                    || v.dynamic[k].tag == dt::RUNPATH || v.dynamic[k].tag
                    == dt::RPATH) implies entry_text(tab, v.dynamic[k]) == entry_text(
                t,
                v.dynamic[k],
            ) by {
                lemma_text_grows(tab, more, string_offset(v.dynamic[k]));
            }
            lemma_needed_table(tab, t, v.dynamic, 0);
            let new = DynEntry { tag: dt::SONAME, val: tab.len() as u64 };
            lemma_first_from(v.dynamic, has_tag(dt::SONAME), 0);
            match first(v.dynamic, has_tag(dt::SONAME)) {
                Some(k) => {
                    assert(has_tag(dt::SONAME)(v.dynamic[k]));
                    lemma_run_path_update(v.dynamic, k, new);
                    lemma_needed_update(t, v.dynamic, k, new, 0);
                    assert forall|i: int| 0 <= i < v.dynamic.len() implies not_soname()(
                        #[trigger] v.dynamic[i],
                    ) == not_soname()(w.dynamic[i]) && (not_soname()(v.dynamic[i])
                        ==> v.dynamic[i] == w.dynamic[i]) by {}
                    lemma_filter_alike(v.dynamic, w.dynamic, not_soname());
                },
                None => {
                    lemma_run_path_front(new, v.dynamic);
                    lemma_needed_front(t, new, v.dynamic);
                    lemma_filter_front(new, v.dynamic, not_soname());
                },
            }
            lemma_entry_among(v.dynamic);
        }
    }
}

/// The entry of the run path is one of the dynamic array, and has its tag.
proof fn lemma_entry_among(d: Seq<DynEntry>)
    ensures
        run_path_entry(d) matches Some(e) ==> (exists|k: int| 0 <= k < d.len() && #[trigger] d[k]
            == e) && (e.tag == dt::RUNPATH || e.tag == dt::RPATH),
{
    let l = live(d);
    lemma_live(d);
    lemma_first_from(l, has_tag(dt::RUNPATH), 0);
    match first(l, has_tag(dt::RUNPATH)) {
        Some(k) => {
            assert(has_tag(dt::RUNPATH)(l[k]));
            assert(d[k] == l[k]);
        },
        None => {
            lemma_last_among(l, dt::RPATH);
            if let Some(e) = last_with(l, dt::RPATH) {
                let k = choose|k: int| 0 <= k < l.len() && #[trigger] l[k] == e;
                assert(d[k] == l[k]);
            }
        },
    }
}

proof fn lemma_last_among(d: Seq<DynEntry>, tag: i64)
    ensures
        last_with(d, tag) matches Some(e) ==> e.tag == tag && exists|k: int|
            0 <= k < d.len() && #[trigger] d[k] == e,
    decreases d.len(),
{
    if d.len() > 0 {
        if d.last().tag == tag {
            assert(d[d.len() - 1] == d.last());
        } else {
            lemma_last_among(d.drop_last(), tag);
            if let Some(e) = last_with(d.drop_last(), tag) {
                let k = choose|k: int| 0 <= k < d.drop_last().len() && #[trigger] d.drop_last()[k] == e;
                assert(d[k] == e);
            }
        }
    }
}

/// What is needed stays when an entry of another kind changes.
proof fn lemma_needed_update(tab: Seq<u8>, d: Seq<DynEntry>, k: int, x: DynEntry, i: int)
    requires
        0 <= k < d.len(),
        d[k].tag == x.tag,
        x.tag != dt::NEEDED,
        0 <= i,
    ensures
        needed_from(tab, d.update(k, x), i) == needed_from(tab, d, i),
    decreases d.len() - i,
{
    if i < d.len() {
        lemma_needed_update(tab, d, k, x, i + 1);
    }
}

} // verus!
