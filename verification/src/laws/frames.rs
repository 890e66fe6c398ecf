//! What an operation is not about stays as it was.
use vstd::prelude::*;
use vstd::utf8::encode_utf8;

use crate::cli::OperationView;
use crate::ir::{has_tag, lemma_str_end, segment_type, str_end, DynEntry, ImageView, Phdr};
use crate::laws::apart::lemma_filter_alike;
use crate::laws::edits::lemma_filter_front;
use crate::ops::{
    applied, execstack_set, slot_fits, spares, string_put, with_string, ModifiersView, ReportView,
    SurroundingsView,
};
use crate::rpath::not_run_path;
use crate::seqs::{first, lemma_first_from};

verus! {

/// Being an entry with another tag.
pub open spec fn other_tag(tag: i64) -> spec_fn(DynEntry) -> bool {
    |d: DynEntry| d.tag != tag
}

/// Whether only the dynamic entries changed, and of those only ones with the tag `tag`.
pub open spec fn only_entries(v: ImageView, w: ImageView, tag: i64) -> bool {
    &&& w == (ImageView { dynamic: w.dynamic, ..v })
    &&& w.dynamic.filter(other_tag(tag)) == v.dynamic.filter(other_tag(tag))
}

/// Whether only the dynamic entries with the tag `tag` changed, and the strings, behind
/// which `name` may have come.
pub open spec fn only_entries_and_strings(
    v: ImageView,
    w: ImageView,
    tag: i64,
    name: Seq<char>,
) -> bool {
    &&& w == (ImageView { dynamic: w.dynamic, sections: w.sections, ..v })
    &&& w.dynamic.filter(other_tag(tag)) == v.dynamic.filter(other_tag(tag))
    &&& w.sections == v.sections || (v.find_section(".dynstr"@) matches Some(s) && w.sections
        == v.sections.update(s, v.sections[s] + encode_utf8(name) + seq![0u8]))
}

/// The operations on needed libraries change no entry of another kind, and of the contents
/// only the strings, which grow at most by the new name. One that is removed leaves its
/// string.
pub proof fn law_needed_keeps_the_rest(
    v: ImageView,
    r: ReportView,
    lib: Seq<char>,
    new: Seq<char>,
    mods: ModifiersView,
    around: SurroundingsView,
)
    ensures
        applied(v, r, OperationView::AddNeeded(new), mods, around) matches Ok((w, _))
            ==> only_entries_and_strings(v, w, 1, new) && w.dynamic.skip(1) == v.dynamic,
        applied(
            v,
            r,
            OperationView::ReplaceNeeded { before: lib, after: new },
            mods,
            around,
        ) matches Ok((w, _)) ==> only_entries_and_strings(v, w, 1, new) && w.dynamic.len()
            == v.dynamic.len() && forall|i: int|
            0 <= i < v.dynamic.len() ==> (#[trigger] w.dynamic[i]).tag == v.dynamic[i].tag,
        applied(v, r, OperationView::RemoveNeeded(lib), mods, around) matches Ok((w, _))
            ==> only_entries(v, w, 1),
{
    let p = other_tag(1);
    if let Ok((w, _)) = applied(v, r, OperationView::AddNeeded(new), mods, around) {
        lemma_filter_front(w.dynamic[0], v.dynamic, p);
        assert(w.dynamic =~= seq![w.dynamic[0]] + v.dynamic);
        assert(w.dynamic.skip(1) =~= v.dynamic);
    }
    let replace = OperationView::ReplaceNeeded { before: lib, after: new };
    if let Ok((w, _)) = applied(v, r, replace, mods, around) {
        assert forall|i: int| 0 <= i < v.dynamic.len() implies p(#[trigger] v.dynamic[i]) == p(
            w.dynamic[i],
        ) && (p(v.dynamic[i]) ==> v.dynamic[i] == w.dynamic[i]) by {}
        lemma_filter_alike(v.dynamic, w.dynamic, p);
    }
    if let Ok((w, _)) = applied(v, r, OperationView::RemoveNeeded(lib), mods, around) {
        let s = v.find_section(".dynstr"@)->Some_0;
        lemma_filter_twice(v.dynamic, spares(v.sections[s], lib), p);
    }
}

/// Filtering by less first changes nothing.
proof fn lemma_filter_twice(
    d: Seq<DynEntry>,
    q: spec_fn(DynEntry) -> bool,
    p: spec_fn(DynEntry) -> bool,
)
    requires
        forall|i: int| 0 <= i < d.len() && p(#[trigger] d[i]) ==> q(d[i]),
    ensures
        d.filter(q).filter(p) == d.filter(p),
    decreases d.len(),
{
    reveal(Seq::filter);
    if d.len() > 0 {
        let a = d.drop_last();
        assert forall|i: int| 0 <= i < a.len() && p(#[trigger] a[i]) implies q(a[i]) by {
            assert(a[i] == d[i]);
        }
        lemma_filter_twice(a, q, p);
        if q(d.last()) {
            assert(a.filter(q).push(d.last()).drop_last() =~= a.filter(q));
        }
    }
}

/// Removing the run path removes its entries and nothing else.
pub proof fn law_remove_keeps_the_rest(
    v: ImageView,
    r: ReportView,
    mods: ModifiersView,
    around: SurroundingsView,
    d: DynEntry,
)
    ensures
        applied(v, r, OperationView::RemoveRpath, mods, around) matches Ok((w, _)) && w == (
        ImageView { dynamic: w.dynamic, ..v }) && (w.dynamic.contains(d) <==> v.dynamic.contains(d)
            && d.tag != 15 && d.tag != 29),
{
    let q = not_run_path();
    if v.dynamic.filter(q).contains(d) {
        v.dynamic.lemma_filter_contains_rev(q, d);
        let i = choose|i: int| 0 <= i < v.dynamic.filter(q).len() && v.dynamic.filter(q)[i] == d;
        v.dynamic.lemma_filter_pred(q, i);
    }
    if v.dynamic.contains(d) && d.tag != 15 && d.tag != 29 {
        let i = choose|i: int| 0 <= i < v.dynamic.len() && v.dynamic[i] == d;
        v.dynamic.lemma_filter_contains(q, i);
    }
}

/// Switching the default directories off sets one flag among those that the file has, or
/// brings in an entry with this one; the entry for the debugger is brought in empty, where
/// there is none. No other entry changes.
pub proof fn law_flags_keep_the_rest(
    v: ImageView,
    r: ReportView,
    mods: ModifiersView,
    around: SurroundingsView,
)
    ensures
        applied(v, r, OperationView::NoDefaultLib, mods, around) matches Ok((w, _)) ==> {
            &&& only_entries(v, w, 0x6fff_fffb)
            &&& match first(v.dynamic, has_tag(0x6fff_fffb)) {
                Some(k) => w.dynamic == v.dynamic.update(
                    k,
                    DynEntry { tag: 0x6fff_fffb, val: v.dynamic[k].val | 0x800 },
                ),
                None => w.dynamic == seq![DynEntry { tag: 0x6fff_fffb, val: 0x800 }] + v.dynamic,
            }
        },
        applied(v, r, OperationView::AddDebugTag, mods, around) matches Ok((w, _)) ==> {
            &&& only_entries(v, w, 21)
            &&& if exists|k: int| 0 <= k < v.dynamic.len() && (#[trigger] v.dynamic[k]).tag == 21 {
                w == v
            } else {
                w.dynamic == seq![DynEntry { tag: 21, val: 0 }] + v.dynamic
            }
        },
{
    let p = other_tag(0x6fff_fffb);
    lemma_first_from(v.dynamic, has_tag(0x6fff_fffb), 0);
    lemma_first_from(v.dynamic, has_tag(21), 0);
    if let Ok((w, _)) = applied(v, r, OperationView::NoDefaultLib, mods, around) {
        match first(v.dynamic, has_tag(0x6fff_fffb)) {
            Some(k) => {
                assert(has_tag(0x6fff_fffb)(v.dynamic[k]));
                assert forall|i: int| 0 <= i < v.dynamic.len() implies p(#[trigger] v.dynamic[i])
                    == p(w.dynamic[i]) && (p(v.dynamic[i]) ==> v.dynamic[i] == w.dynamic[i]) by {}
                lemma_filter_alike(v.dynamic, w.dynamic, p);
            },
            None => {
                lemma_filter_front(w.dynamic[0], v.dynamic, p);
                assert(w.dynamic =~= seq![w.dynamic[0]] + v.dynamic);
            },
        }
    }
    if let Ok((w, _)) = applied(v, r, OperationView::AddDebugTag, mods, around) {
        if first(v.dynamic, has_tag(21)) is None {
            assert forall|k: int| 0 <= k < v.dynamic.len() implies (#[trigger] v.dynamic[k]).tag
                != 21 by {
                assert(!has_tag(21)(v.dynamic[k]));
            }
            lemma_filter_front(w.dynamic[0], v.dynamic, other_tag(21));
            assert(w.dynamic =~= seq![w.dynamic[0]] + v.dynamic);
        } else {
            let k = first(v.dynamic, has_tag(21))->Some_0;
            assert(has_tag(21)(v.dynamic[k]));
            assert(v.dynamic[k].tag == 21);
        }
    }
}

/// Setting or clearing the executable stack changes one flag of the stack segment. Where
/// there is no such segment one comes in, readable and writable, in place of an unused one or
/// behind the others. Gives its place.
pub proof fn law_execstack_keeps_the_rest(v: ImageView, set: bool) -> (k: int)
    ensures
        ({
            let w = execstack_set(v, set);
            let n = v.phdrs.len() as int;
            &&& w == (ImageView { phdrs: w.phdrs, ..v })
            &&& w.phdrs.len() == if k < n {
                n
            } else {
                n + 1
            }
            &&& 0 <= k <= n
            &&& forall|i: int| 0 <= i < n && i != k ==> #[trigger] w.phdrs[i] == v.phdrs[i]
            &&& w.phdrs[k].p_type == 0x6474_e551
            &&& k < n && v.phdrs[k].p_type == 0x6474_e551 ==> w.phdrs[k] == (Phdr {
                flags: if set {
                    v.phdrs[k].flags | 1
                } else {
                    v.phdrs[k].flags & !1u32
                },
                ..v.phdrs[k]
            })
            &&& !(k < n && v.phdrs[k].p_type == 0x6474_e551) ==> (w.phdrs[k].flags == if set {
                7u32
            } else {
                6
            }) && (k < n ==> v.phdrs[k].p_type == 0) && forall|i: int|
                0 <= i < n ==> (#[trigger] v.phdrs[i]).p_type != 0x6474_e551
            &&& k == n ==> forall|i: int| 0 <= i < n ==> (#[trigger] v.phdrs[i]).p_type != 0
        }),
{
    let p = segment_type(0x6474_e551);
    let q = segment_type(0);
    lemma_first_from(v.phdrs, p, 0);
    lemma_first_from(v.phdrs, q, 0);
    assert((4u32 | 2u32) | 1u32 == 7u32) by (bit_vector);
    assert((4u32 | 2u32) & !1u32 == 6u32) by (bit_vector);
    match first(v.phdrs, p) {
        Some(k) => {
            assert(p(v.phdrs[k]));
            k
        },
        None => {
            assert forall|i: int| 0 <= i < v.phdrs.len() implies (#[trigger] v.phdrs[i]).p_type
                != 0x6474_e551 by {
                assert(!p(v.phdrs[i]));
            }
            match first(v.phdrs, q) {
                Some(k) => {
                    assert(q(v.phdrs[k]));
                    k
                },
                None => {
                    assert forall|i: int| 0 <= i < v.phdrs.len() implies (
                    #[trigger] v.phdrs[i]).p_type != 0 by {
                        assert(!q(v.phdrs[i]));
                    }
                    v.phdrs.len() as int
                },
            }
        },
    }
}

/// Setting the interpreter replaces the contents of its section, by the path and a NUL, and
/// nothing else.
pub proof fn law_interpreter_keeps_the_rest(
    v: ImageView,
    r: ReportView,
    path: Seq<char>,
    mods: ModifiersView,
    around: SurroundingsView,
)
    ensures
        match v.find_section(".interp"@) {
            Some(k) => applied(v, r, OperationView::SetInterpreter(path), mods, around) matches Ok(
                (w, _),
            ) && w == (ImageView {
                sections: v.sections.update(k, encode_utf8(path) + seq![0u8]),
                ..v
            }),
            None => applied(v, r, OperationView::SetInterpreter(path), mods, around) is Err,
        },
{
    let e = Seq::<u8>::empty();
    assert(with_string(e, path) =~= encode_utf8(path) + seq![0u8]);
}

/// A string that is put over another leaves every byte of the table that is not of the other,
/// and no byte of it; one that is put behind the others leaves them all.
pub proof fn law_string_is_put(tab: Seq<u8>, at: Option<u64>, new: Seq<char>)
    requires
        tab.len() <= u64::MAX,
    ensures
        ({
            let (t, off) = string_put(tab, at, new);
            let b = encode_utf8(new);
            &&& off + b.len() <= t.len()
            &&& t.subrange(off as int, off + b.len()) == b
            &&& t.len() == tab.len() || (off == tab.len() && t == tab + b + seq![0u8])
            &&& t.len() == tab.len() ==> at == Some(off) && forall|i: int|
                0 <= i < tab.len() ==> #[trigger] t[i] == if off <= i < off + b.len() {
                    b[i - off]
                } else if off <= i && (forall|j: int| off <= j <= i ==> #[trigger] tab[j] != 0) {
                    0
                } else {
                    tab[i]
                }
        }),
{
    let (t, off) = string_put(tab, at, new);
    let b = encode_utf8(new);
    if slot_fits(tab, at, b.len() as int) {
        lemma_str_end(tab, off as int);
        let e = str_end(tab, off as int);
        assert(t.subrange(off as int, off + b.len()) =~= b);
        assert forall|i: int| 0 <= i < tab.len() implies #[trigger] t[i] == if off <= i < off
            + b.len() {
            b[i - off]
        } else if off <= i && (forall|j: int| off <= j <= i ==> #[trigger] tab[j] != 0) {
            0
        } else {
            tab[i]
        } by {
            if off + b.len() <= i && i >= e {
                assert(tab[e] == 0);
            }
        }
    } else {
        assert(t.subrange(off as int, off + b.len()) =~= b);
    }
}

} // verus!
