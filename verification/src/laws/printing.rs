//! What is printed of a file is what its bytes say.
use vstd::prelude::*;
use vstd::utf8::encode_utf8;

use crate::cli::OperationView;
use crate::codec::dyn_at;
use crate::error::Outcome;
use crate::ir::{
    c_text, dt, has_tag, lemma_section_from, lemma_str_end, lemma_str_end_is, section_type,
    segment_type, sht, str_end, DynEntry, Encoding, ImageView,
};
use crate::laws::edits::lemma_live;
use crate::laws::files::lemma_parsed;
use crate::laws::stripped::{law_address_in_file, loaded_from};
use crate::ops::{
    applied, entry_text, execstack_of, interpreter_of, live, needed_from, needed_of, soname_of,
    string_offset, ModifiersView, ReportView, SurroundingsView,
};
use crate::parser::{dyn_entries, parsed};
use crate::raw::{dyn_len, word_at};
use crate::rpath::{last_with, run_path};
use crate::seqs::{lemma_first_is, lemma_first_none};
use crate::text::lemma_utf8_text;

verus! {

/// Whether the string table has the text `t` at `off`: its bytes, none of them a NUL, and
/// then a NUL or the end of the table.
pub open spec fn string_at(tab: Seq<u8>, off: int, t: Seq<char>) -> bool {
    let b = encode_utf8(t);
    &&& 0 <= off
    &&& off + b.len() <= tab.len()
    &&& tab.subrange(off, off + b.len()) == b
    &&& forall|i: int| 0 <= i < b.len() ==> #[trigger] b[i] != 0
    &&& off + b.len() == tab.len() || tab[off + b.len()] == 0
}

/// The text that is read from a string table is the one that it has there.
pub proof fn law_string_is_read(tab: Seq<u8>, off: int, t: Seq<char>)
    ensures
        c_text(tab, off) == Some(t) <==> string_at(tab, off, t),
{
    let b = encode_utf8(t);
    if 0 <= off <= tab.len() {
        lemma_str_end(tab, off);
        let e = str_end(tab, off);
        lemma_utf8_text(tab.subrange(off, e), t);
        if c_text(tab, off) == Some(t) {
            assert(tab.subrange(off, e) == b);
            assert forall|i: int| 0 <= i < b.len() implies #[trigger] b[i] != 0 by {
                assert(b[i] == tab[off + i]);
            }
        }
        if string_at(tab, off, t) {
            assert forall|j: int| off <= j < off + b.len() implies #[trigger] tab[j] != 0 by {
                assert(b[j - off] == tab[j]);
            }
            lemma_str_end_is(tab, off, off + b.len());
        }
    }
}

/// A section is found by its name: the first to whose name the table of section names has
/// the text.
pub proof fn law_section_is_found(v: ImageView, name: Seq<char>, k: int)
    requires
        v.ehdr.shstrndx < v.sections.len(),
    ensures
        v.find_section(name) == Some(k) <==> {
            let tab = v.sections[v.ehdr.shstrndx as int];
            &&& 0 <= k < v.shdrs.len()
            &&& string_at(tab, v.shdrs[k].name as int, name)
            &&& forall|j: int|
                0 <= j < k ==> !string_at(tab, (#[trigger] v.shdrs[j]).name as int, name)
        },
{
    let tab = v.sections[v.ehdr.shstrndx as int];
    lemma_section_from(v, name, 0);
    assert forall|j: int| 0 <= j < v.shdrs.len() implies (#[trigger] v.section_name(j) == Some(name)
        <==> string_at(tab, v.shdrs[j].name as int, name)) by {
        law_string_is_read(tab, v.shdrs[j].name as int, name);
    }
    if let Some(m) = v.find_section(name) {
        assert(v.section_name(m) == Some(name));
        assert forall|j: int| 0 <= j < m implies !string_at(
            tab,
            (#[trigger] v.shdrs[j]).name as int,
            name,
        ) by {
            assert(v.section_name(j) != Some(name));
        }
    } else if 0 <= k < v.shdrs.len() {
        assert(v.section_name(k) != Some(name));
    }
}

/// Whether entry `i` comes before the one that ends the dynamic array.
pub open spec fn is_live(d: Seq<DynEntry>, i: int) -> bool {
    0 <= i < d.len() && forall|j: int| 0 <= j <= i ==> (#[trigger] d[j]).tag != 0
}

/// The libraries that a file needs are those that the entries for them name, in their
/// order, up to the end of the dynamic array. Gives the places of those entries.
pub proof fn law_needed_are_named(v: ImageView) -> (at: Seq<int>)
    requires
        v.dynamic.len() > 0,
        v.dynstr() is Some,
    ensures
        needed_of(v) matches Ok(names) && {
            let tab = v.dynstr()->Some_0;
            &&& at.len() == names.len()
            &&& forall|m: int|
                0 <= m < at.len() ==> is_live(v.dynamic, #[trigger] at[m]) && v.dynamic[at[m]].tag
                    == 1 && string_at(
                    tab,
                    v.dynamic[at[m]].val as int % 0x1_0000_0000,
                    names[m],
                )
            &&& forall|m: int, n: int| 0 <= m < n < at.len() ==> #[trigger] at[m] < #[trigger] at[n]
            &&& forall|i: int, t: Seq<char>|
                is_live(v.dynamic, i) && v.dynamic[i].tag == 1 && #[trigger] string_at(
                    tab,
                    v.dynamic[i].val as int % 0x1_0000_0000,
                    t,
                ) ==> at.contains(i)
        },
{
    let tab = v.dynstr()->Some_0;
    lemma_needed_places(tab, v.dynamic, 0)
}

proof fn lemma_needed_places(tab: Seq<u8>, d: Seq<DynEntry>, i: int) -> (at: Seq<int>)
    requires
        0 <= i,
        forall|j: int| 0 <= j < i && j < d.len() ==> (#[trigger] d[j]).tag != 0,
    ensures
        at.len() == needed_from(tab, d, i).len(),
        forall|m: int|
            0 <= m < at.len() ==> i <= #[trigger] at[m] && is_live(d, at[m]) && d[at[m]].tag == 1
                && string_at(
                tab,
                d[at[m]].val as int % 0x1_0000_0000,
                needed_from(tab, d, i)[m],
            ),
        forall|m: int, n: int| 0 <= m < n < at.len() ==> #[trigger] at[m] < #[trigger] at[n],
        forall|k: int, t: Seq<char>|
            i <= k && is_live(d, k) && d[k].tag == 1 && #[trigger] string_at(
                tab,
                d[k].val as int % 0x1_0000_0000,
                t,
            ) ==> at.contains(k),
    decreases d.len() - i,
{
    if i >= d.len() || d[i].tag == 0 {
        assert forall|k: int| i <= k implies !is_live(d, k) by {
            if is_live(d, k) {
                assert(d[i].tag != 0);
            }
        }
        Seq::empty()
    } else {
        let rest = lemma_needed_places(tab, d, i + 1);
        let off = string_offset(d[i]);
        let all = needed_from(tab, d, i);
        let tail = needed_from(tab, d, i + 1);
        if d[i].tag == 1 && entry_text(tab, d[i]) is Some {
            law_string_is_read(tab, off, entry_text(tab, d[i])->Some_0);
            let at = seq![i] + rest;
            assert(is_live(d, i));
            assert forall|m: int| 0 <= m < at.len() implies i <= #[trigger] at[m] && is_live(
                d,
                at[m],
            ) && d[at[m]].tag == 1 && string_at(
                tab,
                d[at[m]].val as int % 0x1_0000_0000,
                all[m],
            ) by {
                if m > 0 {
                    assert(at[m] == rest[m - 1]);
                    assert(all[m] == tail[m - 1]);
                }
            }
            assert forall|m: int, n: int| 0 <= m < n < at.len() implies #[trigger] at[m]
                < #[trigger] at[n] by {
                assert(at[n] == rest[n - 1]);
                if m > 0 {
                    assert(at[m] == rest[m - 1]);
                }
            }
            assert forall|k: int, t: Seq<char>|
                i <= k && is_live(d, k) && d[k].tag == 1 && #[trigger] string_at(
                    tab,
                    d[k].val as int % 0x1_0000_0000,
                    t,
                ) implies at.contains(k) by {
                if k == i {
                    assert(at[0] == k);
                } else {
                    assert(rest.contains(k));
                    let m = choose|m: int| 0 <= m < rest.len() && rest[m] == k;
                    assert(at[m + 1] == k);
                }
            }
            at
        } else {
            assert forall|k: int, t: Seq<char>|
                i <= k && is_live(d, k) && d[k].tag == 1 && #[trigger] string_at(
                    tab,
                    d[k].val as int % 0x1_0000_0000,
                    t,
                ) implies rest.contains(k) by {
                if k == i {
                    law_string_is_read(tab, off, t);
                }
            }
            rest
        }
    }
}

/// The run path is what the first entry for a run path says, and where there is none what
/// the last one of the obsolete kind says; without either it is empty.
pub proof fn law_run_path_is_named(v: ImageView, i: int, t: Seq<char>)
    requires
        v.dynstr() is Some,
        is_live(v.dynamic, i),
        string_at(v.dynstr()->Some_0, v.dynamic[i].val as int % 0x1_0000_0000, t),
        (v.dynamic[i].tag == 29 && forall|j: int|
            0 <= j < i ==> (#[trigger] v.dynamic[j]).tag != 29) || (v.dynamic[i].tag == 15
            && forall|j: int| #[trigger]
            is_live(v.dynamic, j) ==> v.dynamic[j].tag != 29 && (j > i ==> v.dynamic[j].tag != 15)),
    ensures
        run_path(v) == Outcome::<Seq<char>>::Ok(t),
{
    let d = v.dynamic;
    let l = live(d);
    let tab = v.dynstr()->Some_0;
    law_string_is_read(tab, string_offset(d[i]), t);
    lemma_live(d);
    lemma_live_to(d, i);
    let p = has_tag(dt::RUNPATH);
    if d[i].tag == 29 {
        assert forall|j: int| 0 <= j < i implies !p(#[trigger] l[j]) by {
            assert(l[j] == d[j]);
        }
        assert(p(l[i]));
        lemma_first_is(l, p, 0, i);
    } else {
        assert forall|j: int| 0 <= j < l.len() implies !p(#[trigger] l[j]) by {
            lemma_live_to(d, j);
            assert(l[j] == d[j]);
        }
        lemma_first_none(l, p, 0);
        assert forall|j: int| i < j < l.len() implies (#[trigger] l[j]).tag != 15 by {
            lemma_live_to(d, j);
            assert(l[j] == d[j]);
        }
        lemma_last_is(l, 15, i);
    }
}

/// What is before the end of the dynamic array.
proof fn lemma_live_to(d: Seq<DynEntry>, i: int)
    requires
        0 <= i < d.len(),
    ensures
        is_live(d, i) <==> i < live(d).len(),
        i < live(d).len() ==> live(d)[i] == d[i],
{
    lemma_live(d);
    if i < live(d).len() {
        assert forall|j: int| 0 <= j <= i implies (#[trigger] d[j]).tag != 0 by {
            assert(live(d)[j] == d[j]);
        }
    } else {
        assert(d[live(d).len() as int].tag == 0);
    }
}

proof fn lemma_last_is(d: Seq<DynEntry>, tag: i64, i: int)
    requires
        0 <= i < d.len(),
        d[i].tag == tag,
        forall|j: int| i < j < d.len() ==> (#[trigger] d[j]).tag != tag,
    ensures
        last_with(d, tag) == Some(d[i]),
    decreases d.len(),
{
    if i < d.len() - 1 {
        assert(d[d.len() - 1].tag != tag);
        assert forall|j: int| i < j < d.drop_last().len() implies (
        #[trigger] d.drop_last()[j]).tag != tag by {
            assert(d.drop_last()[j] == d[j]);
        }
        lemma_last_is(d.drop_last(), tag, i);
    }
}

/// Without an entry for one the run path is empty.
pub proof fn law_no_run_path(v: ImageView)
    requires
        v.dynamic.len() > 0,
        forall|j: int| #[trigger]
            is_live(v.dynamic, j) ==> v.dynamic[j].tag != 29 && v.dynamic[j].tag != 15,
    ensures
        run_path(v) == Outcome::<Seq<char>>::Ok(Seq::empty()),
{
    let l = live(v.dynamic);
    lemma_live(v.dynamic);
    assert forall|j: int| 0 <= j < l.len() implies !has_tag(dt::RUNPATH)(#[trigger] l[j]) && l[j].tag
        != 15 by {
        lemma_live_to(v.dynamic, j);
        assert(l[j] == v.dynamic[j]);
    }
    lemma_first_none(l, has_tag(dt::RUNPATH), 0);
    lemma_no_last(l, 15);
}

proof fn lemma_no_last(d: Seq<DynEntry>, tag: i64)
    requires
        forall|j: int| 0 <= j < d.len() ==> (#[trigger] d[j]).tag != tag,
    ensures
        last_with(d, tag) is None,
    decreases d.len(),
{
    if d.len() > 0 {
        assert(d[d.len() - 1].tag != tag);
        assert forall|j: int| 0 <= j < d.drop_last().len() implies (
        #[trigger] d.drop_last()[j]).tag != tag by {
            assert(d.drop_last()[j] == d[j]);
        }
        lemma_no_last(d.drop_last(), tag);
    }
}

/// The soname of a shared object is what the first entry for it says; any other file has
/// none.
pub proof fn law_soname_is_named(v: ImageView, i: int, t: Seq<char>)
    requires
        v.dynstr() is Some,
        0 <= i < v.dynamic.len(),
        v.dynamic[i].tag == 14,
        forall|j: int| 0 <= j < i ==> (#[trigger] v.dynamic[j]).tag != 14,
        string_at(v.dynstr()->Some_0, v.dynamic[i].val as int % 0x1_0000_0000, t),
        t.len() > 0,
    ensures
        soname_of(v) == if v.ehdr.e_type == 3 {
            Some(t)
        } else {
            None
        },
{
    let p = has_tag(dt::SONAME);
    law_string_is_read(v.dynstr()->Some_0, string_offset(v.dynamic[i]), t);
    assert forall|j: int| 0 <= j < i implies !p(#[trigger] v.dynamic[j]) by {}
    lemma_first_is(v.dynamic, p, 0, i);
}

/// The dynamic strings of a file with a section for its dynamic array are the contents of
/// the section of strings that it links to.
pub proof fn law_strings_are_linked(v: ImageView, k: int)
    requires
        v.wf(),
        0 <= k < v.shdrs.len(),
        v.shdrs[k].sh_type == 6,
        forall|j: int| 0 <= j < k ==> (#[trigger] v.shdrs[j]).sh_type != 6,
        v.shdrs[k].link < v.shdrs.len(),
        v.shdrs[v.shdrs[k].link as int].sh_type == 3,
    ensures
        v.dynstr() == Some(v.sections[v.shdrs[k].link as int]),
{
    let p = section_type(sht::DYNAMIC);
    assert forall|j: int| 0 <= j < k implies !p(#[trigger] v.shdrs[j]) by {}
    lemma_first_is(v.shdrs, p, 0, k);
}

/// The dynamic strings of a file without a section for its dynamic array are the bytes
/// of the file that are loaded to where the dynamic array says, as many as it says.
pub proof fn law_strings_are_loaded(data: Seq<u8>, t: int, z: int, at: u64)
    requires
        parsed(data) matches Ok(v) && {
            let size = v.dynamic[z].val;
            &&& forall|j: int| 0 <= j < v.shdrs.len() ==> (#[trigger] v.shdrs[j]).sh_type != 6
            &&& 0 <= t < v.dynamic.len()
            &&& v.dynamic[t].tag == 5
            &&& forall|j: int| 0 <= j < t ==> (#[trigger] v.dynamic[j]).tag != 5
            &&& 0 <= z < v.dynamic.len()
            &&& v.dynamic[z].tag == 10
            &&& forall|j: int| 0 <= j < z ==> (#[trigger] v.dynamic[j]).tag != 10
            &&& loaded_from(v.phdrs, v.dynamic[t].val, at)
            &&& at + size <= data.len() <= usize::MAX
        },
    ensures
        parsed(data)->Ok_0.dynstr() == Some(
            data.subrange(at as int, at + parsed(data)->Ok_0.dynamic[z].val),
        ),
{
    let v = parsed(data)->Ok_0;
    lemma_parsed(data);
    let p = section_type(sht::DYNAMIC);
    assert forall|j: int| 0 <= j < v.shdrs.len() implies !p(#[trigger] v.shdrs[j]) by {}
    lemma_first_none(v.shdrs, p, 0);
    let a = has_tag(dt::STRTAB);
    assert forall|j: int| 0 <= j < t implies !a(#[trigger] v.dynamic[j]) by {}
    lemma_first_is(v.dynamic, a, 0, t);
    let b = has_tag(dt::STRSZ);
    assert forall|j: int| 0 <= j < z implies !b(#[trigger] v.dynamic[j]) by {}
    lemma_first_is(v.dynamic, b, 0, z);
    law_address_in_file(v.phdrs, v.dynamic[t].val, at);
}

/// The interpreter is what the section for it says, or, where there is none, what the
/// bytes of the first segment for it say.
pub proof fn law_interpreter_is_named(data: Seq<u8>, k: int, t: Seq<char>)
    requires
        parsed(data) matches Ok(v) && match v.find_section(".interp"@) {
            Some(i) => string_at(v.sections[i], 0, t),
            None => {
                let p = v.phdrs[k];
                &&& 0 <= k < v.phdrs.len()
                &&& p.p_type == 3
                &&& forall|j: int| 0 <= j < k ==> (#[trigger] v.phdrs[j]).p_type != 3
                &&& p.offset + p.filesz <= data.len() <= usize::MAX
                &&& string_at(data.subrange(p.offset as int, p.offset + p.filesz), 0, t)
            },
        },
    ensures
        interpreter_of(parsed(data)->Ok_0) == Outcome::<Seq<char>>::Ok(t),
{
    let v = parsed(data)->Ok_0;
    lemma_parsed(data);
    match v.find_section(".interp"@) {
        Some(i) => law_string_is_read(v.sections[i], 0, t),
        None => {
            let p = segment_type(crate::ir::pt::INTERP);
            assert forall|j: int| 0 <= j < k implies !p(#[trigger] v.phdrs[j]) by {}
            lemma_first_is(v.phdrs, p, 0, k);
            law_string_is_read(
                data.subrange(v.phdrs[k].offset as int, v.phdrs[k].offset + v.phdrs[k].filesz),
                0,
                t,
            );
        },
    }
}

/// The whole entries of a dynamic array are read one after the other, up to the first that
/// ends it.
pub proof fn law_entries_are_read(enc: Encoding, b: Seq<u8>, k: int)
    requires
        0 <= k,
        (k + 1) * dyn_len(enc.class) <= b.len(),
        forall|j: int|
            0 <= j < k ==> dyn_at(
                enc.class,
                enc.endian,
                #[trigger] b.skip(j * dyn_len(enc.class)).take(dyn_len(enc.class)),
            ).tag != 0,
    ensures
        k < dyn_entries(enc, b).len(),
        dyn_entries(enc, b)[k].val == word_at(
            enc.class,
            enc.endian,
            b,
            k * dyn_len(enc.class) + dyn_len(enc.class) / 2,
        ),
        dyn_entries(enc, b)[k] == dyn_at(
            enc.class,
            enc.endian,
            b.skip(k * dyn_len(enc.class)).take(dyn_len(enc.class)),
        ),
    decreases k,
{
    let n = dyn_len(enc.class);
    assert((k + 1) * n == k * n + n) by (nonlinear_arith);
    assert(0 <= k * n) by (nonlinear_arith)
        requires
            0 <= k,
            0 <= n,
    ;
    let one = b.skip(k * n).take(n);
    if k == 0 {
        assert(0 * n == 0);
        assert(b.skip(0) =~= b);
    } else {
        let rest = b.skip(n);
        assert(b.skip(0 * n) =~= b);
        assert(dyn_at(enc.class, enc.endian, b.skip(0 * n).take(n)).tag != 0);
        assert(0 * n == 0);
        assert(k * n == (k - 1) * n + n) by (nonlinear_arith);
        assert((k - 1 + 1) * n == k * n);
        assert forall|j: int| 0 <= j < k - 1 implies dyn_at(
            enc.class,
            enc.endian,
            #[trigger] rest.skip(j * n).take(n),
        ).tag != 0 by {
            assert((j + 1) * n == j * n + n) by (nonlinear_arith);
            assert(0 <= j * n) by (nonlinear_arith)
                requires
                    0 <= j,
                    0 <= n,
            ;
            assert((j + 1) * n <= k * n) by (nonlinear_arith)
                requires
                    j + 1 <= k,
                    0 <= n,
            ;
            assert(rest.skip(j * n) =~= b.skip((j + 1) * n));
            assert(dyn_at(enc.class, enc.endian, b.skip((j + 1) * n).take(n)).tag != 0);
        }
        law_entries_are_read(enc, rest, k - 1);
        assert(rest.skip((k - 1) * n) =~= b.skip(k * n));
        assert(dyn_entries(enc, b)[k] == dyn_entries(enc, rest)[k - 1]);
    }
    lemma_value_at(enc, b, k * n);
}

/// The value of a dynamic entry is its second half.
proof fn lemma_value_at(enc: Encoding, b: Seq<u8>, o: int)
    requires
        0 <= o,
        o + dyn_len(enc.class) <= b.len(),
    ensures
        dyn_at(enc.class, enc.endian, b.skip(o).take(dyn_len(enc.class))).val == word_at(
            enc.class,
            enc.endian,
            b,
            o + dyn_len(enc.class) / 2,
        ),
{
    reveal(dyn_at);
    reveal(crate::bytes::u64_at);
    reveal(crate::bytes::u32_at);
    let n = dyn_len(enc.class);
    let one = b.skip(o).take(n);
    assert forall|i: int| 0 <= i < n implies #[trigger] one[i] == b[o + i] by {}
}

/// What is printed of a file is added to what was printed before, and the file stays as
/// it is.
pub proof fn law_printed(
    v: ImageView,
    r: ReportView,
    mods: ModifiersView,
    around: SurroundingsView,
)
    ensures
        needed_of(v) matches Ok(names) ==> (applied(
            v,
            r,
            OperationView::PrintNeeded,
            mods,
            around,
        ) matches Ok((w, s)) && w == v && s.lines == r.lines + names && s.warnings == r.warnings),
        run_path(v) matches Ok(t) ==> (applied(
            v,
            r,
            OperationView::PrintRpath,
            mods,
            around,
        ) matches Ok((w, s)) && w == v && s.lines == r.lines + seq![t] && s.warnings == r.warnings),
        interpreter_of(v) matches Ok(t) ==> (applied(
            v,
            r,
            OperationView::PrintInterpreter,
            mods,
            around,
        ) matches Ok((w, s)) && w == v && s.lines == r.lines + seq![t] && s.warnings == r.warnings),
        applied(v, r, OperationView::PrintSoname, mods, around) matches Ok((w, s)) && w == v
            && s.lines == r.lines + (match soname_of(v) {
            Some(t) => seq![t],
            None => Seq::empty(),
        }) && s.warnings == r.warnings,
{
    assert(r.lines + Seq::<Seq<char>>::empty() =~= r.lines);
    if let Ok(t) = run_path(v) {
        assert(r.lines.push(t) =~= r.lines + seq![t]);
    }
    if let Ok(t) = interpreter_of(v) {
        assert(r.lines.push(t) =~= r.lines + seq![t]);
    }
    if let Some(t) = soname_of(v) {
        assert(r.lines.push(t) =~= r.lines + seq![t]);
    }
}

/// Whether the stack is executable is what the first segment for it says.
pub proof fn law_execstack_is_told(v: ImageView, k: int)
    requires
        0 <= k < v.phdrs.len(),
        v.phdrs[k].p_type == 0x6474_e551,
        forall|j: int| 0 <= j < k ==> (#[trigger] v.phdrs[j]).p_type != 0x6474_e551,
    ensures
        execstack_of(v) == if v.phdrs[k].flags & 1 != 0 {
            'X'
        } else {
            '-'
        },
{
    let p = segment_type(crate::ir::pt::GNU_STACK);
    assert forall|j: int| 0 <= j < k implies !p(#[trigger] v.phdrs[j]) by {}
    lemma_first_is(v.phdrs, p, 0, k);
}

} // verus!
