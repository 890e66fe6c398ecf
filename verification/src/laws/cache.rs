//! The library cache is found again, and building it again adds no second one.
use vstd::prelude::*;
use vstd::utf8::encode_utf8;

use crate::error::Outcome;
use crate::ir::{lemma_section_from, ImageView, Shdr};
use crate::laws::edits::{law_string_reads_back, lemma_text_grows, storable, terminated};
use crate::ldcache::note_added;
use crate::ops::with_string;

verus! {

/// Whether the names of the sections are strings of a table that ends in a NUL and
/// has room for one more.
pub open spec fn names_wf(v: ImageView) -> bool {
    &&& v.wf()
    &&& v.ehdr.shstrndx < v.sections.len()
    &&& terminated(v.sections[v.ehdr.shstrndx as int])
    &&& v.sections[v.ehdr.shstrndx as int].len() < 0x1_0000_0000
    &&& forall|i: int|
        0 <= i < v.shdrs.len() ==> (#[trigger] v.shdrs[i]).name
            < v.sections[v.ehdr.shstrndx as int].len()
}

proof fn lemma_name_storable()
    ensures
        storable(".note.nixos.ldcache"@),
{
    reveal_strlit(".note.nixos.ldcache");
    vstd::utf8::is_ascii_chars_encode_utf8(".note.nixos.ldcache"@);
}

/// Sections up to `k` without the name do not have it.
proof fn lemma_found_last(w: ImageView, name: Seq<char>, i: int, k: int)
    requires
        0 <= i <= k < w.shdrs.len(),
        w.section_name(k) == Some(name),
        forall|j: int| i <= j < k ==> #[trigger] w.section_name(j) != Some(name),
    ensures
        w.section_from(name, i) == Some(k),
    decreases k - i,
{
    if i < k {
        assert(w.section_name(i) != Some(name));
        lemma_found_last(w, name, i + 1, k);
    }
}

/// A note that was added is found under its name.
pub proof fn law_note_is_found(v: ImageView, note: Seq<u8>)
    requires
        names_wf(v),
        v.find_section(".note.nixos.ldcache"@) matches Some(k) ==> v.ehdr.shstrndx != k,
    ensures
        note_added(v, note) matches Ok(w) && (w.find_section(".note.nixos.ldcache"@) matches Some(k)
            && 0 <= k < w.sections.len() && w.sections[k] == note),
{
    let name = ".note.nixos.ldcache"@;
    let w = note_added(v, note)->Ok_0;
    let s = v.ehdr.shstrndx as int;
    lemma_section_from(v, name, 0);
    match v.find_section(name) {
        Some(k) => {
            assert(w.sections[s] == v.sections[s]);
            crate::ir::lemma_section_from_same(v, w, name, 0);
        },
        None => {
            let k = v.shdrs.len() as int;
            let names = v.sections[s];
            let more = encode_utf8(name) + seq![0u8];
            assert(with_string(names, name) =~= names + more);
            assert(w.sections[s] == with_string(names, name));
            assert forall|j: int| 0 <= j < k implies #[trigger] w.section_name(j) != Some(name) by {
                assert(w.shdrs[j] == v.shdrs[j]);
                assert(v.section_name(j) != Some(name));
                lemma_text_grows(names, more, v.shdrs[j].name as int);
            }
            lemma_name_storable();
            law_string_reads_back(names, None, name);
            assert(w.section_name(k) == Some(name));
            lemma_found_last(w, name, 0, k);
        },
    }
}

/// Where there is a note, it is refreshed: no section or segment comes in, only the
/// contents of the note change and its size is cleared, and a note that is up to
/// date leaves the whole image as it is.
pub proof fn law_note_is_refreshed(v: ImageView, note: Seq<u8>)
    requires
        v.wf(),
        v.find_section(".note.nixos.ldcache"@) is Some,
    ensures
        note_added(v, note) matches Ok(w) && {
            let k = v.find_section(".note.nixos.ldcache"@)->Some_0;
            &&& w.shdrs.len() == v.shdrs.len()
            &&& w.sections.len() == v.sections.len()
            &&& w == (ImageView { sections: w.sections, shdrs: w.shdrs, ..v })
            &&& w.sections[k] == note
            &&& forall|i: int| 0 <= i < v.sections.len() && i != k ==> #[trigger] w.sections[i]
                == v.sections[i]
            &&& forall|i: int| 0 <= i < v.shdrs.len() && i != k ==> #[trigger] w.shdrs[i]
                == v.shdrs[i]
            &&& if v.sections[k] == note {
                w == v
            } else {
                w.shdrs[k] == (Shdr { size: 0, ..v.shdrs[k] })
            }
        },
{
    lemma_section_from(v, ".note.nixos.ldcache"@, 0);
}

/// Adding the same note again changes nothing.
pub proof fn law_note_once(v: ImageView, note: Seq<u8>)
    requires
        names_wf(v),
        v.find_section(".note.nixos.ldcache"@) matches Some(k) ==> v.ehdr.shstrndx != k,
    ensures
        note_added(v, note) matches Ok(w) && note_added(w, note) == Outcome::<ImageView>::Ok(w),
{
    law_note_is_found(v, note);
}

/// Where there is no note, a section and a segment for it come in behind the others, to be
/// loaded and read, with the alignment of a note. Nothing else changes but that the name of
/// the section goes behind the other names.
pub proof fn law_note_is_new(v: ImageView, note: Seq<u8>)
    requires
        names_wf(v),
        v.find_section(".note.nixos.ldcache"@) is None,
    ensures
        note_added(v, note) matches Ok(w) && {
            let k = v.shdrs.len() as int;
            let p = v.phdrs.len() as int;
            let s = v.ehdr.shstrndx as int;
            &&& w == (ImageView { sections: w.sections, shdrs: w.shdrs, phdrs: w.phdrs, ..v })
            &&& w.shdrs.len() == k + 1 && w.sections.len() == k + 1 && w.phdrs.len() == p + 1
            &&& w.shdrs.take(k) == v.shdrs && w.phdrs.take(p) == v.phdrs
            &&& w.sections[k] == note
            &&& forall|i: int| 0 <= i < k && i != s ==> #[trigger] w.sections[i] == v.sections[i]
            &&& w.sections[s].len() > v.sections[s].len() && w.sections[s].take(
                v.sections[s].len() as int,
            ) == v.sections[s]
            &&& w.shdrs[k].sh_type == 7 && w.shdrs[k].flags == 2 && w.shdrs[k].addralign == 4
            &&& w.shdrs[k].name == v.sections[s].len() && w.shdrs[k].size == 0
            &&& w.phdrs[p].p_type == 4 && w.phdrs[p].flags == 4 && w.phdrs[p].align == 4
        },
{
    let w = note_added(v, note)->Ok_0;
    let s = v.ehdr.shstrndx as int;
    assert(w.shdrs.take(v.shdrs.len() as int) =~= v.shdrs);
    assert(w.phdrs.take(v.phdrs.len() as int) =~= v.phdrs);
    assert(w.sections[s].take(v.sections[s].len() as int) =~= v.sections[s]);
}

} // verus!
