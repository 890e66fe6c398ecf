//! A file whose section headers were stripped still says what it said.
use vstd::prelude::*;

use crate::codec::{ehdr_at, PN_XNUM};
use crate::error::Outcome;
use crate::ir::{
    dt, has_tag, lemma_section_from, pt, section_type, segment_type, sht, DynEntry, EhdrView,
    Encoding, ImageView, Phdr, Shdr,
};
use crate::laws::files::{lemma_sections_read, section_read};
use crate::ops::{interpreter_of, needed_of, soname_of};
use crate::parser::{
    bytes_at, dynamic_of, dynstr_of, file_offset, interp_of, loads, parsed, phdr_table,
    section_bytes, shdr_table,
};
use crate::raw::{dyn_len, header_len, phdr_len};
use crate::rpath::run_path;
use crate::seqs::{first, lemma_first_from, lemma_first_none};

verus! {

/// Whether `bare` is `data` with the fields of the file header cleared that tell
/// of section headers.
pub open spec fn is_stripped(data: Seq<u8>, bare: Seq<u8>) -> bool {
    match (ehdr_at(data), ehdr_at(bare)) {
        (Ok((h, enc, phnum, _)), Ok((b, bare_enc, bare_phnum, bare_shnum))) => {
            &&& b == EhdrView { shoff: 0, shstrndx: 0, ..h }
            &&& bare_enc == enc
            &&& bare_phnum == phnum
            &&& bare_shnum == 0
            &&& bare.len() == data.len()
            &&& bare.skip(header_len(enc.class)) == data.skip(header_len(enc.class))
        },
        _ => false,
    }
}

/// Whether segment `p` is loaded and what it takes from the file reaches over the
/// address `x`.
pub open spec fn reaches(p: Phdr, x: u64) -> bool {
    p.p_type == 1 && p.vaddr <= x && x < p.vaddr + p.filesz
}

/// Whether the byte at the file offset `at` is loaded to the address `x`: by one segment,
/// and by every other that reaches over the address.
pub open spec fn loaded_from(phdrs: Seq<Phdr>, x: u64, at: u64) -> bool {
    &&& exists|k: int| 0 <= k < phdrs.len() && reaches(#[trigger] phdrs[k], x)
    &&& forall|k: int|
        0 <= k < phdrs.len() && reaches(#[trigger] phdrs[k], x) ==> at - phdrs[k].offset == x
            - phdrs[k].vaddr
}

/// The byte that is loaded to an address is found where it is in the file.
pub proof fn law_address_in_file(phdrs: Seq<Phdr>, x: u64, at: u64)
    requires
        loaded_from(phdrs, x, at),
    ensures
        file_offset(phdrs, x) == Some(at as int),
{
    lemma_first_from(phdrs, loads(x), 0);
    let k = choose|k: int| 0 <= k < phdrs.len() && reaches(#[trigger] phdrs[k], x);
    assert(loads(x)(phdrs[k]));
    if let Some(j) = first(phdrs, loads(x)) {
        assert(loads(x)(phdrs[j]));
        assert(reaches(phdrs[j], x));
    }
}

/// Whether the segments of a file tell the same as its sections: where the dynamic
/// array is, and its strings. They, and the program headers, are behind the file
/// header.
pub open spec fn segments_agree(v: ImageView) -> bool {
    let behind = header_len(v.enc.class);
    &&& v.ehdr.phoff >= behind
    &&& match (v.dyn_idx(), first(v.phdrs, segment_type(pt::DYNAMIC))) {
        (Some(k), Some(p)) => {
            let d = v.shdrs[k];
            &&& d.offset >= behind
            &&& v.phdrs[p].offset == d.offset
            &&& v.phdrs[p].filesz == d.size
            &&& d.link < v.shdrs.len()
            &&& v.shdrs[d.link as int].sh_type == sht::STRTAB
            &&& v.shdrs[d.link as int].offset >= behind
            &&& match (
                first(v.dynamic, has_tag(dt::STRTAB)),
                first(v.dynamic, has_tag(dt::STRSZ)),
            ) {
                (Some(t), Some(z)) => {
                    &&& loaded_from(v.phdrs, v.dynamic[t].val, v.shdrs[d.link as int].offset)
                    &&& v.dynamic[z].val == v.shdrs[d.link as int].size
                },
                _ => false,
            }
        },
        _ => false,
    }
}

/// Whether the segments of a file tell the same as its sections of the interpreter,
/// and it is behind the file header.
pub open spec fn interpreter_agrees(v: ImageView) -> bool {
    let behind = header_len(v.enc.class);
    match (v.find_section(".interp"@), first(v.phdrs, segment_type(pt::INTERP))) {
        (Some(i), Some(p)) => {
            &&& v.shdrs[i].sh_type != sht::NOBITS
            &&& v.shdrs[i].offset >= behind
            &&& v.phdrs[p].offset == v.shdrs[i].offset
            &&& v.phdrs[p].filesz == v.shdrs[i].size
        },
        (None, Some(p)) => v.phdrs[p].offset >= behind,
        (Some(_), None) => false,
        (None, None) => true,
    }
}

/// Bytes behind the file header are the same in both files.
proof fn lemma_bytes_same(
    data: Seq<u8>,
    bare: Seq<u8>,
    behind: int,
    off: int,
    len: int,
    what: Seq<char>,
)
    requires
        0 <= behind <= off,
        0 <= len,
        bare.len() == data.len(),
        behind <= data.len(),
        bare.skip(behind) == data.skip(behind),
    ensures
        bytes_at(bare, off, len, what) == bytes_at(data, off, len, what),
{
    if off + len <= data.len() {
        assert forall|i: int| off <= i < off + len implies bare[i] == data[i] by {
            assert(bare.skip(behind)[i - behind] == data.skip(behind)[i - behind]);
        }
        assert(bare.subrange(off, off + len) =~= data.subrange(off, off + len));
    }
}

/// A table of program headers behind the file header is the same in both files.
proof fn lemma_table_same(data: Seq<u8>, bare: Seq<u8>, enc: Encoding, off: int, n: int)
    requires
        header_len(enc.class) <= off,
        header_len(enc.class) <= data.len(),
        bare.len() == data.len(),
        bare.skip(header_len(enc.class)) == data.skip(header_len(enc.class)),
    ensures
        phdr_table(bare, enc, off, n) == phdr_table(data, enc, off, n),
    decreases n,
{
    if n > 0 {
        let size = phdr_len(enc.class);
        assert(0 <= (n - 1) * size) by (nonlinear_arith)
            requires
                n >= 1,
                size >= 0,
        ;
        lemma_table_same(data, bare, enc, off, n - 1);
        lemma_bytes_same(
            data,
            bare,
            header_len(enc.class),
            off + (n - 1) * size,
            size,
            "phdr"@,
        );
    }
}

/// A file whose section headers were stripped can be read, and says what it said
/// with them: the run path, the libraries that are needed, the soname and the
/// interpreter. They are found through the segments then. A count of program
/// headers that only section 0 holds is lost with it.
pub proof fn law_stripped_says_the_same(data: Seq<u8>, bare: Seq<u8>)
    requires
        is_stripped(data, bare),
        parsed(data) matches Ok(v) && segments_agree(v),
        ehdr_at(data)->Ok_0.2 != PN_XNUM,
    ensures
        parsed(bare) matches Ok(x) && {
            let v = parsed(data)->Ok_0;
            &&& x.shdrs.len() == 0
            &&& x.sections.len() == 0
            &&& x.dynamic == v.dynamic
            &&& run_path(x) == run_path(v)
            &&& needed_of(x) == needed_of(v)
            &&& soname_of(x) == soname_of(v)
            &&& interpreter_agrees(v) ==> interpreter_of(x) == interpreter_of(v)
        },
{
    let v = parsed(data)->Ok_0;
    let enc = v.enc;
    let behind = header_len(enc.class);
    let (h, _, phnum, _) = ehdr_at(data)->Ok_0;
    lemma_table_same(data, bare, enc, h.phoff as int, phnum as int);
    assert(phdr_table(bare, enc, h.phoff as int, phnum as int) == Outcome::<Seq<Phdr>>::Ok(
        v.phdrs,
    ));
    let none = Seq::<Shdr>::empty();
    assert(shdr_table(bare, enc, 0, 0) == Outcome::<Seq<Shdr>>::Ok(none));
    assert(section_bytes(bare, none, 0) == Outcome::<Seq<Seq<u8>>>::Ok(Seq::empty()));
    lemma_first_none(none, section_type(sht::DYNAMIC), 0);
    lemma_sections_read(data, v.shdrs, v.shdrs.len() as int);
    lemma_first_from(v.shdrs, section_type(sht::DYNAMIC), 0);
    lemma_first_from(v.phdrs, segment_type(pt::DYNAMIC), 0);
    let d = v.shdrs[v.dyn_idx()->Some_0];
    let whole = d.size as int - d.size as int % dyn_len(enc.class);
    lemma_bytes_same(data, bare, behind, d.offset as int, whole, "dynamic"@);
    assert(dynamic_of(bare, enc, none, v.phdrs) == Outcome::<Seq<DynEntry>>::Ok(v.dynamic));
    let s = v.shdrs[d.link as int];
    let tab = v.sections[d.link as int];
    assert(section_read(data, s, tab));
    lemma_bytes_same(data, bare, behind, s.offset as int, s.size as int, "dynstr"@);
    let t = first(v.dynamic, has_tag(dt::STRTAB))->Some_0;
    law_address_in_file(v.phdrs, v.dynamic[t].val, s.offset);
    assert(dynstr_of(bare, v.phdrs, none, v.dynamic) == Some(tab));
    assert(v.dynstr() == Some(tab));
    let x = parsed(bare)->Ok_0;
    assert(x.dynstr() == Some(tab));
    assert(x.find_section(".interp"@) is None);
    if interpreter_agrees(v) {
        lemma_interpreter_same(data, bare);
    }
}

/// The interpreter is found through its segment.
proof fn lemma_interpreter_same(data: Seq<u8>, bare: Seq<u8>)
    requires
        is_stripped(data, bare),
        parsed(data) matches Ok(v) && interpreter_agrees(v),
        parsed(bare) matches Ok(x) && x.shdrs.len() == 0 && x.phdrs == parsed(data)->Ok_0.phdrs,
    ensures
        interpreter_of(parsed(bare)->Ok_0) == interpreter_of(parsed(data)->Ok_0),
{
    let v = parsed(data)->Ok_0;
    let behind = header_len(v.enc.class);
    lemma_sections_read(data, v.shdrs, v.shdrs.len() as int);
    lemma_first_from(v.phdrs, segment_type(pt::INTERP), 0);
    lemma_section_from(v, ".interp"@, 0);
    if let Some(p) = first(v.phdrs, segment_type(pt::INTERP)) {
        let q = v.phdrs[p];
        lemma_bytes_same(data, bare, behind, q.offset as int, q.filesz as int, "interp"@);
    }
    assert(interp_of(bare, v.phdrs) == interp_of(data, v.phdrs));
    if let Some(i) = v.find_section(".interp"@) {
        assert(section_read(data, v.shdrs[i], v.sections[i]));
    }
}

} // verus!
