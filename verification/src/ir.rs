//! Architecture-independent model of an ELF file: fields widened to 64 bits,
//! in native form. The class and byte order are recorded only so that the file
//! can be encoded again.
use vstd::prelude::*;

use crate::seqs::{first, first_from};
use crate::text::{same_text, text_of, utf8_text};

pub mod df1;
pub mod dt;
pub mod et;
pub mod pf;
pub mod pt;
pub mod shf;
pub mod sht;

verus! {

#[derive(Debug, Clone, Copy, PartialEq, Eq, Structural)]
pub enum Class {
    Elf32,
    Elf64,
}

#[derive(Debug, Clone, Copy, PartialEq, Eq, Structural)]
pub enum Endian {
    Little,
    Big,
}

#[derive(Debug, Clone, Copy, PartialEq, Eq, Structural)]
pub struct Encoding {
    pub class: Class,
    pub endian: Endian,
}

#[derive(Debug, Clone, Copy)]
pub struct Ehdr {
    pub e_type: u16,
    pub machine: u16,
    pub version: u32,
    pub entry: u64,
    pub phoff: u64,
    pub shoff: u64,
    pub flags: u32,
    pub ehsize: u16,
    pub phentsize: u16,
    pub shentsize: u16,
    /// Resolved index of the section-name string table; wide enough for a
    /// value taken from section 0's `sh_link`.
    pub shstrndx: u32,
    pub os_abi: u8,
    pub abi_version: u8,
    /// The first 16 bytes verbatim, with their padding and OS-specific bytes.
    pub ident: [u8; 16],
}

#[derive(Debug, Clone, Copy, PartialEq, Eq, Structural)]
pub struct Phdr {
    pub p_type: u32,
    pub flags: u32,
    pub offset: u64,
    pub vaddr: u64,
    pub paddr: u64,
    pub filesz: u64,
    pub memsz: u64,
    pub align: u64,
}

#[derive(Debug, Clone, Copy, PartialEq, Eq, Structural)]
pub struct Shdr {
    pub name: u32,
    pub sh_type: u32,
    pub flags: u64,
    pub addr: u64,
    pub offset: u64,
    pub size: u64,
    pub link: u32,
    pub info: u32,
    pub addralign: u64,
    pub entsize: u64,
}

#[derive(Debug, Clone, Copy, PartialEq, Eq, Structural)]
pub struct DynEntry {
    pub tag: i64,
    pub val: u64,
}

/// Section contents are owned separately so that operations can grow them
/// without regard to file offsets, which the layout engine assigns later.
#[derive(Debug, Clone)]
pub struct ElfImage {
    pub enc: Encoding,
    pub ehdr: Ehdr,
    pub phdrs: Vec<Phdr>,
    pub shdrs: Vec<Shdr>,
    /// Parallel to `shdrs`.
    pub section_data: Vec<Vec<u8>>,
    pub dynamic: Vec<DynEntry>,
    /// Dynamic string table recovered through the segments of a file without
    /// section headers. Only the read-only operations use it.
    pub dynstr_fallback: Option<Vec<u8>>,
    /// Interpreter path recovered from `PT_INTERP`, for the same purpose.
    pub interp_fallback: Option<Vec<u8>>,
}

/// An [`Ehdr`] with the identification bytes as a sequence.
#[verifier::ext_equal]
pub struct EhdrView {
    pub e_type: u16,
    pub machine: u16,
    pub version: u32,
    pub entry: u64,
    pub phoff: u64,
    pub shoff: u64,
    pub flags: u32,
    pub ehsize: u16,
    pub phentsize: u16,
    pub shentsize: u16,
    pub shstrndx: u32,
    pub os_abi: u8,
    pub abi_version: u8,
    pub ident: Seq<u8>,
}

impl View for Ehdr {
    type V = EhdrView;

    open spec fn view(&self) -> EhdrView {
        EhdrView {
            e_type: self.e_type,
            machine: self.machine,
            version: self.version,
            entry: self.entry,
            phoff: self.phoff,
            shoff: self.shoff,
            flags: self.flags,
            ehsize: self.ehsize,
            phentsize: self.phentsize,
            shentsize: self.shentsize,
            shstrndx: self.shstrndx,
            os_abi: self.os_abi,
            abi_version: self.abi_version,
            ident: self.ident@,
        }
    }
}

/// What an [`ElfImage`] holds, as a mathematical value.
#[verifier::ext_equal]
pub struct ImageView {
    pub enc: Encoding,
    pub ehdr: EhdrView,
    pub phdrs: Seq<Phdr>,
    pub shdrs: Seq<Shdr>,
    pub sections: Seq<Seq<u8>>,
    pub dynamic: Seq<DynEntry>,
    pub dynstr_fallback: Option<Seq<u8>>,
    pub interp_fallback: Option<Seq<u8>>,
}

/// The contents of a list of byte vectors.
pub open spec fn contents(v: Seq<Vec<u8>>) -> Seq<Seq<u8>> {
    Seq::new(v.len(), |i: int| v[i]@)
}

pub open spec fn contents_opt(v: Option<Vec<u8>>) -> Option<Seq<u8>> {
    match v {
        Some(b) => Some(b@),
        None => None,
    }
}

impl View for ElfImage {
    type V = ImageView;

    open spec fn view(&self) -> ImageView {
        ImageView {
            enc: self.enc,
            ehdr: self.ehdr@,
            phdrs: self.phdrs@,
            shdrs: self.shdrs@,
            sections: contents(self.section_data@),
            dynamic: self.dynamic@,
            dynstr_fallback: contents_opt(self.dynstr_fallback),
            interp_fallback: contents_opt(self.interp_fallback),
        }
    }
}

impl ImageView {
    /// Every section header has its contents.
    pub open spec fn wf(self) -> bool {
        self.shdrs.len() == self.sections.len()
    }
}

/// End of the NUL-terminated string that runs from `i`: the next NUL, or the
/// end of the table.
pub open spec fn str_end(tab: Seq<u8>, i: int) -> int
    decreases tab.len() - i,
{
    if i >= tab.len() || tab[i] == 0 {
        i
    } else {
        str_end(tab, i + 1)
    }
}

/// The bytes of the NUL-terminated string at `off`, which must not be past
/// the end of the table.
pub open spec fn c_bytes(tab: Seq<u8>, off: int) -> Option<Seq<u8>> {
    if 0 <= off <= tab.len() {
        Some(tab.subrange(off, str_end(tab, off)))
    } else {
        None
    }
}

/// The text of the NUL-terminated string at `off`.
pub open spec fn c_text(tab: Seq<u8>, off: int) -> Option<Seq<char>> {
    match c_bytes(tab, off) {
        Some(b) => utf8_text(b),
        None => None,
    }
}

pub proof fn lemma_str_end(tab: Seq<u8>, i: int)
    requires
        0 <= i <= tab.len(),
    ensures
        i <= str_end(tab, i) <= tab.len(),
        forall|j: int| i <= j < str_end(tab, i) ==> #[trigger] tab[j] != 0,
        str_end(tab, i) < tab.len() ==> tab[str_end(tab, i)] == 0,
    decreases tab.len() - i,
{
    if i < tab.len() && tab[i] != 0 {
        lemma_str_end(tab, i + 1);
    }
}

/// A string that holds no NUL and is followed by one, or by the end of the
/// table, ends there.
pub proof fn lemma_str_end_is(tab: Seq<u8>, i: int, e: int)
    requires
        0 <= i <= e <= tab.len(),
        forall|j: int| i <= j < e ==> #[trigger] tab[j] != 0,
        e < tab.len() ==> tab[e] == 0,
    ensures
        str_end(tab, i) == e,
    decreases e - i,
{
    if i < e {
        assert(tab[i] != 0);
        lemma_str_end_is(tab, i + 1, e);
    }
}

/// Position of the NUL that ends the string at `off`, or the table's length.
pub fn find_end(tab: &[u8], off: usize) -> (e: usize)
    requires
        off <= tab@.len(),
    ensures
        e == str_end(tab@, off as int),
        off <= e <= tab@.len(),
{
    let mut e: usize = off;
    while e < tab.len() && tab[e] != 0
        invariant
            off <= e <= tab@.len(),
            str_end(tab@, off as int) == str_end(tab@, e as int),
        decreases tab@.len() - e,
    {
        e += 1;
    }
    e
}

/// Read a NUL-terminated string starting at `off` in a string table.
pub fn cstr(tab: &[u8], off: u32) -> (res: Option<&str>)
    ensures
        res is Some <==> c_text(tab@, off as int) is Some,
        res matches Some(s) ==> s@ == c_text(tab@, off as int).unwrap(),
{
    let off = off as usize;
    if off > tab.len() {
        return None;
    }
    let e = find_end(tab, off);
    text_of(&tab[off..e])
}

/// Whether a dynamic entry has the tag `tag`.
pub open spec fn has_tag(tag: i64) -> spec_fn(DynEntry) -> bool {
    |d: DynEntry| d.tag == tag
}

/// Whether a section has the type `ty`.
pub open spec fn section_type(ty: u32) -> spec_fn(Shdr) -> bool {
    |s: Shdr| s.sh_type == ty
}

/// Whether a segment has the type `ty`.
pub open spec fn segment_type(ty: u32) -> spec_fn(Phdr) -> bool {
    |p: Phdr| p.p_type == ty
}

/// Position of the first dynamic entry with the tag `tag`.
pub fn find_tag(dynamic: &Vec<DynEntry>, tag: i64) -> (res: Option<usize>)
    ensures
        res matches Some(i) ==> i < dynamic@.len() && first(dynamic@, has_tag(tag)) == Some(
            i as int,
        ),
        res is None ==> first(dynamic@, has_tag(tag)) is None,
{
    let mut i: usize = 0;
    while i < dynamic.len()
        invariant
            i <= dynamic@.len(),
            first(dynamic@, has_tag(tag)) == first_from(dynamic@, has_tag(tag), i as int),
        decreases dynamic@.len() - i,
    {
        if dynamic[i].tag == tag {
            return Some(i);
        }
        i += 1;
    }
    None
}

/// Position of the first section of type `ty`.
pub fn find_section_type(shdrs: &Vec<Shdr>, ty: u32) -> (res: Option<usize>)
    ensures
        res matches Some(i) ==> i < shdrs@.len() && first(shdrs@, section_type(ty)) == Some(
            i as int,
        ),
        res is None ==> first(shdrs@, section_type(ty)) is None,
{
    let mut i: usize = 0;
    while i < shdrs.len()
        invariant
            i <= shdrs@.len(),
            first(shdrs@, section_type(ty)) == first_from(shdrs@, section_type(ty), i as int),
        decreases shdrs@.len() - i,
    {
        if shdrs[i].sh_type == ty {
            return Some(i);
        }
        i += 1;
    }
    None
}

/// Position of the first segment of type `ty`.
pub fn find_segment_type(phdrs: &Vec<Phdr>, ty: u32) -> (res: Option<usize>)
    ensures
        res matches Some(i) ==> i < phdrs@.len() && first(phdrs@, segment_type(ty)) == Some(
            i as int,
        ),
        res is None ==> first(phdrs@, segment_type(ty)) is None,
{
    let mut i: usize = 0;
    while i < phdrs.len()
        invariant
            i <= phdrs@.len(),
            first(phdrs@, segment_type(ty)) == first_from(phdrs@, segment_type(ty), i as int),
        decreases phdrs@.len() - i,
    {
        if phdrs[i].p_type == ty {
            return Some(i);
        }
        i += 1;
    }
    None
}

impl ImageView {
    /// Name of section `i`, when the section-name table holds one.
    pub open spec fn section_name(self, i: int) -> Option<Seq<char>> {
        if self.ehdr.shstrndx < self.sections.len() && 0 <= i < self.shdrs.len() {
            c_text(self.sections[self.ehdr.shstrndx as int], self.shdrs[i].name as int)
        } else {
            None
        }
    }

    /// First section at or after `i` that is named `name`.
    pub open spec fn section_from(self, name: Seq<char>, i: int) -> Option<int>
        decreases self.shdrs.len() - i,
    {
        if i < 0 || i >= self.shdrs.len() {
            None
        } else if self.section_name(i) == Some(name) {
            Some(i)
        } else {
            self.section_from(name, i + 1)
        }
    }

    /// First section that is named `name`.
    pub open spec fn find_section(self, name: Seq<char>) -> Option<int> {
        self.section_from(name, 0)
    }

    /// First section that holds the dynamic array.
    pub open spec fn dyn_idx(self) -> Option<int> {
        first(self.shdrs, section_type(sht::DYNAMIC))
    }

    /// The dynamic string table: the section that `.dynamic` links to, or the
    /// one recovered through the segments.
    pub open spec fn dynstr(self) -> Option<Seq<u8>> {
        match self.dyn_idx() {
            Some(k) => {
                let link = self.shdrs[k].link as int;
                if link < self.shdrs.len() && self.shdrs[link].sh_type == sht::STRTAB {
                    if link < self.sections.len() {
                        Some(self.sections[link])
                    } else {
                        None
                    }
                } else {
                    self.dynstr_fallback
                }
            },
            None => self.dynstr_fallback,
        }
    }
}

/// Section lookup finds the first section of that name, and finds one exactly
/// when there is one.
pub proof fn lemma_section_from(v: ImageView, name: Seq<char>, i: int)
    requires
        0 <= i,
    ensures
        v.section_from(name, i) matches Some(k) ==> {
            &&& i <= k < v.shdrs.len()
            &&& v.section_name(k) == Some(name)
            &&& forall|j: int| i <= j < k ==> #[trigger] v.section_name(j) != Some(name)
        },
        v.section_from(name, i) is None ==> forall|j: int|
            i <= j < v.shdrs.len() ==> #[trigger] v.section_name(j) != Some(name),
    decreases v.shdrs.len() - i,
{
    if i < v.shdrs.len() && v.section_name(i) != Some(name) {
        lemma_section_from(v, name, i + 1);
    }
}

/// Section lookup reads only the name table and the name fields.
pub proof fn lemma_section_from_same(v: ImageView, w: ImageView, name: Seq<char>, i: int)
    requires
        v.shdrs.len() == w.shdrs.len(),
        v.sections.len() == w.sections.len(),
        v.ehdr.shstrndx == w.ehdr.shstrndx,
        v.ehdr.shstrndx < v.sections.len() ==> v.sections[v.ehdr.shstrndx as int]
            == w.sections[v.ehdr.shstrndx as int],
        forall|j: int| 0 <= j < v.shdrs.len() ==> (#[trigger] v.shdrs[j]).name == w.shdrs[j].name,
    ensures
        v.section_from(name, i) == w.section_from(name, i),
    decreases v.shdrs.len() - i,
{
    if 0 <= i < v.shdrs.len() {
        assert(v.shdrs[i].name == w.shdrs[i].name);
        assert(v.section_name(i) == w.section_name(i));
        lemma_section_from_same(v, w, name, i + 1);
    }
}

impl ElfImage {
    /// Name of section `idx`.
    pub fn section_name(&self, idx: usize) -> (res: Option<&str>)
        ensures
            res is Some <==> self@.section_name(idx as int) is Some,
            res matches Some(s) ==> s@ == self@.section_name(idx as int).unwrap(),
    {
        if self.ehdr.shstrndx as usize >= self.section_data.len() || idx >= self.shdrs.len() {
            return None;
        }
        cstr(self.section_data[self.ehdr.shstrndx as usize].as_slice(), self.shdrs[idx].name)
    }

    /// Position of the first section named `name`.
    pub fn find_section(&self, name: &str) -> (res: Option<usize>)
        ensures
            res matches Some(i) ==> i < self.shdrs@.len() && self@.find_section(name@) == Some(
                i as int,
            ) && self@.section_name(i as int) == Some(name@),
            res is None ==> self@.find_section(name@) is None,
    {
        let mut i: usize = 0;
        while i < self.shdrs.len()
            invariant
                i <= self.shdrs@.len(),
                self@.find_section(name@) == self@.section_from(name@, i as int),
            decreases self.shdrs@.len() - i,
        {
            match self.section_name(i) {
                Some(s) => {
                    if same_text(s, name) {
                        return Some(i);
                    }
                },
                None => {},
            }
            i += 1;
        }
        None
    }

    /// Dynamic information is keyed off the parsed array, not a section header,
    /// so files without section headers count too.
    pub fn has_dynamic(&self) -> (b: bool)
        ensures
            b == (self@.dynamic.len() > 0),
    {
        !self.dynamic.is_empty()
    }

    /// Position of the section that holds the dynamic array.
    pub fn dyn_idx(&self) -> (res: Option<usize>)
        ensures
            res matches Some(i) ==> i < self.shdrs@.len() && self@.dyn_idx() == Some(i as int),
            res is None ==> self@.dyn_idx() is None,
    {
        find_section_type(&self.shdrs, sht::DYNAMIC)
    }

    /// Bytes of the dynamic string table: from the section that `.dynamic` links
    /// to when section headers exist, otherwise the recovered fallback.
    pub fn dynstr(&self) -> (res: Option<&[u8]>)
        ensures
            res is Some <==> self@.dynstr() is Some,
            res matches Some(b) ==> b@ == self@.dynstr().unwrap(),
    {
        match self.dyn_idx() {
            Some(k) => {
                let link = self.shdrs[k].link as usize;
                if link < self.shdrs.len() && self.shdrs[link].sh_type == sht::STRTAB {
                    if link < self.section_data.len() {
                        return Some(self.section_data[link].as_slice());
                    }
                    return None;
                }
            },
            None => {},
        }
        match &self.dynstr_fallback {
            Some(b) => Some(b.as_slice()),
            None => None,
        }
    }
}

} // verus!
