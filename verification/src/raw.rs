//! The on-disk records of an ELF file, read and written through the `object`
//! crate. Each record is stated as the fields that stand at its offsets.
use object::elf;
use object::{Endianness, U16, U32, U64};
use vstd::prelude::*;

use crate::bytes::{u16_at, u16_bytes, u32_at, u32_bytes, u64_at, u64_bytes};
use crate::ir::{Class, Endian, Phdr, Shdr};
use crate::seqs::zeros;

verus! {

/// `object::Endianness`, the byte order that `object` is told at run time.
#[verifier::external_type_specification]
pub struct ExEndianness(Endianness);

/// The byte order that an `object::Endianness` stands for.
pub open spec fn order(e: Endianness) -> Endian {
    match e {
        Endianness::Little => Endian::Little,
        Endianness::Big => Endian::Big,
    }
}

/// A file header without its identification bytes.
#[derive(Debug, Clone, Copy, PartialEq, Eq, Structural)]
pub struct FileHeader {
    pub e_type: u16,
    pub e_machine: u16,
    pub e_version: u32,
    pub e_entry: u64,
    pub e_phoff: u64,
    pub e_shoff: u64,
    pub e_flags: u32,
    pub e_ehsize: u16,
    pub e_phentsize: u16,
    pub e_phnum: u16,
    pub e_shentsize: u16,
    pub e_shnum: u16,
    pub e_shstrndx: u16,
}

/// Width of an address, offset or size field.
pub open spec fn word(class: Class) -> int {
    match class {
        Class::Elf64 => 8,
        Class::Elf32 => 4,
    }
}

/// The address, offset or size field at `o`.
pub open spec fn word_at(class: Class, e: Endian, s: Seq<u8>, o: int) -> u64 {
    match class {
        Class::Elf64 => u64_at(e, s, o),
        Class::Elf32 => u32_at(e, s, o) as u64,
    }
}

/// `v` as an address, offset or size field that can hold it.
pub open spec fn word_bytes(class: Class, e: Endian, v: u64) -> Seq<u8> {
    match class {
        Class::Elf64 => u64_bytes(e, v),
        Class::Elf32 => u32_bytes(e, v as u32),
    }
}

/// Whether an address, offset or size field can hold `v`.
pub open spec fn word_fits(class: Class, v: u64) -> bool {
    class is Elf64 || v <= u32::MAX
}

/// Length of a file header.
pub open spec fn header_len(class: Class) -> int {
    40 + 3 * word(class)
}

/// Length of a program header.
pub open spec fn phdr_len(class: Class) -> int {
    8 + 6 * word(class)
}

/// Length of a section header.
pub open spec fn shdr_len(class: Class) -> int {
    16 + 6 * word(class)
}

/// Length of a dynamic entry.
pub open spec fn dyn_len(class: Class) -> int {
    2 * word(class)
}

/// The file header at the start of `s`.
#[verifier::opaque]
pub open spec fn header_at(class: Class, e: Endian, s: Seq<u8>) -> FileHeader {
    let w = word(class);
    FileHeader {
        e_type: u16_at(e, s, 16),
        e_machine: u16_at(e, s, 18),
        e_version: u32_at(e, s, 20),
        e_entry: word_at(class, e, s, 24),
        e_phoff: word_at(class, e, s, 24 + w),
        e_shoff: word_at(class, e, s, 24 + 2 * w),
        e_flags: u32_at(e, s, 24 + 3 * w),
        e_ehsize: u16_at(e, s, 28 + 3 * w),
        e_phentsize: u16_at(e, s, 30 + 3 * w),
        e_phnum: u16_at(e, s, 32 + 3 * w),
        e_shentsize: u16_at(e, s, 34 + 3 * w),
        e_shnum: u16_at(e, s, 36 + 3 * w),
        e_shstrndx: u16_at(e, s, 38 + 3 * w),
    }
}

/// The fields of a file header, which stand behind its identification bytes.
#[verifier::opaque]
pub open spec fn header_fields(class: Class, e: Endian, h: FileHeader) -> Seq<u8> {
    u16_bytes(e, h.e_type) + u16_bytes(e, h.e_machine) + u32_bytes(e, h.e_version)
        + word_bytes(class, e, h.e_entry) + word_bytes(class, e, h.e_phoff) + word_bytes(
        class,
        e,
        h.e_shoff,
    ) + u32_bytes(e, h.e_flags) + u16_bytes(e, h.e_ehsize) + u16_bytes(e, h.e_phentsize)
        + u16_bytes(e, h.e_phnum) + u16_bytes(e, h.e_shentsize) + u16_bytes(e, h.e_shnum)
        + u16_bytes(e, h.e_shstrndx)
}

/// A file header behind the identification bytes `ident`.
pub open spec fn header_bytes(class: Class, e: Endian, ident: Seq<u8>, h: FileHeader) -> Seq<u8> {
    ident + header_fields(class, e, h)
}

/// Whether the fields of `h` have room in a header of this class.
pub open spec fn header_fits(class: Class, h: FileHeader) -> bool {
    word_fits(class, h.e_entry) && word_fits(class, h.e_phoff) && word_fits(class, h.e_shoff)
}

/// The program header at the start of `s`. The two classes put `p_flags` in
/// different places.
#[verifier::opaque]
pub open spec fn phdr_at(class: Class, e: Endian, s: Seq<u8>) -> Phdr {
    let w = word(class);
    let o: int = match class {
        Class::Elf64 => 8,
        Class::Elf32 => 4,
    };
    Phdr {
        p_type: u32_at(e, s, 0),
        flags: u32_at(
            e,
            s,
            match class {
                Class::Elf64 => 4,
                Class::Elf32 => 24,
            },
        ),
        offset: word_at(class, e, s, o),
        vaddr: word_at(class, e, s, o + w),
        paddr: word_at(class, e, s, o + 2 * w),
        filesz: word_at(class, e, s, o + 3 * w),
        memsz: word_at(class, e, s, o + 4 * w),
        align: word_at(
            class,
            e,
            s,
            match class {
                Class::Elf64 => 48,
                Class::Elf32 => 28,
            },
        ),
    }
}

/// `p` as a program header.
#[verifier::opaque]
pub open spec fn phdr_bytes(class: Class, e: Endian, p: Phdr) -> Seq<u8> {
    match class {
        Class::Elf64 => u32_bytes(e, p.p_type) + u32_bytes(e, p.flags) + u64_bytes(e, p.offset)
            + u64_bytes(e, p.vaddr) + u64_bytes(e, p.paddr) + u64_bytes(e, p.filesz) + u64_bytes(
            e,
            p.memsz,
        ) + u64_bytes(e, p.align),
        Class::Elf32 => u32_bytes(e, p.p_type) + u32_bytes(e, p.offset as u32) + u32_bytes(
            e,
            p.vaddr as u32,
        ) + u32_bytes(e, p.paddr as u32) + u32_bytes(e, p.filesz as u32) + u32_bytes(
            e,
            p.memsz as u32,
        ) + u32_bytes(e, p.flags) + u32_bytes(e, p.align as u32),
    }
}

/// Whether the fields of `p` have room in a program header of this class.
pub open spec fn phdr_fits(class: Class, p: Phdr) -> bool {
    word_fits(class, p.offset) && word_fits(class, p.vaddr) && word_fits(class, p.paddr)
        && word_fits(class, p.filesz) && word_fits(class, p.memsz) && word_fits(class, p.align)
}

/// The section header at the start of `s`.
#[verifier::opaque]
pub open spec fn shdr_at(class: Class, e: Endian, s: Seq<u8>) -> Shdr {
    let w = word(class);
    Shdr {
        name: u32_at(e, s, 0),
        sh_type: u32_at(e, s, 4),
        flags: word_at(class, e, s, 8),
        addr: word_at(class, e, s, 8 + w),
        offset: word_at(class, e, s, 8 + 2 * w),
        size: word_at(class, e, s, 8 + 3 * w),
        link: u32_at(e, s, 8 + 4 * w),
        info: u32_at(e, s, 12 + 4 * w),
        addralign: word_at(class, e, s, 16 + 4 * w),
        entsize: word_at(class, e, s, 16 + 5 * w),
    }
}

/// `h` as a section header.
#[verifier::opaque]
pub open spec fn shdr_bytes(class: Class, e: Endian, h: Shdr) -> Seq<u8> {
    u32_bytes(e, h.name) + u32_bytes(e, h.sh_type) + word_bytes(class, e, h.flags) + word_bytes(
        class,
        e,
        h.addr,
    ) + word_bytes(class, e, h.offset) + word_bytes(class, e, h.size) + u32_bytes(e, h.link)
        + u32_bytes(e, h.info) + word_bytes(class, e, h.addralign) + word_bytes(class, e, h.entsize)
}

/// Whether the fields of `h` have room in a section header of this class.
pub open spec fn shdr_fits(class: Class, h: Shdr) -> bool {
    word_fits(class, h.flags) && word_fits(class, h.addr) && word_fits(class, h.offset)
        && word_fits(class, h.size) && word_fits(class, h.addralign) && word_fits(class, h.entsize)
}

/// `object::from_bytes` for `elf::FileHeader64`: it fails on fewer bytes than
/// the header has, and otherwise gives the fields at their offsets.
#[verifier::external_body]
pub(crate) fn read_header64(e: Endianness, data: &[u8]) -> (res: Option<FileHeader>)
    ensures
        res == if data@.len() < header_len(Class::Elf64) {
            None
        } else {
            Some(header_at(Class::Elf64, order(e), data@))
        },
{
    let (h, _) = object::from_bytes::<elf::FileHeader64<Endianness>>(data).ok()?;
    Some(FileHeader {
        e_type: h.e_type.get(e), e_machine: h.e_machine.get(e), e_version: h.e_version.get(e),
        e_entry: h.e_entry.get(e), e_phoff: h.e_phoff.get(e), e_shoff: h.e_shoff.get(e),
        e_flags: h.e_flags.get(e), e_ehsize: h.e_ehsize.get(e),
        e_phentsize: h.e_phentsize.get(e), e_phnum: h.e_phnum.get(e),
        e_shentsize: h.e_shentsize.get(e), e_shnum: h.e_shnum.get(e),
        e_shstrndx: h.e_shstrndx.get(e),
    })
}

/// `object::from_bytes` for `elf::FileHeader32`: it fails on fewer bytes than
/// the header has, and otherwise gives the fields at their offsets.
#[verifier::external_body]
pub(crate) fn read_header32(e: Endianness, data: &[u8]) -> (res: Option<FileHeader>)
    ensures
        res == if data@.len() < header_len(Class::Elf32) {
            None
        } else {
            Some(header_at(Class::Elf32, order(e), data@))
        },
{
    let (h, _) = object::from_bytes::<elf::FileHeader32<Endianness>>(data).ok()?;
    Some(FileHeader {
        e_type: h.e_type.get(e), e_machine: h.e_machine.get(e), e_version: h.e_version.get(e),
        e_entry: h.e_entry.get(e) as u64, e_phoff: h.e_phoff.get(e) as u64,
        e_shoff: h.e_shoff.get(e) as u64,
        e_flags: h.e_flags.get(e), e_ehsize: h.e_ehsize.get(e),
        e_phentsize: h.e_phentsize.get(e), e_phnum: h.e_phnum.get(e),
        e_shentsize: h.e_shentsize.get(e), e_shnum: h.e_shnum.get(e),
        e_shstrndx: h.e_shstrndx.get(e),
    })
}

/// `object::bytes_of` for `elf::FileHeader64`: sixteen zero bytes in place of
/// the identification, then each field in turn.
#[verifier::external_body]
pub(crate) fn write_header64(e: Endianness, h: &FileHeader) -> (out: Vec<u8>)
    ensures
        out@ == header_bytes(Class::Elf64, order(e), zeros(16), *h),
{
    let half = |v| U16::new(e, v);
    let hdr = elf::FileHeader64 {
        e_type: half(h.e_type), e_machine: half(h.e_machine), e_version: U32::new(e, h.e_version),
        e_entry: U64::new(e, h.e_entry), e_phoff: U64::new(e, h.e_phoff),
        e_shoff: U64::new(e, h.e_shoff), e_flags: U32::new(e, h.e_flags),
        e_ehsize: half(h.e_ehsize), e_phentsize: half(h.e_phentsize), e_phnum: half(h.e_phnum),
        e_shentsize: half(h.e_shentsize), e_shnum: half(h.e_shnum),
        e_shstrndx: half(h.e_shstrndx),
        ..*object::from_bytes(&[0u8; 64]).unwrap().0
    };
    object::bytes_of(&hdr).to_vec()
}

/// `object::bytes_of` for `elf::FileHeader32`: sixteen zero bytes in place of
/// the identification, then each field in turn.
#[verifier::external_body]
pub(crate) fn write_header32(e: Endianness, h: &FileHeader) -> (out: Vec<u8>)
    requires
        header_fits(Class::Elf32, *h),
    ensures
        out@ == header_bytes(Class::Elf32, order(e), zeros(16), *h),
{
    let (half, full) = (|v| U16::new(e, v), |v| U32::new(e, v));
    let hdr = elf::FileHeader32 {
        e_type: half(h.e_type), e_machine: half(h.e_machine), e_version: full(h.e_version),
        e_entry: full(h.e_entry as u32), e_phoff: full(h.e_phoff as u32),
        e_shoff: full(h.e_shoff as u32), e_flags: full(h.e_flags),
        e_ehsize: half(h.e_ehsize), e_phentsize: half(h.e_phentsize), e_phnum: half(h.e_phnum),
        e_shentsize: half(h.e_shentsize), e_shnum: half(h.e_shnum),
        e_shstrndx: half(h.e_shstrndx),
        ..*object::from_bytes(&[0u8; 52]).unwrap().0
    };
    object::bytes_of(&hdr).to_vec()
}

/// `object::from_bytes` for `elf::ProgramHeader64`: it fails on fewer bytes
/// than the header has, and otherwise gives the fields at their offsets.
#[verifier::external_body]
pub(crate) fn read_phdr64(e: Endianness, data: &[u8]) -> (res: Option<Phdr>)
    ensures
        res == if data@.len() < phdr_len(Class::Elf64) {
            None
        } else {
            Some(phdr_at(Class::Elf64, order(e), data@))
        },
{
    let (p, _) = object::from_bytes::<elf::ProgramHeader64<Endianness>>(data).ok()?;
    Some(Phdr {
        p_type: p.p_type.get(e),
        flags: p.p_flags.get(e),
        offset: p.p_offset.get(e),
        vaddr: p.p_vaddr.get(e),
        paddr: p.p_paddr.get(e),
        filesz: p.p_filesz.get(e),
        memsz: p.p_memsz.get(e),
        align: p.p_align.get(e),
    })
}

/// `object::from_bytes` for `elf::ProgramHeader32`: it fails on fewer bytes
/// than the header has, and otherwise gives the fields at their offsets.
#[verifier::external_body]
pub(crate) fn read_phdr32(e: Endianness, data: &[u8]) -> (res: Option<Phdr>)
    ensures
        res == if data@.len() < phdr_len(Class::Elf32) {
            None
        } else {
            Some(phdr_at(Class::Elf32, order(e), data@))
        },
{
    let (p, _) = object::from_bytes::<elf::ProgramHeader32<Endianness>>(data).ok()?;
    Some(Phdr {
        p_type: p.p_type.get(e),
        flags: p.p_flags.get(e),
        offset: p.p_offset.get(e) as u64,
        vaddr: p.p_vaddr.get(e) as u64,
        paddr: p.p_paddr.get(e) as u64,
        filesz: p.p_filesz.get(e) as u64,
        memsz: p.p_memsz.get(e) as u64,
        align: p.p_align.get(e) as u64,
    })
}

/// `object::bytes_of` for `elf::ProgramHeader64`: each field in turn.
#[verifier::external_body]
pub(crate) fn write_phdr64(e: Endianness, p: &Phdr) -> (out: Vec<u8>)
    ensures
        out@ == phdr_bytes(Class::Elf64, order(e), *p),
{
    let hdr = elf::ProgramHeader64 {
        p_type: U32::new(e, p.p_type),
        p_flags: U32::new(e, p.flags),
        p_offset: U64::new(e, p.offset),
        p_vaddr: U64::new(e, p.vaddr),
        p_paddr: U64::new(e, p.paddr),
        p_filesz: U64::new(e, p.filesz),
        p_memsz: U64::new(e, p.memsz),
        p_align: U64::new(e, p.align),
    };
    object::bytes_of(&hdr).to_vec()
}

/// `object::bytes_of` for `elf::ProgramHeader32`: each field in turn.
#[verifier::external_body]
pub(crate) fn write_phdr32(e: Endianness, p: &Phdr) -> (out: Vec<u8>)
    requires
        phdr_fits(Class::Elf32, *p),
    ensures
        out@ == phdr_bytes(Class::Elf32, order(e), *p),
{
    let hdr = elf::ProgramHeader32 {
        p_type: U32::new(e, p.p_type),
        p_offset: U32::new(e, p.offset as u32),
        p_vaddr: U32::new(e, p.vaddr as u32),
        p_paddr: U32::new(e, p.paddr as u32),
        p_filesz: U32::new(e, p.filesz as u32),
        p_memsz: U32::new(e, p.memsz as u32),
        p_flags: U32::new(e, p.flags),
        p_align: U32::new(e, p.align as u32),
    };
    object::bytes_of(&hdr).to_vec()
}

/// `object::from_bytes` for `elf::SectionHeader64`: it fails on fewer bytes
/// than the header has, and otherwise gives the fields at their offsets.
#[verifier::external_body]
pub(crate) fn read_shdr64(e: Endianness, data: &[u8]) -> (res: Option<Shdr>)
    ensures
        res == if data@.len() < shdr_len(Class::Elf64) {
            None
        } else {
            Some(shdr_at(Class::Elf64, order(e), data@))
        },
{
    let (s, _) = object::from_bytes::<elf::SectionHeader64<Endianness>>(data).ok()?;
    Some(Shdr {
        name: s.sh_name.get(e),
        sh_type: s.sh_type.get(e),
        flags: s.sh_flags.get(e),
        addr: s.sh_addr.get(e),
        offset: s.sh_offset.get(e),
        size: s.sh_size.get(e),
        link: s.sh_link.get(e),
        info: s.sh_info.get(e),
        addralign: s.sh_addralign.get(e),
        entsize: s.sh_entsize.get(e),
    })
}

/// `object::from_bytes` for `elf::SectionHeader32`: it fails on fewer bytes
/// than the header has, and otherwise gives the fields at their offsets.
#[verifier::external_body]
pub(crate) fn read_shdr32(e: Endianness, data: &[u8]) -> (res: Option<Shdr>)
    ensures
        res == if data@.len() < shdr_len(Class::Elf32) {
            None
        } else {
            Some(shdr_at(Class::Elf32, order(e), data@))
        },
{
    let (s, _) = object::from_bytes::<elf::SectionHeader32<Endianness>>(data).ok()?;
    Some(Shdr {
        name: s.sh_name.get(e),
        sh_type: s.sh_type.get(e),
        flags: s.sh_flags.get(e) as u64,
        addr: s.sh_addr.get(e) as u64,
        offset: s.sh_offset.get(e) as u64,
        size: s.sh_size.get(e) as u64,
        link: s.sh_link.get(e),
        info: s.sh_info.get(e),
        addralign: s.sh_addralign.get(e) as u64,
        entsize: s.sh_entsize.get(e) as u64,
    })
}

/// `object::bytes_of` for `elf::SectionHeader64`: each field in turn.
#[verifier::external_body]
pub(crate) fn write_shdr64(e: Endianness, s: &Shdr) -> (out: Vec<u8>)
    ensures
        out@ == shdr_bytes(Class::Elf64, order(e), *s),
{
    let hdr = elf::SectionHeader64 {
        sh_name: U32::new(e, s.name),
        sh_type: U32::new(e, s.sh_type),
        sh_flags: U64::new(e, s.flags),
        sh_addr: U64::new(e, s.addr),
        sh_offset: U64::new(e, s.offset),
        sh_size: U64::new(e, s.size),
        sh_link: U32::new(e, s.link),
        sh_info: U32::new(e, s.info),
        sh_addralign: U64::new(e, s.addralign),
        sh_entsize: U64::new(e, s.entsize),
    };
    object::bytes_of(&hdr).to_vec()
}

/// `object::bytes_of` for `elf::SectionHeader32`: each field in turn.
#[verifier::external_body]
pub(crate) fn write_shdr32(e: Endianness, s: &Shdr) -> (out: Vec<u8>)
    requires
        shdr_fits(Class::Elf32, *s),
    ensures
        out@ == shdr_bytes(Class::Elf32, order(e), *s),
{
    let hdr = elf::SectionHeader32 {
        sh_name: U32::new(e, s.name),
        sh_type: U32::new(e, s.sh_type),
        sh_flags: U32::new(e, s.flags as u32),
        sh_addr: U32::new(e, s.addr as u32),
        sh_offset: U32::new(e, s.offset as u32),
        sh_size: U32::new(e, s.size as u32),
        sh_link: U32::new(e, s.link),
        sh_info: U32::new(e, s.info),
        sh_addralign: U32::new(e, s.addralign as u32),
        sh_entsize: U32::new(e, s.entsize as u32),
    };
    object::bytes_of(&hdr).to_vec()
}

/// `object::from_bytes` for `elf::Dyn64`: it fails on fewer bytes than the
/// entry has, and otherwise gives its tag and its value.
#[verifier::external_body]
pub(crate) fn read_dyn64(e: Endianness, data: &[u8]) -> (res: Option<(u64, u64)>)
    ensures
        res == if data@.len() < dyn_len(Class::Elf64) {
            None
        } else {
            Some((u64_at(order(e), data@, 0), u64_at(order(e), data@, 8)))
        },
{
    let (d, _) = object::from_bytes::<elf::Dyn64<Endianness>>(data).ok()?;
    Some((d.d_tag.get(e), d.d_val.get(e)))
}

/// `object::from_bytes` for `elf::Dyn32`: it fails on fewer bytes than the
/// entry has, and otherwise gives its tag and its value.
#[verifier::external_body]
pub(crate) fn read_dyn32(e: Endianness, data: &[u8]) -> (res: Option<(u32, u32)>)
    ensures
        res == if data@.len() < dyn_len(Class::Elf32) {
            None
        } else {
            Some((u32_at(order(e), data@, 0), u32_at(order(e), data@, 4)))
        },
{
    let (d, _) = object::from_bytes::<elf::Dyn32<Endianness>>(data).ok()?;
    Some((d.d_tag.get(e), d.d_val.get(e)))
}

/// `object::bytes_of` for `elf::Dyn64`: the tag, then the value.
#[verifier::external_body]
pub(crate) fn write_dyn64(e: Endianness, tag: u64, val: u64) -> (out: Vec<u8>)
    ensures
        out@ == u64_bytes(order(e), tag) + u64_bytes(order(e), val),
{
    let entry = elf::Dyn64 { d_tag: U64::new(e, tag), d_val: U64::new(e, val) };
    object::bytes_of(&entry).to_vec()
}

/// `object::bytes_of` for `elf::Dyn32`: the tag, then the value.
#[verifier::external_body]
pub(crate) fn write_dyn32(e: Endianness, tag: u32, val: u32) -> (out: Vec<u8>)
    ensures
        out@ == u32_bytes(order(e), tag) + u32_bytes(order(e), val),
{
    let entry = elf::Dyn32 { d_tag: U32::new(e, tag), d_val: U32::new(e, val) };
    object::bytes_of(&entry).to_vec()
}

} // verus!
