//! The one place that maps the native model to and from the on-disk records, so
//! that the differences of order and width between the two classes stay in step
//! between reading and writing.
use object::Endianness;
use vstd::prelude::*;

use crate::bytes::{u32_at, u32_bytes, u64_at, u64_bytes};
use crate::error::{Error, ErrorView, Outcome, Result};
use crate::ir::{Class, DynEntry, Ehdr, EhdrView, Encoding, Endian, Phdr, Shdr};
use crate::raw::{
    dyn_len, header_at, header_bytes, header_fields, header_len, order, phdr_at, phdr_bytes,
    phdr_len, read_dyn32, read_dyn64, read_header32, read_header64, read_phdr32, read_phdr64,
    read_shdr32, read_shdr64, shdr_at, shdr_bytes, shdr_len, write_dyn32, write_dyn64,
    write_header32, write_header64, write_phdr32, write_phdr64, write_shdr32, write_shdr64,
    FileHeader,
};
use crate::text::{concat, concat3, radix_text, to_radix};

verus! {

/// `e_phnum == PN_XNUM` signals that the real count is in section 0's `sh_info`.
pub const PN_XNUM: u16 = 0xffff;

/// First reserved section index; counts from here on use the section 0 escape.
pub const SHN_LORESERVE: u32 = 0xff00;

/// `e_shstrndx == SHN_XINDEX` signals that the real index is in section 0's
/// `sh_link`.
pub const SHN_XINDEX: u16 = 0xffff;

/// The byte order in the terms of `object`.
pub fn endianness(e: Endian) -> (r: Endianness)
    ensures
        order(r) == e,
{
    match e {
        Endian::Little => Endianness::Little,
        Endian::Big => Endianness::Big,
    }
}

/// What reading a record from too few bytes fails with.
pub open spec fn truncated() -> ErrorView {
    ErrorView::Parse("truncated struct"@)
}

/// What writing `v` to a 32-bit field that cannot hold it fails with.
pub open spec fn too_wide(v: u64, field: Seq<char>) -> ErrorView {
    ErrorView::Serialize(
        field + " value 0x"@ + radix_text(v as int, 16) + " overflows 32-bit ELF field"@,
    )
}

fn truncated_error() -> (e: Error)
    ensures
        e@ == truncated(),
{
    Error::Parse("truncated struct".to_owned())
}

/// Narrow a widened value to a 32-bit field, refusing to truncate it: a computed
/// offset, address or size that does not fit is an error, not a corrupt write.
fn narrow(v: u64, field: &str) -> (res: Result<u32>)
    ensures
        match res {
            Ok(n) => n == v,
            Err(e) => v > u32::MAX && e@ == too_wide(v, field@),
        },
{
    if v <= 0xffff_ffff {
        Ok(v as u32)
    } else {
        let head = concat3(field, " value 0x", to_radix(v, 16).as_str());
        Err(Error::Serialize(concat(head.as_str(), " overflows 32-bit ELF field")))
    }
}

/// The class that identification byte 4 stands for.
pub open spec fn class_of(b: u8) -> Option<Class> {
    if b == 1 {
        Some(Class::Elf32)
    } else if b == 2 {
        Some(Class::Elf64)
    } else {
        None
    }
}

/// The byte order that identification byte 5 stands for.
pub open spec fn endian_of(b: u8) -> Option<Endian> {
    if b == 1 {
        Some(Endian::Little)
    } else if b == 2 {
        Some(Endian::Big)
    } else {
        None
    }
}

/// Whether `s` starts with the ELF magic.
pub open spec fn has_magic(s: Seq<u8>) -> bool {
    s.len() >= 16 && s[0] == 0x7f && s[1] == 0x45 && s[2] == 0x4c && s[3] == 0x46
}

/// The native form of a file header.
pub open spec fn ehdr_of(h: FileHeader, ident: Seq<u8>) -> EhdrView {
    EhdrView {
        e_type: h.e_type,
        machine: h.e_machine,
        version: h.e_version,
        entry: h.e_entry,
        phoff: h.e_phoff,
        shoff: h.e_shoff,
        flags: h.e_flags,
        ehsize: h.e_ehsize,
        phentsize: h.e_phentsize,
        shentsize: h.e_shentsize,
        shstrndx: h.e_shstrndx as u32,
        os_abi: ident[7],
        abi_version: ident[8],
        ident,
    }
}

/// The file header that `data` starts with, its encoding, and the raw counts of
/// program and section headers.
pub open spec fn ehdr_at(data: Seq<u8>) -> Outcome<(EhdrView, Encoding, u16, u16)> {
    if !has_magic(data) {
        Err(ErrorView::Parse("bad ELF magic"@))
    } else {
        match (class_of(data[4]), endian_of(data[5])) {
            (None, _) => Err(ErrorView::Unsupported("EI_CLASS "@ + radix_text(data[4] as int, 10))),
            (_, None) => Err(ErrorView::Unsupported("EI_DATA "@ + radix_text(data[5] as int, 10))),
            (Some(class), Some(endian)) => if data.len() < header_len(class) {
                Err(truncated())
            } else {
                let h = header_at(class, endian, data);
                Ok((ehdr_of(h, data.take(16)), Encoding { class, endian }, h.e_phnum, h.e_shnum))
            },
        }
    }
}

/// Decode the file header: the header, its encoding, and the raw counts of
/// program and section headers, which the model does not hold because they
/// follow from the lengths of its tables.
pub fn read_ehdr(data: &[u8]) -> (res: Result<(Ehdr, Encoding, u16, u16)>)
    ensures
        match res {
            Ok(r) => ehdr_at(data@) == Outcome::Ok((r.0@, r.1, r.2, r.3)),
            Err(e) => ehdr_at(data@) == Outcome::<(EhdrView, Encoding, u16, u16)>::Err(e@),
        },
{
    if data.len() < 16 || data[0] != 0x7f || data[1] != 0x45 || data[2] != 0x4c || data[3] != 0x46 {
        return Err(Error::Parse("bad ELF magic".to_owned()));
    }
    let class = match data[4] {
        1 => Class::Elf32,
        2 => Class::Elf64,
        c => {
            return Err(Error::Unsupported(concat("EI_CLASS ", to_radix(c as u64, 10).as_str())));
        },
    };
    let endian = match data[5] {
        1 => Endian::Little,
        2 => Endian::Big,
        d => {
            return Err(Error::Unsupported(concat("EI_DATA ", to_radix(d as u64, 10).as_str())));
        },
    };
    let e = endianness(endian);
    let record = match class {
        Class::Elf64 => read_header64(e, data),
        Class::Elf32 => read_header32(e, data),
    };
    let h = match record {
        Some(h) => h,
        None => {
            return Err(truncated_error());
        },
    };
    let mut ident: [u8; 16] = [0;16];
    let mut i: usize = 0;
    while i < 16
        invariant
            i <= 16 <= data@.len(),
            forall|j: int| 0 <= j < i ==> ident@[j] == data@[j],
        decreases 16 - i,
    {
        ident[i] = data[i];
        i += 1;
    }
    let ehdr = Ehdr {
        e_type: h.e_type,
        machine: h.e_machine,
        version: h.e_version,
        entry: h.e_entry,
        phoff: h.e_phoff,
        shoff: h.e_shoff,
        flags: h.e_flags,
        ehsize: h.e_ehsize,
        phentsize: h.e_phentsize,
        shentsize: h.e_shentsize,
        shstrndx: h.e_shstrndx as u32,
        os_abi: data[7],
        abi_version: data[8],
        ident,
    };
    assert(ident@ =~= data@.take(16));
    assert(ehdr@ =~= ehdr_of(h, data@.take(16)));
    Ok((ehdr, Encoding { class, endian }, h.e_phnum, h.e_shnum))
}

/// The count and index fields of a file header, with the section 0 escapes where
/// the real values do not fit in 16 bits.
pub open spec fn counts(shstrndx: u32, phnum: int, shnum: int) -> (u16, u16, u16) {
    (
        if phnum >= PN_XNUM {
            PN_XNUM
        } else {
            phnum as u16
        },
        if shnum >= SHN_LORESERVE {
            0
        } else {
            shnum as u16
        },
        if shstrndx >= SHN_LORESERVE {
            SHN_XINDEX
        } else {
            shstrndx as u16
        },
    )
}

fn ehdr_counts(h: &Ehdr, phnum: usize, shnum: usize) -> (r: (u16, u16, u16))
    ensures
        r == counts(h.shstrndx, phnum as int, shnum as int),
{
    let e_phnum: u16 = if phnum >= PN_XNUM as usize {
        PN_XNUM
    } else {
        phnum as u16
    };
    let e_shnum: u16 = if shnum >= SHN_LORESERVE as usize {
        0
    } else {
        shnum as u16
    };
    let e_shstrndx: u16 = if h.shstrndx >= SHN_LORESERVE {
        SHN_XINDEX
    } else {
        h.shstrndx as u16
    };
    (e_phnum, e_shnum, e_shstrndx)
}

/// The record form of a file header, with the given table lengths.
pub open spec fn record_of(h: EhdrView, phnum: int, shnum: int) -> FileHeader {
    let c = counts(h.shstrndx, phnum, shnum);
    FileHeader {
        e_type: h.e_type,
        e_machine: h.machine,
        e_version: h.version,
        e_entry: h.entry,
        e_phoff: h.phoff,
        e_shoff: h.shoff,
        e_flags: h.flags,
        e_ehsize: h.ehsize,
        e_phentsize: h.phentsize,
        e_phnum: c.0,
        e_shentsize: h.shentsize,
        e_shnum: c.1,
        e_shstrndx: c.2,
    }
}

/// The bytes of a file header, or the first field that does not fit.
pub open spec fn ehdr_out(enc: Encoding, h: EhdrView, phnum: int, shnum: int) -> Outcome<Seq<u8>> {
    if enc.class is Elf32 && h.entry > u32::MAX {
        Err(too_wide(h.entry, "e_entry"@))
    } else if enc.class is Elf32 && h.phoff > u32::MAX {
        Err(too_wide(h.phoff, "e_phoff"@))
    } else if enc.class is Elf32 && h.shoff > u32::MAX {
        Err(too_wide(h.shoff, "e_shoff"@))
    } else {
        Ok(header_bytes(enc.class, enc.endian, h.ident, record_of(h, phnum, shnum)))
    }
}

/// What appending an encoded record to `old` leaves: all of it, or nothing.
pub open spec fn appended(old: Seq<u8>, bytes: Outcome<Seq<u8>>) -> Seq<u8> {
    match bytes {
        Ok(b) => old + b,
        Err(_) => old,
    }
}

/// Whether `res` is the outcome of encoding a record.
pub open spec fn encoded(res: Result<()>, bytes: Outcome<Seq<u8>>) -> bool {
    match res {
        Ok(_) => bytes is Ok,
        Err(e) => bytes == Outcome::<Seq<u8>>::Err(e@),
    }
}

/// Append the file header for tables of `phnum` and `shnum` entries.
pub fn write_ehdr(
    enc: Encoding,
    h: &Ehdr,
    phnum: usize,
    shnum: usize,
    out: &mut Vec<u8>,
) -> (res: Result<()>)
    ensures
        final(out)@ == appended(old(out)@, ehdr_out(enc, h@, phnum as int, shnum as int)),
        encoded(res, ehdr_out(enc, h@, phnum as int, shnum as int)),
{
    let e = endianness(enc.endian);
    let (e_phnum, e_shnum, e_shstrndx) = ehdr_counts(h, phnum, shnum);
    let record = FileHeader {
        e_type: h.e_type,
        e_machine: h.machine,
        e_version: h.version,
        e_entry: h.entry,
        e_phoff: h.phoff,
        e_shoff: h.shoff,
        e_flags: h.flags,
        e_ehsize: h.ehsize,
        e_phentsize: h.phentsize,
        e_phnum,
        e_shentsize: h.shentsize,
        e_shnum,
        e_shstrndx,
    };
    let bytes = match enc.class {
        Class::Elf64 => write_header64(e, &record),
        Class::Elf32 => {
            narrow(h.entry, "e_entry")?;
            narrow(h.phoff, "e_phoff")?;
            narrow(h.shoff, "e_shoff")?;
            write_header32(e, &record)
        },
    };
    out.extend_from_slice(h.ident.as_slice());
    out.extend_from_slice(&bytes[16..bytes.len()]);
    assert(bytes@.subrange(16, bytes@.len() as int) =~= header_fields(enc.class, enc.endian, record));
    assert(out@ =~= old(out)@ + header_bytes(enc.class, enc.endian, h.ident@, record));
    Ok(())
}

/// The program header that `data` starts with.
pub open spec fn phdr_in(enc: Encoding, data: Seq<u8>) -> Outcome<Phdr> {
    if data.len() < phdr_len(enc.class) {
        Err(truncated())
    } else {
        Ok(phdr_at(enc.class, enc.endian, data))
    }
}

/// Decode a program header.
pub fn read_phdr(enc: Encoding, data: &[u8]) -> (res: Result<Phdr>)
    ensures
        match res {
            Ok(p) => phdr_in(enc, data@) == Outcome::Ok(p),
            Err(e) => phdr_in(enc, data@) == Outcome::<Phdr>::Err(e@),
        },
{
    let e = endianness(enc.endian);
    let record = match enc.class {
        Class::Elf64 => read_phdr64(e, data),
        Class::Elf32 => read_phdr32(e, data),
    };
    match record {
        Some(p) => Ok(p),
        None => Err(truncated_error()),
    }
}

/// The bytes of a program header, or the first field that does not fit.
pub open spec fn phdr_out(enc: Encoding, p: Phdr) -> Outcome<Seq<u8>> {
    if enc.class is Elf64 {
        Ok(phdr_bytes(enc.class, enc.endian, p))
    } else if p.offset > u32::MAX {
        Err(too_wide(p.offset, "p_offset"@))
    } else if p.vaddr > u32::MAX {
        Err(too_wide(p.vaddr, "p_vaddr"@))
    } else if p.paddr > u32::MAX {
        Err(too_wide(p.paddr, "p_paddr"@))
    } else if p.filesz > u32::MAX {
        Err(too_wide(p.filesz, "p_filesz"@))
    } else if p.memsz > u32::MAX {
        Err(too_wide(p.memsz, "p_memsz"@))
    } else if p.align > u32::MAX {
        Err(too_wide(p.align, "p_align"@))
    } else {
        Ok(phdr_bytes(enc.class, enc.endian, p))
    }
}

/// Append a program header.
pub fn write_phdr(enc: Encoding, p: &Phdr, out: &mut Vec<u8>) -> (res: Result<()>)
    ensures
        final(out)@ == appended(old(out)@, phdr_out(enc, *p)),
        encoded(res, phdr_out(enc, *p)),
{
    let e = endianness(enc.endian);
    let bytes = match enc.class {
        Class::Elf64 => write_phdr64(e, p),
        Class::Elf32 => {
            narrow(p.offset, "p_offset")?;
            narrow(p.vaddr, "p_vaddr")?;
            narrow(p.paddr, "p_paddr")?;
            narrow(p.filesz, "p_filesz")?;
            narrow(p.memsz, "p_memsz")?;
            narrow(p.align, "p_align")?;
            write_phdr32(e, p)
        },
    };
    out.extend_from_slice(bytes.as_slice());
    Ok(())
}

/// The section header that `data` starts with.
pub open spec fn shdr_in(enc: Encoding, data: Seq<u8>) -> Outcome<Shdr> {
    if data.len() < shdr_len(enc.class) {
        Err(truncated())
    } else {
        Ok(shdr_at(enc.class, enc.endian, data))
    }
}

/// Decode a section header.
pub fn read_shdr(enc: Encoding, data: &[u8]) -> (res: Result<Shdr>)
    ensures
        match res {
            Ok(s) => shdr_in(enc, data@) == Outcome::Ok(s),
            Err(e) => shdr_in(enc, data@) == Outcome::<Shdr>::Err(e@),
        },
{
    let e = endianness(enc.endian);
    let record = match enc.class {
        Class::Elf64 => read_shdr64(e, data),
        Class::Elf32 => read_shdr32(e, data),
    };
    match record {
        Some(s) => Ok(s),
        None => Err(truncated_error()),
    }
}

/// The bytes of a section header, or the first field that does not fit.
pub open spec fn shdr_out(enc: Encoding, s: Shdr) -> Outcome<Seq<u8>> {
    if enc.class is Elf64 {
        Ok(shdr_bytes(enc.class, enc.endian, s))
    } else if s.flags > u32::MAX {
        Err(too_wide(s.flags, "sh_flags"@))
    } else if s.addr > u32::MAX {
        Err(too_wide(s.addr, "sh_addr"@))
    } else if s.offset > u32::MAX {
        Err(too_wide(s.offset, "sh_offset"@))
    } else if s.size > u32::MAX {
        Err(too_wide(s.size, "sh_size"@))
    } else if s.addralign > u32::MAX {
        Err(too_wide(s.addralign, "sh_addralign"@))
    } else if s.entsize > u32::MAX {
        Err(too_wide(s.entsize, "sh_entsize"@))
    } else {
        Ok(shdr_bytes(enc.class, enc.endian, s))
    }
}

/// Append a section header.
pub fn write_shdr(enc: Encoding, s: &Shdr, out: &mut Vec<u8>) -> (res: Result<()>)
    ensures
        final(out)@ == appended(old(out)@, shdr_out(enc, *s)),
        encoded(res, shdr_out(enc, *s)),
{
    let e = endianness(enc.endian);
    let bytes = match enc.class {
        Class::Elf64 => write_shdr64(e, s),
        Class::Elf32 => {
            narrow(s.flags, "sh_flags")?;
            narrow(s.addr, "sh_addr")?;
            narrow(s.offset, "sh_offset")?;
            narrow(s.size, "sh_size")?;
            narrow(s.addralign, "sh_addralign")?;
            narrow(s.entsize, "sh_entsize")?;
            write_shdr32(e, s)
        },
    };
    out.extend_from_slice(bytes.as_slice());
    Ok(())
}

/// `tag` as the 64-bit pattern of its two's complement.
pub open spec fn tag_word(tag: i64) -> u64 {
    if tag >= 0 {
        tag as u64
    } else {
        (tag + 0x1_0000_0000_0000_0000) as u64
    }
}

/// The signed number whose two's complement in 64 bits is `v`.
pub open spec fn tag_of64(v: u64) -> i64 {
    if v <= i64::MAX {
        v as i64
    } else {
        (v - 0x1_0000_0000_0000_0000) as i64
    }
}

/// The signed number whose two's complement in 32 bits is `v`.
pub open spec fn tag_of32(v: u32) -> i64 {
    if v <= i32::MAX {
        v as i64
    } else {
        (v - 0x1_0000_0000) as i64
    }
}

fn to_tag_word(tag: i64) -> (v: u64)
    ensures
        v == tag_word(tag),
{
    if tag >= 0 {
        tag as u64
    } else {
        u64::MAX - (-(tag + 1)) as u64
    }
}

/// The dynamic entry at the start of `s`.
#[verifier::opaque]
pub open spec fn dyn_at(class: Class, e: Endian, s: Seq<u8>) -> DynEntry {
    match class {
        Class::Elf64 => DynEntry { tag: tag_of64(u64_at(e, s, 0)), val: u64_at(e, s, 8) },
        Class::Elf32 => DynEntry { tag: tag_of32(u32_at(e, s, 0)), val: u32_at(e, s, 4) as u64 },
    }
}

/// The dynamic entry that `data` starts with.
pub open spec fn dyn_in(enc: Encoding, data: Seq<u8>) -> Outcome<DynEntry> {
    if data.len() < dyn_len(enc.class) {
        Err(truncated())
    } else {
        Ok(dyn_at(enc.class, enc.endian, data))
    }
}

/// Decode a dynamic entry.
pub fn read_dyn(enc: Encoding, data: &[u8]) -> (res: Result<DynEntry>)
    ensures
        match res {
            Ok(d) => dyn_in(enc, data@) == Outcome::Ok(d),
            Err(e) => dyn_in(enc, data@) == Outcome::<DynEntry>::Err(e@),
        },
{
    reveal(dyn_at);
    let e = endianness(enc.endian);
    match enc.class {
        Class::Elf64 => match read_dyn64(e, data) {
            Some((t, val)) => {
                let tag: i64 = if t <= 0x7fff_ffff_ffff_ffff {
                    t as i64
                } else {
                    -1 - (u64::MAX - t) as i64
                };
                Ok(DynEntry { tag, val })
            },
            None => Err(truncated_error()),
        },
        Class::Elf32 => match read_dyn32(e, data) {
            Some((t, val)) => {
                let tag: i64 = if t <= 0x7fff_ffff {
                    t as i64
                } else {
                    t as i64 - 0x1_0000_0000
                };
                Ok(DynEntry { tag, val: val as u64 })
            },
            None => Err(truncated_error()),
        },
    }
}

/// `d` as a dynamic entry. A 32-bit tag field holds the low half of the tag,
/// which is the pattern that the standard tags are defined by.
#[verifier::opaque]
pub open spec fn dyn_bytes(class: Class, e: Endian, d: DynEntry) -> Seq<u8> {
    match class {
        Class::Elf64 => u64_bytes(e, tag_word(d.tag)) + u64_bytes(e, d.val),
        Class::Elf32 => u32_bytes(e, (tag_word(d.tag) % 0x1_0000_0000) as u32) + u32_bytes(
            e,
            d.val as u32,
        ),
    }
}

/// The bytes of a dynamic entry, or the value that does not fit.
pub open spec fn dyn_out(enc: Encoding, d: DynEntry) -> Outcome<Seq<u8>> {
    if enc.class is Elf32 && d.val > u32::MAX {
        Err(too_wide(d.val, "d_val"@))
    } else {
        Ok(dyn_bytes(enc.class, enc.endian, d))
    }
}

/// Append a dynamic entry.
pub fn write_dyn(enc: Encoding, d: &DynEntry, out: &mut Vec<u8>) -> (res: Result<()>)
    ensures
        final(out)@ == appended(old(out)@, dyn_out(enc, *d)),
        encoded(res, dyn_out(enc, *d)),
{
    reveal(dyn_bytes);
    let e = endianness(enc.endian);
    let tag: u64 = to_tag_word(d.tag);
    let bytes = match enc.class {
        Class::Elf64 => write_dyn64(e, tag, d.val),
        Class::Elf32 => {
            let val: u32 = narrow(d.val, "d_val")?;
            write_dyn32(e, (tag % 0x1_0000_0000) as u32, val)
        },
    };
    out.extend_from_slice(bytes.as_slice());
    Ok(())
}

/// Length of a program header.
pub fn phdr_size(class: Class) -> (n: usize)
    ensures
        n == phdr_len(class),
{
    match class {
        Class::Elf64 => 56,
        Class::Elf32 => 32,
    }
}

/// Length of a section header.
pub fn shdr_size(class: Class) -> (n: usize)
    ensures
        n == shdr_len(class),
{
    match class {
        Class::Elf64 => 64,
        Class::Elf32 => 40,
    }
}

/// Length of a dynamic entry.
pub fn dyn_size(class: Class) -> (n: usize)
    ensures
        n == dyn_len(class),
{
    match class {
        Class::Elf64 => 16,
        Class::Elf32 => 8,
    }
}

/// Length of a file header.
pub fn ehdr_size(class: Class) -> (n: usize)
    ensures
        n == header_len(class),
{
    match class {
        Class::Elf64 => 64,
        Class::Elf32 => 52,
    }
}

} // verus!
