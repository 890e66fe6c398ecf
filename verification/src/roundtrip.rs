//! Reading and writing the records of an ELF file undo each other.
use vstd::prelude::*;

use crate::bytes::{
    lemma_u16_decode, lemma_u16_encode, lemma_u32_decode, lemma_u32_encode, lemma_u64_decode,
    lemma_u64_encode, u16_bytes, u32_at, u32_bytes, u64_at, u64_bytes,
};
use crate::codec::{
    class_of, counts, dyn_at, dyn_bytes, dyn_in, dyn_out, ehdr_at, ehdr_out, endian_of, has_magic,
    phdr_in, phdr_out, record_of, shdr_in, shdr_out, tag_of32, tag_of64, tag_word, SHN_LORESERVE,
};
use crate::error::Outcome;
use crate::ir::{Class, DynEntry, EhdrView, Encoding, Endian, Phdr, Shdr};
use crate::raw::{
    dyn_len, header_at, header_fields, header_fits, header_len, phdr_at, phdr_bytes, phdr_fits,
    phdr_len, shdr_at, shdr_bytes, shdr_fits, shdr_len, word, word_at, word_bytes, word_fits,
    FileHeader,
};

verus! {

/// Appending leaves every part of what was there, and puts the new part last.
proof fn lemma_append(a: Seq<u8>, b: Seq<u8>)
    ensures
        (a + b).len() == a.len() + b.len(),
        (a + b).subrange(a.len() as int, (a.len() + b.len()) as int) == b,
        forall|i: int, j: int|
            0 <= i <= j <= a.len() ==> #[trigger] (a + b).subrange(i, j) == a.subrange(i, j),
{
    assert((a + b).subrange(a.len() as int, (a.len() + b.len()) as int) =~= b);
    assert forall|i: int, j: int| 0 <= i <= j <= a.len() implies #[trigger] (a + b).subrange(i, j)
        == a.subrange(i, j) by {
        assert((a + b).subrange(i, j) =~= a.subrange(i, j));
    }
}

/// Two adjacent parts make up the part that spans them.
pub proof fn lemma_adjacent(s: Seq<u8>, i: int, j: int, k: int)
    requires
        0 <= i <= j <= k <= s.len(),
    ensures
        s.subrange(i, j) + s.subrange(j, k) == s.subrange(i, k),
{
    assert(s.subrange(i, j) + s.subrange(j, k) =~= s.subrange(i, k));
}

proof fn lemma_word_decode(class: Class, e: Endian, v: u64, s: Seq<u8>, o: int)
    requires
        0 <= o,
        o + word(class) <= s.len(),
        word_fits(class, v),
        s.subrange(o, o + word(class)) == word_bytes(class, e, v),
    ensures
        word_at(class, e, s, o) == v,
{
    match class {
        Class::Elf64 => lemma_u64_decode(e, v, s, o),
        Class::Elf32 => lemma_u32_decode(e, v as u32, s, o),
    }
}

proof fn lemma_word_encode(class: Class, e: Endian, s: Seq<u8>, o: int)
    requires
        0 <= o,
        o + word(class) <= s.len(),
    ensures
        word_bytes(class, e, word_at(class, e, s, o)) == s.subrange(o, o + word(class)),
        word_fits(class, word_at(class, e, s, o)),
{
    match class {
        Class::Elf64 => lemma_u64_encode(e, s, o),
        Class::Elf32 => lemma_u32_encode(e, s, o),
    }
}

proof fn lemma_widths(class: Class, e: Endian)
    ensures
        forall|v: u16| (#[trigger] u16_bytes(e, v)).len() == 2,
        forall|v: u32| (#[trigger] u32_bytes(e, v)).len() == 4,
        forall|v: u64| (#[trigger] u64_bytes(e, v)).len() == 8,
        forall|v: u64| (#[trigger] word_bytes(class, e, v)).len() == word(class),
{
    crate::bytes::lemma_widths(e);
}

/// A program header that was written reads back as it was.
pub proof fn law_phdr_reads_back(enc: Encoding, p: Phdr)
    requires
        phdr_fits(enc.class, p),
    ensures
        phdr_out(enc, p) matches Ok(b) && b.len() == phdr_len(enc.class) && phdr_in(enc, b)
            == Outcome::<Phdr>::Ok(p),
{
    reveal(phdr_bytes);
    reveal(phdr_at);
    let e = enc.endian;
    lemma_widths(enc.class, e);
    match enc.class {
        Class::Elf64 => {
            let a0 = u32_bytes(e, p.p_type);
            let a1 = a0 + u32_bytes(e, p.flags);
            let a2 = a1 + u64_bytes(e, p.offset);
            let a3 = a2 + u64_bytes(e, p.vaddr);
            let a4 = a3 + u64_bytes(e, p.paddr);
            let a5 = a4 + u64_bytes(e, p.filesz);
            let a6 = a5 + u64_bytes(e, p.memsz);
            let s = a6 + u64_bytes(e, p.align);
            lemma_append(a0, u32_bytes(e, p.flags));
            lemma_append(a1, u64_bytes(e, p.offset));
            lemma_append(a2, u64_bytes(e, p.vaddr));
            lemma_append(a3, u64_bytes(e, p.paddr));
            lemma_append(a4, u64_bytes(e, p.filesz));
            lemma_append(a5, u64_bytes(e, p.memsz));
            lemma_append(a6, u64_bytes(e, p.align));
            assert(a0.subrange(0, 4) =~= a0);
            lemma_u32_decode(e, p.p_type, s, 0);
            lemma_u32_decode(e, p.flags, s, 4);
            lemma_u64_decode(e, p.offset, s, 8);
            lemma_u64_decode(e, p.vaddr, s, 16);
            lemma_u64_decode(e, p.paddr, s, 24);
            lemma_u64_decode(e, p.filesz, s, 32);
            lemma_u64_decode(e, p.memsz, s, 40);
            lemma_u64_decode(e, p.align, s, 48);
        },
        Class::Elf32 => {
            let a0 = u32_bytes(e, p.p_type);
            let a1 = a0 + u32_bytes(e, p.offset as u32);
            let a2 = a1 + u32_bytes(e, p.vaddr as u32);
            let a3 = a2 + u32_bytes(e, p.paddr as u32);
            let a4 = a3 + u32_bytes(e, p.filesz as u32);
            let a5 = a4 + u32_bytes(e, p.memsz as u32);
            let a6 = a5 + u32_bytes(e, p.flags);
            let s = a6 + u32_bytes(e, p.align as u32);
            lemma_append(a0, u32_bytes(e, p.offset as u32));
            lemma_append(a1, u32_bytes(e, p.vaddr as u32));
            lemma_append(a2, u32_bytes(e, p.paddr as u32));
            lemma_append(a3, u32_bytes(e, p.filesz as u32));
            lemma_append(a4, u32_bytes(e, p.memsz as u32));
            lemma_append(a5, u32_bytes(e, p.flags));
            lemma_append(a6, u32_bytes(e, p.align as u32));
            assert(a0.subrange(0, 4) =~= a0);
            lemma_u32_decode(e, p.p_type, s, 0);
            lemma_u32_decode(e, p.offset as u32, s, 4);
            lemma_u32_decode(e, p.vaddr as u32, s, 8);
            lemma_u32_decode(e, p.paddr as u32, s, 12);
            lemma_u32_decode(e, p.filesz as u32, s, 16);
            lemma_u32_decode(e, p.memsz as u32, s, 20);
            lemma_u32_decode(e, p.flags, s, 24);
            lemma_u32_decode(e, p.align as u32, s, 28);
        },
    }
}

/// A program header that was read writes back the bytes that it was read from.
pub proof fn law_phdr_writes_back(enc: Encoding, s: Seq<u8>)
    requires
        s.len() == phdr_len(enc.class),
    ensures
        phdr_in(enc, s) matches Ok(p) && phdr_out(enc, p) == Outcome::<Seq<u8>>::Ok(s),
{
    reveal(phdr_bytes);
    reveal(phdr_at);
    let e = enc.endian;
    match enc.class {
        Class::Elf64 => {
            lemma_u32_encode(e, s, 0);
            lemma_u32_encode(e, s, 4);
            lemma_u64_encode(e, s, 8);
            lemma_u64_encode(e, s, 16);
            lemma_u64_encode(e, s, 24);
            lemma_u64_encode(e, s, 32);
            lemma_u64_encode(e, s, 40);
            lemma_u64_encode(e, s, 48);
            lemma_adjacent(s, 0, 4, 8);
            lemma_adjacent(s, 0, 8, 16);
            lemma_adjacent(s, 0, 16, 24);
            lemma_adjacent(s, 0, 24, 32);
            lemma_adjacent(s, 0, 32, 40);
            lemma_adjacent(s, 0, 40, 48);
            lemma_adjacent(s, 0, 48, 56);
            assert(s.subrange(0, 56) =~= s);
        },
        Class::Elf32 => {
            lemma_u32_encode(e, s, 0);
            lemma_u32_encode(e, s, 4);
            lemma_u32_encode(e, s, 8);
            lemma_u32_encode(e, s, 12);
            lemma_u32_encode(e, s, 16);
            lemma_u32_encode(e, s, 20);
            lemma_u32_encode(e, s, 24);
            lemma_u32_encode(e, s, 28);
            lemma_adjacent(s, 0, 4, 8);
            lemma_adjacent(s, 0, 8, 12);
            lemma_adjacent(s, 0, 12, 16);
            lemma_adjacent(s, 0, 16, 20);
            lemma_adjacent(s, 0, 20, 24);
            lemma_adjacent(s, 0, 24, 28);
            lemma_adjacent(s, 0, 28, 32);
            assert(s.subrange(0, 32) =~= s);
        },
    }
}

/// A section header that was written reads back as it was.
pub proof fn law_shdr_reads_back(enc: Encoding, h: Shdr)
    requires
        shdr_fits(enc.class, h),
    ensures
        shdr_out(enc, h) matches Ok(b) && b.len() == shdr_len(enc.class) && shdr_in(enc, b)
            == Outcome::<Shdr>::Ok(h),
{
    reveal(shdr_bytes);
    reveal(shdr_at);
    let (c, e) = (enc.class, enc.endian);
    let w = word(c);
    lemma_widths(c, e);
    let a0 = u32_bytes(e, h.name);
    let a1 = a0 + u32_bytes(e, h.sh_type);
    let a2 = a1 + word_bytes(c, e, h.flags);
    let a3 = a2 + word_bytes(c, e, h.addr);
    let a4 = a3 + word_bytes(c, e, h.offset);
    let a5 = a4 + word_bytes(c, e, h.size);
    let a6 = a5 + u32_bytes(e, h.link);
    let a7 = a6 + u32_bytes(e, h.info);
    let a8 = a7 + word_bytes(c, e, h.addralign);
    let b = a8 + word_bytes(c, e, h.entsize);
    lemma_append(a0, u32_bytes(e, h.sh_type));
    lemma_append(a1, word_bytes(c, e, h.flags));
    lemma_append(a2, word_bytes(c, e, h.addr));
    lemma_append(a3, word_bytes(c, e, h.offset));
    lemma_append(a4, word_bytes(c, e, h.size));
    lemma_append(a5, u32_bytes(e, h.link));
    lemma_append(a6, u32_bytes(e, h.info));
    lemma_append(a7, word_bytes(c, e, h.addralign));
    lemma_append(a8, word_bytes(c, e, h.entsize));
    assert(a0.subrange(0, 4) =~= a0);
    lemma_u32_decode(e, h.name, b, 0);
    lemma_u32_decode(e, h.sh_type, b, 4);
    lemma_word_decode(c, e, h.flags, b, 8);
    lemma_word_decode(c, e, h.addr, b, 8 + w);
    lemma_word_decode(c, e, h.offset, b, 8 + 2 * w);
    lemma_word_decode(c, e, h.size, b, 8 + 3 * w);
    lemma_u32_decode(e, h.link, b, 8 + 4 * w);
    lemma_u32_decode(e, h.info, b, 12 + 4 * w);
    lemma_word_decode(c, e, h.addralign, b, 16 + 4 * w);
    lemma_word_decode(c, e, h.entsize, b, 16 + 5 * w);
}

/// A section header that was read writes back the bytes that it was read from.
pub proof fn law_shdr_writes_back(enc: Encoding, s: Seq<u8>)
    requires
        s.len() == shdr_len(enc.class),
    ensures
        shdr_in(enc, s) matches Ok(h) && shdr_out(enc, h) == Outcome::<Seq<u8>>::Ok(s),
{
    reveal(shdr_bytes);
    reveal(shdr_at);
    let (c, e) = (enc.class, enc.endian);
    let w = word(c);
    lemma_u32_encode(e, s, 0);
    lemma_u32_encode(e, s, 4);
    lemma_word_encode(c, e, s, 8);
    lemma_word_encode(c, e, s, 8 + w);
    lemma_word_encode(c, e, s, 8 + 2 * w);
    lemma_word_encode(c, e, s, 8 + 3 * w);
    lemma_u32_encode(e, s, 8 + 4 * w);
    lemma_u32_encode(e, s, 12 + 4 * w);
    lemma_word_encode(c, e, s, 16 + 4 * w);
    lemma_word_encode(c, e, s, 16 + 5 * w);
    lemma_adjacent(s, 0, 4, 8);
    lemma_adjacent(s, 0, 8, 8 + w);
    lemma_adjacent(s, 0, 8 + w, 8 + 2 * w);
    lemma_adjacent(s, 0, 8 + 2 * w, 8 + 3 * w);
    lemma_adjacent(s, 0, 8 + 3 * w, 8 + 4 * w);
    lemma_adjacent(s, 0, 8 + 4 * w, 12 + 4 * w);
    lemma_adjacent(s, 0, 12 + 4 * w, 16 + 4 * w);
    lemma_adjacent(s, 0, 16 + 4 * w, 16 + 5 * w);
    lemma_adjacent(s, 0, 16 + 5 * w, 16 + 6 * w);
    assert(s.subrange(0, 16 + 6 * w) =~= s);
}

/// A tag field holds the pattern of its tag.
proof fn lemma_tag_pattern(x: u64, y: u32)
    ensures
        tag_word(tag_of64(x)) == x,
        (tag_word(tag_of32(y)) % 0x1_0000_0000) as u32 == y,
{
}

/// A tag is told by the pattern in its field.
proof fn lemma_pattern_tag(tag: i64)
    ensures
        tag_of64(tag_word(tag)) == tag,
        i32::MIN <= tag <= i32::MAX ==> tag_of32((tag_word(tag) % 0x1_0000_0000) as u32) == tag,
{
}

/// A dynamic entry that was written reads back as it was, its tag within the
/// width of the tag field.
pub proof fn law_dyn_reads_back(enc: Encoding, d: DynEntry)
    requires
        word_fits(enc.class, d.val),
        enc.class is Elf32 ==> i32::MIN <= d.tag <= i32::MAX,
    ensures
        dyn_out(enc, d) matches Ok(b) && b.len() == dyn_len(enc.class) && dyn_in(enc, b)
            == Outcome::<DynEntry>::Ok(d),
{
    reveal(dyn_bytes);
    reveal(dyn_at);
    let e = enc.endian;
    lemma_widths(enc.class, e);
    match enc.class {
        Class::Elf64 => {
            let t = tag_word(d.tag);
            let a = u64_bytes(e, t);
            let b = a + u64_bytes(e, d.val);
            lemma_append(a, u64_bytes(e, d.val));
            assert(b.subrange(0, 8) =~= a);
            lemma_u64_decode(e, t, b, 0);
            lemma_u64_decode(e, d.val, b, 8);
            lemma_pattern_tag(d.tag);
        },
        Class::Elf32 => {
            let t = (tag_word(d.tag) % 0x1_0000_0000) as u32;
            let a = u32_bytes(e, t);
            let b = a + u32_bytes(e, d.val as u32);
            lemma_append(a, u32_bytes(e, d.val as u32));
            assert(b.subrange(0, 4) =~= a);
            lemma_u32_decode(e, t, b, 0);
            lemma_u32_decode(e, d.val as u32, b, 4);
            lemma_pattern_tag(d.tag);
        },
    }
}

/// A dynamic entry that was read writes back the bytes that it was read from.
pub proof fn law_dyn_writes_back(enc: Encoding, s: Seq<u8>)
    requires
        s.len() == dyn_len(enc.class),
    ensures
        dyn_in(enc, s) matches Ok(d) && dyn_out(enc, d) == Outcome::<Seq<u8>>::Ok(s),
{
    reveal(dyn_bytes);
    reveal(dyn_at);
    let e = enc.endian;
    match enc.class {
        Class::Elf64 => {
            lemma_u64_encode(e, s, 0);
            lemma_u64_encode(e, s, 8);
            lemma_tag_pattern(u64_at(e, s, 0), 0);
            lemma_adjacent(s, 0, 8, 16);
            assert(s.subrange(0, 16) =~= s);
        },
        Class::Elf32 => {
            lemma_u32_encode(e, s, 0);
            lemma_u32_encode(e, s, 4);
            lemma_tag_pattern(0, u32_at(e, s, 0));
            lemma_adjacent(s, 0, 4, 8);
            assert(s.subrange(0, 8) =~= s);
        },
    }
}

/// A file header takes the room that it should.
pub proof fn lemma_header_len(c: Class, e: Endian, h: FileHeader)
    ensures
        header_fields(c, e, h).len() == header_len(c) - 16,
{
    reveal(header_fields);
    lemma_widths(c, e);
}

/// The fields of a file header stand where they are read from.
proof fn lemma_header_reads_back(c: Class, e: Endian, h: FileHeader, s: Seq<u8>)
    requires
        header_fits(c, h),
        s.len() >= header_len(c),
        s.subrange(16, header_len(c)) == header_fields(c, e, h),
    ensures
        header_at(c, e, s) == h,
        header_fields(c, e, h).len() == header_len(c) - 16,
{
    reveal(header_fields);
    reveal(header_at);
    let w = word(c);
    lemma_widths(c, e);
    let a0 = u16_bytes(e, h.e_type);
    let a1 = a0 + u16_bytes(e, h.e_machine);
    let a2 = a1 + u32_bytes(e, h.e_version);
    let a3 = a2 + word_bytes(c, e, h.e_entry);
    let a4 = a3 + word_bytes(c, e, h.e_phoff);
    let a5 = a4 + word_bytes(c, e, h.e_shoff);
    let a6 = a5 + u32_bytes(e, h.e_flags);
    let a7 = a6 + u16_bytes(e, h.e_ehsize);
    let a8 = a7 + u16_bytes(e, h.e_phentsize);
    let a9 = a8 + u16_bytes(e, h.e_phnum);
    let a10 = a9 + u16_bytes(e, h.e_shentsize);
    let a11 = a10 + u16_bytes(e, h.e_shnum);
    let b = a11 + u16_bytes(e, h.e_shstrndx);
    lemma_append(a0, u16_bytes(e, h.e_machine));
    lemma_append(a1, u32_bytes(e, h.e_version));
    lemma_append(a2, word_bytes(c, e, h.e_entry));
    lemma_append(a3, word_bytes(c, e, h.e_phoff));
    lemma_append(a4, word_bytes(c, e, h.e_shoff));
    lemma_append(a5, u32_bytes(e, h.e_flags));
    lemma_append(a6, u16_bytes(e, h.e_ehsize));
    lemma_append(a7, u16_bytes(e, h.e_phentsize));
    lemma_append(a8, u16_bytes(e, h.e_phnum));
    lemma_append(a9, u16_bytes(e, h.e_shentsize));
    lemma_append(a10, u16_bytes(e, h.e_shnum));
    lemma_append(a11, u16_bytes(e, h.e_shstrndx));
    assert(a0.subrange(0, 2) =~= a0);
    assert forall|i: int, j: int| 16 <= i <= j <= header_len(c) implies #[trigger] s.subrange(i, j)
        == b.subrange(i - 16, j - 16) by {
        assert(s.subrange(i, j) =~= s.subrange(16, header_len(c)).subrange(i - 16, j - 16));
    }
    lemma_u16_decode(e, h.e_type, s, 16);
    lemma_u16_decode(e, h.e_machine, s, 18);
    lemma_u32_decode(e, h.e_version, s, 20);
    lemma_word_decode(c, e, h.e_entry, s, 24);
    lemma_word_decode(c, e, h.e_phoff, s, 24 + w);
    lemma_word_decode(c, e, h.e_shoff, s, 24 + 2 * w);
    lemma_u32_decode(e, h.e_flags, s, 24 + 3 * w);
    lemma_u16_decode(e, h.e_ehsize, s, 28 + 3 * w);
    lemma_u16_decode(e, h.e_phentsize, s, 30 + 3 * w);
    lemma_u16_decode(e, h.e_phnum, s, 32 + 3 * w);
    lemma_u16_decode(e, h.e_shentsize, s, 34 + 3 * w);
    lemma_u16_decode(e, h.e_shnum, s, 36 + 3 * w);
    lemma_u16_decode(e, h.e_shstrndx, s, 38 + 3 * w);
}

/// The fields that are read from a file header write back its bytes.
pub proof fn lemma_header_writes_back(c: Class, e: Endian, s: Seq<u8>)
    requires
        s.len() >= header_len(c),
    ensures
        header_fits(c, header_at(c, e, s)),
        header_fields(c, e, header_at(c, e, s)) == s.subrange(16, header_len(c)),
{
    reveal(header_fields);
    reveal(header_at);
    let w = word(c);
    lemma_u16_encode(e, s, 16);
    lemma_u16_encode(e, s, 18);
    lemma_u32_encode(e, s, 20);
    lemma_word_encode(c, e, s, 24);
    lemma_word_encode(c, e, s, 24 + w);
    lemma_word_encode(c, e, s, 24 + 2 * w);
    lemma_u32_encode(e, s, 24 + 3 * w);
    lemma_u16_encode(e, s, 28 + 3 * w);
    lemma_u16_encode(e, s, 30 + 3 * w);
    lemma_u16_encode(e, s, 32 + 3 * w);
    lemma_u16_encode(e, s, 34 + 3 * w);
    lemma_u16_encode(e, s, 36 + 3 * w);
    lemma_u16_encode(e, s, 38 + 3 * w);
    lemma_adjacent(s, 16, 18, 20);
    lemma_adjacent(s, 16, 20, 24);
    lemma_adjacent(s, 16, 24, 24 + w);
    lemma_adjacent(s, 16, 24 + w, 24 + 2 * w);
    lemma_adjacent(s, 16, 24 + 2 * w, 24 + 3 * w);
    lemma_adjacent(s, 16, 24 + 3 * w, 28 + 3 * w);
    lemma_adjacent(s, 16, 28 + 3 * w, 30 + 3 * w);
    lemma_adjacent(s, 16, 30 + 3 * w, 32 + 3 * w);
    lemma_adjacent(s, 16, 32 + 3 * w, 34 + 3 * w);
    lemma_adjacent(s, 16, 34 + 3 * w, 36 + 3 * w);
    lemma_adjacent(s, 16, 36 + 3 * w, 38 + 3 * w);
    lemma_adjacent(s, 16, 38 + 3 * w, 40 + 3 * w);
}

/// Whether the identification bytes of `h` name the encoding `enc` and agree
/// with the fields that are kept of them.
pub open spec fn ident_wf(enc: Encoding, h: EhdrView) -> bool {
    &&& h.ident.len() == 16
    &&& has_magic(h.ident)
    &&& class_of(h.ident[4]) == Some(enc.class)
    &&& endian_of(h.ident[5]) == Some(enc.endian)
    &&& h.os_abi == h.ident[7]
    &&& h.abi_version == h.ident[8]
}

/// A file header at the start of a file reads back as it was written, with the
/// counts, and the index of the section names, that its fields can hold.
pub proof fn law_ehdr_reads_back(enc: Encoding, h: EhdrView, phnum: int, shnum: int, s: Seq<u8>)
    requires
        ident_wf(enc, h),
        header_fits(enc.class, record_of(h, phnum, shnum)),
        s.len() >= header_len(enc.class),
        ehdr_out(enc, h, phnum, shnum) == Outcome::<Seq<u8>>::Ok(s.take(header_len(enc.class))),
    ensures
        ehdr_at(s) == Outcome::<(EhdrView, Encoding, u16, u16)>::Ok(
            (
                EhdrView { shstrndx: counts(h.shstrndx, phnum, shnum).2 as u32, ..h },
                enc,
                counts(h.shstrndx, phnum, shnum).0,
                counts(h.shstrndx, phnum, shnum).1,
            ),
        ),
{
    let (c, e) = (enc.class, enc.endian);
    let r = record_of(h, phnum, shnum);
    let t = s.take(header_len(c));
    assert(t == h.ident + header_fields(c, e, r));
    assert(s.subrange(16, header_len(c)) =~= t.subrange(16, header_len(c)));
    assert(t.subrange(16, header_len(c)) =~= header_fields(c, e, r));
    lemma_header_reads_back(c, e, r, s);
    assert(s.take(16) =~= h.ident);
    assert(forall|i: int| 0 <= i < 16 ==> s[i] == h.ident[i]) by {
        assert forall|i: int| 0 <= i < 16 implies s[i] == h.ident[i] by {
            assert(s.take(16)[i] == s[i]);
        }
    }
}

/// A file header that was read writes back the bytes that it was read from, when
/// it is written with the table lengths that it holds.
pub proof fn law_ehdr_writes_back(s: Seq<u8>)
    ensures
        ehdr_at(s) matches Ok((h, enc, phnum, shnum)) ==> h.shstrndx < SHN_LORESERVE && shnum
            < SHN_LORESERVE ==> {
            &&& ident_wf(enc, h)
            &&& ehdr_out(enc, h, phnum as int, shnum as int) == Outcome::<Seq<u8>>::Ok(
                s.take(header_len(enc.class)),
            )
        },
{
    if let Ok((h, enc, phnum, shnum)) = ehdr_at(s) {
        if h.shstrndx < SHN_LORESERVE && shnum < SHN_LORESERVE {
            let (c, e) = (enc.class, enc.endian);
            lemma_header_writes_back(c, e, s);
            assert(record_of(h, phnum as int, shnum as int) == header_at(c, e, s));
            assert(s.take(16) + s.subrange(16, header_len(c)) =~= s.take(header_len(c)));
        }
    }
}

} // verus!
