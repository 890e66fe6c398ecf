//! What a file says, byte by byte, is what is read from it.
use vstd::prelude::*;
use vstd::utf8::encode_utf8;

use crate::bytes::{u16_at, u32_at, u64_at};
use crate::codec::ehdr_at;
use crate::ir::{
    lemma_str_end_is, section_type, segment_type, Class, Encoding, Endian, ImageView, Phdr, Shdr,
};
use crate::laws::files::lemma_parsed;
use crate::laws::printing::string_at;
use crate::ops::{sym_count, sym_name_offset};
use crate::parser::{dyn_entries, parsed, phdr_table, section_bytes, shdr_table};
use crate::raw::{dyn_len, header_at, phdr_at, phdr_len, shdr_at, shdr_len, word_at};
use crate::seqs::{first, lemma_first_from, lemma_first_is, lemma_first_none};
use crate::symbols::sym_bytes;

verus! {

/// The number in the `n` bytes at `o`, the least byte first or last.
pub open spec fn number_at(e: Endian, s: Seq<u8>, o: int, n: nat) -> int
    decreases n,
{
    if n == 0 {
        0
    } else if e is Little {
        s[o] + 0x100 * number_at(e, s, o + 1, (n - 1) as nat)
    } else {
        0x100 * number_at(e, s, o, (n - 1) as nat) + s[o + n - 1]
    }
}

proof fn lemma_number(e: Endian, s: Seq<u8>, o: int)
    ensures
        u16_at(e, s, o) == number_at(e, s, o, 2),
        u32_at(e, s, o) == number_at(e, s, o, 4),
        u64_at(e, s, o) == number_at(e, s, o, 8),
{
    reveal(u16_at);
    reveal(u32_at);
    reveal(u64_at);
    reveal_with_fuel(number_at, 9);
}

/// The number at a place that depends on the class of a file: of `w` bytes at `o` in a file
/// of the wide class, and of `y` bytes at `x` in one of the narrow class.
pub open spec fn field_at(enc: Encoding, s: Seq<u8>, o: int, w: nat, x: int, y: nat) -> int {
    if enc.class is Elf64 {
        number_at(enc.endian, s, o, w)
    } else {
        number_at(enc.endian, s, x, y)
    }
}

/// Whether `v` is in the encoding that the bytes at the start of a file name.
pub open spec fn encoding_named(data: Seq<u8>, v: ImageView) -> bool {
    &&& data.len() >= 16
    &&& data.take(4) == seq![0x7fu8, 0x45u8, 0x4cu8, 0x46u8]
    &&& v.enc.class is Elf32 <==> data[4] == 1
    &&& v.enc.class is Elf64 <==> data[4] == 2
    &&& v.enc.endian is Little <==> data[5] == 1
    &&& v.enc.endian is Big <==> data[5] == 2
}

/// The file header is read by its fields. A count that has no room in it is in the first
/// section header.
pub proof fn law_header_is_read(data: Seq<u8>)
    ensures
        parsed(data) matches Ok(v) ==> {
            let h = v.ehdr;
            let e = v.enc;
            let first_at = h.shoff as int;
            let p = field_at(e, data, 56, 2, 44, 2);
            let s = field_at(e, data, 60, 2, 48, 2);
            let x = field_at(e, data, 62, 2, 50, 2);
            &&& encoding_named(data, v)
            &&& h.ident == data.take(16) && h.os_abi == data[7] && h.abi_version == data[8]
            &&& h.e_type == field_at(e, data, 16, 2, 16, 2)
            &&& h.machine == field_at(e, data, 18, 2, 18, 2)
            &&& h.version == field_at(e, data, 20, 4, 20, 4)
            &&& h.entry == field_at(e, data, 24, 8, 24, 4)
            &&& h.phoff == field_at(e, data, 32, 8, 28, 4)
            &&& h.shoff == field_at(e, data, 40, 8, 32, 4)
            &&& h.flags == field_at(e, data, 48, 4, 36, 4)
            &&& h.ehsize == field_at(e, data, 52, 2, 40, 2)
            &&& h.phentsize == field_at(e, data, 54, 2, 42, 2)
            &&& h.shentsize == field_at(e, data, 58, 2, 46, 2)
            &&& v.phdrs.len() == if p == 0xffff && h.shoff != 0 {
                field_at(e, data, first_at + 44, 4, first_at + 28, 4)
            } else {
                p
            }
            &&& v.shdrs.len() == if s == 0 && h.shoff != 0 {
                field_at(e, data, first_at + 32, 8, first_at + 20, 4)
            } else {
                s
            }
            &&& h.shstrndx == if x == 0xffff && h.shoff != 0 {
                field_at(e, data, first_at + 40, 4, first_at + 24, 4)
            } else {
                x
            }
        },
{
    if let Ok(v) = parsed(data) {
        lemma_parsed(data);
        reveal(header_at);
        reveal(shdr_at);
        let (raw, enc, p, s) = ehdr_at(data)->Ok_0;
        assert(data.take(4) =~= seq![0x7fu8, 0x45u8, 0x4cu8, 0x46u8]);
        assert forall|o: int|
            #![trigger u16_at(enc.endian, data, o)]
            #![trigger u32_at(enc.endian, data, o)]
            #![trigger u64_at(enc.endian, data, o)]
            u16_at(enc.endian, data, o) == number_at(enc.endian, data, o, 2) && u32_at(
                enc.endian,
                data,
                o,
            ) == number_at(enc.endian, data, o, 4) && u64_at(enc.endian, data, o) == number_at(
                enc.endian,
                data,
                o,
                8,
            ) by {
            lemma_number(enc.endian, data, o);
        }
        let off = raw.shoff as int;
        let n = shdr_len(enc.class);
        if raw.shoff != 0 && (p == 0xffff || s == 0 || raw.shstrndx == 0xffff) {
            let b = data.subrange(off, off + n);
            lemma_shdr_fields(enc, data, off);
        }
    }
}

/// The fields of the program header at `off`.
pub open spec fn phdr_reads(enc: Encoding, data: Seq<u8>, off: int, p: Phdr) -> bool {
    &&& p.p_type == field_at(enc, data, off, 4, off, 4)
    &&& p.flags == field_at(enc, data, off + 4, 4, off + 24, 4)
    &&& p.offset == field_at(enc, data, off + 8, 8, off + 4, 4)
    &&& p.vaddr == field_at(enc, data, off + 16, 8, off + 8, 4)
    &&& p.paddr == field_at(enc, data, off + 24, 8, off + 12, 4)
    &&& p.filesz == field_at(enc, data, off + 32, 8, off + 16, 4)
    &&& p.memsz == field_at(enc, data, off + 40, 8, off + 20, 4)
    &&& p.align == field_at(enc, data, off + 48, 8, off + 28, 4)
}

/// The fields of the section header at `off`.
pub open spec fn shdr_reads(enc: Encoding, data: Seq<u8>, off: int, h: Shdr) -> bool {
    &&& h.name == field_at(enc, data, off, 4, off, 4)
    &&& h.sh_type == field_at(enc, data, off + 4, 4, off + 4, 4)
    &&& h.flags == field_at(enc, data, off + 8, 8, off + 8, 4)
    &&& h.addr == field_at(enc, data, off + 16, 8, off + 12, 4)
    &&& h.offset == field_at(enc, data, off + 24, 8, off + 16, 4)
    &&& h.size == field_at(enc, data, off + 32, 8, off + 20, 4)
    &&& h.link == field_at(enc, data, off + 40, 4, off + 24, 4)
    &&& h.info == field_at(enc, data, off + 44, 4, off + 28, 4)
    &&& h.addralign == field_at(enc, data, off + 48, 8, off + 32, 4)
    &&& h.entsize == field_at(enc, data, off + 56, 8, off + 36, 4)
}

proof fn lemma_number_shift(e: Endian, s: Seq<u8>, a: int, b: int, o: int, n: nat)
    requires
        0 <= a <= b <= s.len(),
        0 <= o,
        o + n <= b - a,
    ensures
        number_at(e, s.subrange(a, b), o, n) == number_at(e, s, a + o, n),
    decreases n,
{
    if n > 0 {
        if e is Little {
            lemma_number_shift(e, s, a, b, o + 1, (n - 1) as nat);
            assert(s.subrange(a, b)[o] == s[a + o]);
        } else {
            lemma_number_shift(e, s, a, b, o, (n - 1) as nat);
            assert(s.subrange(a, b)[o + n - 1] == s[a + o + n - 1]);
        }
    }
}

proof fn lemma_word(enc: Encoding, s: Seq<u8>, o: int)
    ensures
        word_at(enc.class, enc.endian, s, o) == field_at(enc, s, o, 8, o, 4),
{
    lemma_number(enc.endian, s, o);
}

proof fn lemma_field_shift(
    enc: Encoding,
    s: Seq<u8>,
    a: int,
    b: int,
    o: int,
    w: nat,
    x: int,
    y: nat,
)
    requires
        0 <= a <= b <= s.len(),
        enc.class is Elf64 ==> 0 <= o && o + w <= b - a,
        enc.class is Elf32 ==> 0 <= x && x + y <= b - a,
    ensures
        field_at(enc, s.subrange(a, b), o, w, x, y) == field_at(enc, s, a + o, w, a + x, y),
{
    if enc.class is Elf64 {
        lemma_number_shift(enc.endian, s, a, b, o, w);
    } else {
        lemma_number_shift(enc.endian, s, a, b, x, y);
    }
}

proof fn lemma_shdr_fields(enc: Encoding, data: Seq<u8>, off: int)
    requires
        0 <= off,
        off + shdr_len(enc.class) <= data.len(),
    ensures
        shdr_reads(
            enc,
            data,
            off,
            shdr_at(enc.class, enc.endian, data.subrange(off, off + shdr_len(enc.class))),
        ),
{
    let n = off + shdr_len(enc.class);
    let b = data.subrange(off, n);
    reveal(shdr_at);
    lemma_number(enc.endian, b, 0);
    lemma_number(enc.endian, b, 4);
    lemma_word(enc, b, 8);
    if enc.class is Elf64 {
        lemma_word(enc, b, 16);
        lemma_word(enc, b, 24);
        lemma_word(enc, b, 32);
        lemma_number(enc.endian, b, 40);
        lemma_number(enc.endian, b, 44);
        lemma_word(enc, b, 48);
        lemma_word(enc, b, 56);
    } else {
        lemma_word(enc, b, 12);
        lemma_word(enc, b, 16);
        lemma_word(enc, b, 20);
        lemma_number(enc.endian, b, 24);
        lemma_number(enc.endian, b, 28);
        lemma_word(enc, b, 32);
        lemma_word(enc, b, 36);
    }
    lemma_field_shift(enc, data, off, n, 0, 4, 0, 4);
    lemma_field_shift(enc, data, off, n, 4, 4, 4, 4);
    lemma_field_shift(enc, data, off, n, 8, 8, 8, 4);
    lemma_field_shift(enc, data, off, n, 16, 8, 12, 4);
    lemma_field_shift(enc, data, off, n, 24, 8, 16, 4);
    lemma_field_shift(enc, data, off, n, 32, 8, 20, 4);
    lemma_field_shift(enc, data, off, n, 40, 4, 24, 4);
    lemma_field_shift(enc, data, off, n, 44, 4, 28, 4);
    lemma_field_shift(enc, data, off, n, 48, 8, 32, 4);
    lemma_field_shift(enc, data, off, n, 56, 8, 36, 4);
}

proof fn lemma_phdr_fields(enc: Encoding, data: Seq<u8>, off: int)
    requires
        0 <= off,
        off + phdr_len(enc.class) <= data.len(),
    ensures
        phdr_reads(
            enc,
            data,
            off,
            phdr_at(enc.class, enc.endian, data.subrange(off, off + phdr_len(enc.class))),
        ),
{
    let n = off + phdr_len(enc.class);
    let b = data.subrange(off, n);
    reveal(phdr_at);
    lemma_number(enc.endian, b, 0);
    lemma_word(enc, b, 8);
    lemma_word(enc, b, 16);
    if enc.class is Elf64 {
        lemma_number(enc.endian, b, 4);
        lemma_word(enc, b, 24);
        lemma_word(enc, b, 32);
        lemma_word(enc, b, 40);
        lemma_word(enc, b, 48);
    } else {
        lemma_number(enc.endian, b, 24);
        lemma_word(enc, b, 4);
        lemma_word(enc, b, 12);
        lemma_word(enc, b, 20);
        lemma_word(enc, b, 28);
    }
    lemma_field_shift(enc, data, off, n, 0, 4, 0, 4);
    lemma_field_shift(enc, data, off, n, 4, 4, 24, 4);
    lemma_field_shift(enc, data, off, n, 8, 8, 4, 4);
    lemma_field_shift(enc, data, off, n, 16, 8, 8, 4);
    lemma_field_shift(enc, data, off, n, 24, 8, 12, 4);
    lemma_field_shift(enc, data, off, n, 32, 8, 16, 4);
    lemma_field_shift(enc, data, off, n, 40, 8, 20, 4);
    lemma_field_shift(enc, data, off, n, 48, 8, 28, 4);
}

proof fn lemma_phdr_table(data: Seq<u8>, enc: Encoding, off: int, n: int, i: int)
    requires
        0 <= off,
        0 <= i < n,
        phdr_table(data, enc, off, n) is Ok,
    ensures
        phdr_table(data, enc, off, n)->Ok_0.len() == n,
        phdr_reads(
            enc,
            data,
            off + i * (if enc.class is Elf64 {
                56int
            } else {
                32
            }),
            phdr_table(data, enc, off, n)->Ok_0[i],
        ),
    decreases n,
{
    if i < n - 1 {
        lemma_phdr_table(data, enc, off, n - 1, i);
    } else {
        let at = off + (n - 1) * phdr_len(enc.class);
        assert(0 <= (n - 1) * phdr_len(enc.class)) by (nonlinear_arith)
            requires
                n >= 1,
                phdr_len(enc.class) >= 0,
        ;
        lemma_phdr_fields(enc, data, at);
        lemma_phdr_count(data, enc, off, n - 1);
    }
}

proof fn lemma_phdr_count(data: Seq<u8>, enc: Encoding, off: int, n: int)
    requires
        0 <= n,
        phdr_table(data, enc, off, n) is Ok,
    ensures
        phdr_table(data, enc, off, n)->Ok_0.len() == n,
    decreases n,
{
    if n > 0 {
        lemma_phdr_count(data, enc, off, n - 1);
    }
}

proof fn lemma_shdr_table(data: Seq<u8>, enc: Encoding, off: int, n: int, i: int)
    requires
        0 <= off,
        0 <= i < n,
        shdr_table(data, enc, off, n) is Ok,
    ensures
        shdr_table(data, enc, off, n)->Ok_0.len() == n,
        shdr_reads(
            enc,
            data,
            off + i * (if enc.class is Elf64 {
                64int
            } else {
                40
            }),
            shdr_table(data, enc, off, n)->Ok_0[i],
        ),
    decreases n,
{
    if i < n - 1 {
        lemma_shdr_table(data, enc, off, n - 1, i);
    } else {
        let at = off + (n - 1) * shdr_len(enc.class);
        assert(0 <= (n - 1) * shdr_len(enc.class)) by (nonlinear_arith)
            requires
                n >= 1,
                shdr_len(enc.class) >= 0,
        ;
        lemma_shdr_fields(enc, data, at);
        lemma_shdr_count(data, enc, off, n - 1);
    }
}

proof fn lemma_shdr_count(data: Seq<u8>, enc: Encoding, off: int, n: int)
    requires
        0 <= n,
        shdr_table(data, enc, off, n) is Ok,
    ensures
        shdr_table(data, enc, off, n)->Ok_0.len() == n,
    decreases n,
{
    if n > 0 {
        lemma_shdr_count(data, enc, off, n - 1);
    }
}

/// The program headers stand one behind the other where the file header says, each read by
/// its fields.
pub proof fn law_segments_are_read(data: Seq<u8>, i: int)
    ensures
        parsed(data) matches Ok(v) ==> 0 <= i < v.phdrs.len() ==> phdr_reads(
            v.enc,
            data,
            v.ehdr.phoff + i * (if v.enc.class is Elf64 {
                56int
            } else {
                32
            }),
            v.phdrs[i],
        ),
{
    if let Ok(v) = parsed(data) {
        if 0 <= i < v.phdrs.len() {
            lemma_parsed(data);
            lemma_phdr_table(data, v.enc, v.ehdr.phoff as int, v.phdrs.len() as int, i);
        }
    }
}

/// The section headers stand one behind the other where the file header says, each read by
/// its fields. A section holds the bytes at its offset, as many as its size says; one that
/// takes no place in the file holds none.
pub proof fn law_sections_are_read(data: Seq<u8>, i: int)
    ensures
        parsed(data) matches Ok(v) ==> 0 <= i < v.shdrs.len() ==> {
            &&& shdr_reads(
                v.enc,
                data,
                v.ehdr.shoff + i * (if v.enc.class is Elf64 {
                    64int
                } else {
                    40
                }),
                v.shdrs[i],
            )
            &&& v.sections.len() == v.shdrs.len()
            &&& v.shdrs[i].sh_type == 8 ==> v.sections[i].len() == 0
            &&& v.shdrs[i].sh_type != 8 ==> v.shdrs[i].offset + v.shdrs[i].size <= data.len()
                && v.sections[i] == data.subrange(
                v.shdrs[i].offset as int,
                v.shdrs[i].offset + v.shdrs[i].size,
            )
        },
{
    if let Ok(v) = parsed(data) {
        if 0 <= i < v.shdrs.len() {
            lemma_parsed(data);
            lemma_shdr_table(data, v.enc, v.ehdr.shoff as int, v.shdrs.len() as int, i);
            lemma_section_at(data, v.shdrs, v.shdrs.len() as int, i);
        }
    }
}

proof fn lemma_section_at(data: Seq<u8>, shdrs: Seq<Shdr>, n: int, i: int)
    requires
        0 <= i < n <= shdrs.len(),
        section_bytes(data, shdrs, n) is Ok,
    ensures
        ({
            let got = section_bytes(data, shdrs, n)->Ok_0;
            &&& got.len() == n
            &&& shdrs[i].sh_type == 8 ==> got[i].len() == 0
            &&& shdrs[i].sh_type != 8 ==> shdrs[i].offset + shdrs[i].size <= data.len() && got[i]
                == data.subrange(shdrs[i].offset as int, shdrs[i].offset + shdrs[i].size)
        }),
    decreases n,
{
    if i < n - 1 {
        lemma_section_at(data, shdrs, n - 1, i);
    } else {
        lemma_section_count(data, shdrs, n - 1);
    }
}

proof fn lemma_section_count(data: Seq<u8>, shdrs: Seq<Shdr>, n: int)
    requires
        0 <= n,
        section_bytes(data, shdrs, n) is Ok,
    ensures
        section_bytes(data, shdrs, n)->Ok_0.len() == n,
    decreases n,
{
    if n > 0 {
        lemma_section_count(data, shdrs, n - 1);
    }
}

/// The dynamic entries are those in the first section of their type, or, where there is none,
/// in the first segment of theirs.
pub proof fn law_dynamic_is_read(data: Seq<u8>, k: int)
    ensures
        parsed(data) matches Ok(v) ==> {
            let none = forall|i: int|
                0 <= i < v.shdrs.len() ==> (#[trigger] v.shdrs[i]).sh_type != 6;
            let n: int = if v.enc.class is Elf64 {
                16
            } else {
                8
            };
            &&& 0 <= k < v.shdrs.len() && v.shdrs[k].sh_type == 6 && (forall|i: int|
                0 <= i < k ==> (#[trigger] v.shdrs[i]).sh_type != 6) ==> v.shdrs[k].size as int % n
                == 0 && v.dynamic == dyn_entries(
                v.enc,
                data.subrange(v.shdrs[k].offset as int, v.shdrs[k].offset + v.shdrs[k].size),
            )
            &&& none && 0 <= k < v.phdrs.len() && v.phdrs[k].p_type == 2 && (forall|i: int|
                0 <= i < k ==> (#[trigger] v.phdrs[i]).p_type != 2) ==> v.dynamic == dyn_entries(
                v.enc,
                data.subrange(
                    v.phdrs[k].offset as int,
                    v.phdrs[k].offset + v.phdrs[k].filesz - v.phdrs[k].filesz as int % n,
                ),
            )
            &&& none && (forall|i: int|
                0 <= i < v.phdrs.len() ==> (#[trigger] v.phdrs[i]).p_type != 2)
                ==> v.dynamic.len() == 0
        },
{
    if let Ok(v) = parsed(data) {
        lemma_parsed(data);
        if 0 <= k < v.shdrs.len() && v.shdrs[k].sh_type == 6 && (forall|i: int|
            0 <= i < k ==> (#[trigger] v.shdrs[i]).sh_type != 6) {
            lemma_first_is(v.shdrs, section_type(6), 0, k);
        }
        if forall|i: int| 0 <= i < v.shdrs.len() ==> (#[trigger] v.shdrs[i]).sh_type != 6 {
            lemma_first_none(v.shdrs, section_type(6), 0);
            if 0 <= k < v.phdrs.len() && v.phdrs[k].p_type == 2 && (forall|i: int|
                0 <= i < k ==> (#[trigger] v.phdrs[i]).p_type != 2) {
                lemma_first_is(v.phdrs, segment_type(2), 0, k);
            }
            if forall|i: int| 0 <= i < v.phdrs.len() ==> (#[trigger] v.phdrs[i]).p_type != 2 {
                lemma_first_none(v.phdrs, segment_type(2), 0);
            }
        }
    }
}

/// The encoding that the first bytes of a file name.
pub open spec fn encoding_of(data: Seq<u8>) -> Encoding {
    Encoding {
        class: if data[4] == 2 {
            Class::Elf64
        } else {
            Class::Elf32
        },
        endian: if data[5] == 1 {
            Endian::Little
        } else {
            Endian::Big
        },
    }
}

/// Whether a file begins as it has to, with a header of its class.
pub open spec fn begins_well(data: Seq<u8>) -> bool {
    &&& data.len() >= 52
    &&& data.take(4) == seq![0x7fu8, 0x45u8, 0x4cu8, 0x46u8]
    &&& data[4] == 1 || (data[4] == 2 && data.len() >= 64)
    &&& data[5] == 1 || data[5] == 2
}

/// Whether program header `i`, where it is that of the dynamic array, has its bytes in the
/// file.
pub open spec fn segment_inside(data: Seq<u8>, i: int) -> bool {
    let e = encoding_of(data);
    let off = field_at(e, data, 32, 8, 28, 4) + i * (if e.class is Elf64 {
        56int
    } else {
        32
    });
    field_at(e, data, off, 4, off, 4) == 2 ==> field_at(e, data, off + 8, 8, off + 4, 4) + field_at(
        e,
        data,
        off + 32,
        8,
        off + 16,
        4,
    ) <= data.len()
}

/// Whether section `i` has its bytes in the file, and, where it has the dynamic array, a whole
/// number of entries.
pub open spec fn section_inside(data: Seq<u8>, i: int) -> bool {
    let e = encoding_of(data);
    let off = field_at(e, data, 40, 8, 32, 4) + i * (if e.class is Elf64 {
        64int
    } else {
        40
    });
    let t = field_at(e, data, off + 4, 4, off + 4, 4);
    let size = field_at(e, data, off + 32, 8, off + 20, 4);
    &&& t != 8 ==> field_at(e, data, off + 24, 8, off + 16, 4) + size <= data.len()
    &&& t == 6 ==> size % (if e.class is Elf64 {
        16int
    } else {
        8
    }) == 0
}

/// A file is read where it begins as it has to, its counts have room in its header, and its
/// tables, its sections and its dynamic array are inside it, whatever else it holds.
pub proof fn law_file_is_accepted(data: Seq<u8>)
    requires
        data.len() <= usize::MAX,
        begins_well(data),
        ({
            let e = encoding_of(data);
            let phoff = field_at(e, data, 32, 8, 28, 4);
            let shoff = field_at(e, data, 40, 8, 32, 4);
            let phnum = field_at(e, data, 56, 2, 44, 2);
            let shnum = field_at(e, data, 60, 2, 48, 2);
            let p: int = if e.class is Elf64 {
                56
            } else {
                32
            };
            let s: int = if e.class is Elf64 {
                64
            } else {
                40
            };
            &&& phnum != 0xffff && field_at(e, data, 62, 2, 50, 2) != 0xffff
            &&& shnum != 0 || shoff == 0
            &&& phoff + phnum * p <= data.len()
            &&& shoff + shnum * s <= data.len()
            &&& forall|i: int| 0 <= i < phnum ==> #[trigger] segment_inside(data, i)
            &&& forall|i: int| 0 <= i < shnum ==> #[trigger] section_inside(data, i)
        }),
    ensures
        parsed(data) is Ok,
{
    let e = encoding_of(data);
    assert(data.take(4)[0] == data[0] && data.take(4)[1] == data[1] && data.take(4)[2] == data[2]
        && data.take(4)[3] == data[3]);
    reveal(header_at);
    let c = e.class;
    let n = e.endian;
    if c is Elf64 {
        lemma_number(n, data, 32);
        lemma_number(n, data, 40);
        lemma_number(n, data, 56);
        lemma_number(n, data, 60);
        lemma_number(n, data, 62);
    } else {
        lemma_number(n, data, 28);
        lemma_number(n, data, 32);
        lemma_number(n, data, 44);
        lemma_number(n, data, 48);
        lemma_number(n, data, 50);
    }
    let (h, enc, phnum, shnum) = ehdr_at(data)->Ok_0;
    assert(ehdr_at(data) is Ok && enc == e);
    lemma_phdrs_fit(data, e, h.phoff as int, phnum as int);
    lemma_shdrs_fit(data, e, h.shoff as int, shnum as int);
    let phdrs = phdr_table(data, e, h.phoff as int, phnum as int)->Ok_0;
    let shdrs = shdr_table(data, e, h.shoff as int, shnum as int)->Ok_0;
    lemma_phdr_count(data, e, h.phoff as int, phnum as int);
    lemma_shdr_count(data, e, h.shoff as int, shnum as int);
    assert forall|i: int| 0 <= i < shdrs.len() implies ((#[trigger] shdrs[i]).sh_type != 8
        ==> shdrs[i].offset + shdrs[i].size <= data.len()) && (shdrs[i].sh_type == 6
        ==> shdrs[i].size as int % dyn_len(c) == 0) by {
        lemma_shdr_table(data, e, h.shoff as int, shnum as int, i);
        assert(section_inside(data, i));
    }
    assert forall|i: int| 0 <= i < phdrs.len() implies ((#[trigger] phdrs[i]).p_type == 2
        ==> phdrs[i].offset + phdrs[i].filesz <= data.len()) by {
        lemma_phdr_table(data, e, h.phoff as int, phnum as int, i);
        assert(segment_inside(data, i));
    }
    lemma_sections_fit(data, shdrs, shdrs.len() as int);
    lemma_first_from(shdrs, section_type(6), 0);
    lemma_first_from(phdrs, segment_type(2), 0);
    if let Some(k) = first(shdrs, section_type(6)) {
        assert(section_type(6)(shdrs[k]));
    } else if let Some(k) = first(phdrs, segment_type(2)) {
        assert(segment_type(2)(phdrs[k]));
        vstd::arithmetic::div_mod::lemma_mod_bound(phdrs[k].filesz as int, dyn_len(c));
    }
}

proof fn lemma_phdrs_fit(data: Seq<u8>, enc: Encoding, off: int, n: int)
    requires
        0 <= off,
        data.len() <= usize::MAX,
        0 <= n,
        off + n * phdr_len(enc.class) <= data.len(),
    ensures
        phdr_table(data, enc, off, n) is Ok,
    decreases n,
{
    if n > 0 {
        assert(n * phdr_len(enc.class) == (n - 1) * phdr_len(enc.class) + phdr_len(enc.class))
            by (nonlinear_arith);
        assert((n - 1) * phdr_len(enc.class) >= 0) by (nonlinear_arith)
            requires
                n >= 1,
                phdr_len(enc.class) >= 0,
        ;
        lemma_phdrs_fit(data, enc, off, n - 1);
    }
}

proof fn lemma_shdrs_fit(data: Seq<u8>, enc: Encoding, off: int, n: int)
    requires
        0 <= off,
        data.len() <= usize::MAX,
        0 <= n,
        off + n * shdr_len(enc.class) <= data.len(),
    ensures
        shdr_table(data, enc, off, n) is Ok,
    decreases n,
{
    if n > 0 {
        assert(n * shdr_len(enc.class) == (n - 1) * shdr_len(enc.class) + shdr_len(enc.class))
            by (nonlinear_arith);
        assert((n - 1) * shdr_len(enc.class) >= 0) by (nonlinear_arith)
            requires
                n >= 1,
                shdr_len(enc.class) >= 0,
        ;
        lemma_shdrs_fit(data, enc, off, n - 1);
    }
}

proof fn lemma_sections_fit(data: Seq<u8>, shdrs: Seq<Shdr>, n: int)
    requires
        0 <= n <= shdrs.len(),
        data.len() <= usize::MAX,
        forall|i: int|
            0 <= i < shdrs.len() && (#[trigger] shdrs[i]).sh_type != 8 ==> shdrs[i].offset
                + shdrs[i].size <= data.len(),
    ensures
        section_bytes(data, shdrs, n) is Ok,
    decreases n,
{
    if n > 0 {
        lemma_sections_fit(data, shdrs, n - 1);
    }
}

/// The name of a symbol is the text in the strings where the first field of its record says;
/// the records stand one behind the other.
pub proof fn law_symbol_is_named(v: ImageView, syms: Seq<u8>, strs: Seq<u8>, i: int, t: Seq<char>)
    ensures
        ({
            let n: int = if v.enc.class is Elf64 {
                24
            } else {
                16
            };
            let off = number_at(v.enc.endian, syms, i * n, 4);
            &&& sym_count(v.enc.class, syms) == syms.len() as int / n
            &&& sym_name_offset(v, syms, i) == off
            &&& string_at(strs, off, t) ==> sym_bytes(v, syms, strs, i) == encode_utf8(t)
        }),
{
    let n: int = if v.enc.class is Elf64 {
        24
    } else {
        16
    };
    lemma_number(v.enc.endian, syms, i * n);
    let off = number_at(v.enc.endian, syms, i * n, 4);
    let b = encode_utf8(t);
    if string_at(strs, off, t) {
        assert forall|j: int| off <= j < off + b.len() implies #[trigger] strs[j] != 0 by {
            assert(strs.subrange(off, off + b.len())[j - off] == strs[j]);
        }
        lemma_str_end_is(strs, off, off + b.len());
    }
}

} // verus!
