//! Records of an ELF file: reading, writing, and what does not fit.
use formatelf::codec::{
    read_dyn, read_ehdr, read_phdr, read_shdr, write_dyn, write_ehdr, write_phdr, write_shdr,
    dyn_size, ehdr_size, endianness, phdr_size, shdr_size, PN_XNUM, SHN_XINDEX,
};
use formatelf::error::Error;
use formatelf::ir::{Class, DynEntry, Ehdr, Encoding, Endian, Phdr, Shdr};

fn encodings() -> Vec<Encoding> {
    let mut out = Vec::new();
    for class in [Class::Elf32, Class::Elf64] {
        for endian in [Endian::Little, Endian::Big] {
            out.push(Encoding { class, endian });
        }
    }
    out
}

fn header(enc: Encoding) -> Ehdr {
    let mut ident = [0u8; 16];
    ident[..4].copy_from_slice(b"\x7fELF");
    ident[4] = if enc.class == Class::Elf64 { 2 } else { 1 };
    ident[5] = if enc.endian == Endian::Big { 2 } else { 1 };
    ident[6] = 1;
    ident[7] = 3;
    ident[8] = 9;
    ident[15] = 0xaa;
    Ehdr {
        e_type: 3,
        machine: 0x1234,
        version: 0x0102_0304,
        entry: 0x1122_3344,
        phoff: 0x40,
        shoff: 0x5566,
        flags: 0x7788_99aa,
        ehsize: 64,
        phentsize: 56,
        shentsize: 0x4142,
        shstrndx: 7,
        os_abi: 3,
        abi_version: 9,
        ident,
    }
}

#[test]
fn extended_counts_use_section0_escapes() {
    let enc = Encoding {
        class: Class::Elf64,
        endian: Endian::Little,
    };
    let mut ident = [0u8; 16];
    ident[..4].copy_from_slice(b"\x7fELF");
    ident[4] = 2; // ELFCLASS64
    ident[5] = 1; // little-endian
    let h = Ehdr {
        e_type: 2,
        machine: 62,
        version: 1,
        entry: 0,
        phoff: 0,
        shoff: 64,
        flags: 0,
        ehsize: 64,
        phentsize: 56,
        shentsize: 64,
        shstrndx: 0x1_0000,
        os_abi: 0,
        abi_version: 0,
        ident,
    };
    let mut out = Vec::new();
    write_ehdr(enc, &h, 0x1_0000, 0x1_0000, &mut out).unwrap();
    // read_ehdr returns the raw on-disk fields, which must carry the escapes.
    let (got, _, phnum, shnum) = read_ehdr(&out).unwrap();
    assert_eq!(phnum, PN_XNUM);
    assert_eq!(shnum, 0);
    assert_eq!(got.shstrndx, SHN_XINDEX as u32);
}

#[test]
fn elf32_rejects_oversized_offset() {
    let enc = Encoding {
        class: Class::Elf32,
        endian: Endian::Little,
    };
    let s = Shdr {
        name: 0,
        sh_type: 1,
        flags: 0,
        addr: 0,
        offset: 0x1_0000_0000, // > u32::MAX
        size: 0,
        link: 0,
        info: 0,
        addralign: 0,
        entsize: 0,
    };
    let mut out = Vec::new();
    assert!(write_shdr(enc, &s, &mut out).is_err());
    assert!(out.is_empty());
}

#[test]
fn a_field_that_is_too_wide_is_named() {
    let enc = Encoding { class: Class::Elf32, endian: Endian::Big };
    let p = Phdr {
        p_type: 1, flags: 5, offset: 1, vaddr: 2, paddr: 3, filesz: 4, memsz: 0x1_2345_6789, align: 6,
    };
    let mut out = vec![1, 2];
    match write_phdr(enc, &p, &mut out) {
        Err(Error::Serialize(t)) => {
            assert_eq!(t, "p_memsz value 0x123456789 overflows 32-bit ELF field");
        }
        other => panic!("{other:?}"),
    }
    assert_eq!(out, vec![1, 2]);
    let d = DynEntry { tag: 1, val: u64::MAX };
    match write_dyn(enc, &d, &mut out) {
        Err(Error::Serialize(t)) => {
            assert_eq!(t, "d_val value 0xffffffffffffffff overflows 32-bit ELF field");
        }
        other => panic!("{other:?}"),
    }
    let mut h = header(enc);
    h.entry = 0x1_0000_0000;
    h.shoff = 0x1_0000_0000;
    match write_ehdr(enc, &h, 1, 1, &mut out) {
        Err(Error::Serialize(t)) => {
            assert_eq!(t, "e_entry value 0x100000000 overflows 32-bit ELF field");
        }
        other => panic!("{other:?}"),
    }
}

#[test]
fn sizes_are_those_of_the_format() {
    assert_eq!((phdr_size(Class::Elf64), phdr_size(Class::Elf32)), (56, 32));
    assert_eq!((shdr_size(Class::Elf64), shdr_size(Class::Elf32)), (64, 40));
    assert_eq!((dyn_size(Class::Elf64), dyn_size(Class::Elf32)), (16, 8));
    assert_eq!((ehdr_size(Class::Elf64), ehdr_size(Class::Elf32)), (64, 52));
    assert_eq!(endianness(Endian::Big), object::Endianness::Big);
    assert_eq!(endianness(Endian::Little), object::Endianness::Little);
}

#[test]
fn file_headers_read_back() {
    for enc in encodings() {
        let h = header(enc);
        let mut out = Vec::new();
        write_ehdr(enc, &h, 9, 11, &mut out).unwrap();
        assert_eq!(out.len(), ehdr_size(enc.class));
        assert_eq!(&out[..16], &h.ident);
        let (got, e, phnum, shnum) = read_ehdr(&out).unwrap();
        assert_eq!(e, enc);
        assert_eq!((phnum, shnum), (9, 11));
        assert_eq!(format!("{got:?}"), format!("{h:?}"));
    }
}

#[test]
fn file_header_bytes_are_in_their_places() {
    let enc = Encoding { class: Class::Elf32, endian: Endian::Big };
    let mut out = Vec::new();
    write_ehdr(enc, &header(enc), 9, 11, &mut out).unwrap();
    assert_eq!(&out[16..24], &[0, 3, 0x12, 0x34, 1, 2, 3, 4]);
    assert_eq!(&out[24..36], &[0x11, 0x22, 0x33, 0x44, 0, 0, 0, 0x40, 0, 0, 0x55, 0x66]);
    assert_eq!(
        &out[36..52],
        &[0x77, 0x88, 0x99, 0xaa, 0, 64, 0, 56, 0, 9, 0x41, 0x42, 0, 11, 0, 7]
    );
    let enc = Encoding { class: Class::Elf64, endian: Endian::Little };
    let mut out = Vec::new();
    write_ehdr(enc, &header(enc), 9, 11, &mut out).unwrap();
    assert_eq!(&out[24..32], &[0x44, 0x33, 0x22, 0x11, 0, 0, 0, 0]);
    assert_eq!(&out[40..48], &[0x66, 0x55, 0, 0, 0, 0, 0, 0]);
    assert_eq!(&out[56..64], &[9, 0, 0x42, 0x41, 11, 0, 7, 0]);
}

#[test]
fn program_headers_read_back_both_ways() {
    for enc in encodings() {
        let p = Phdr {
            p_type: 0x6474_e551,
            flags: 0x0102_0304,
            offset: 0x1112,
            vaddr: 0x2122_2324,
            paddr: 0x3132,
            filesz: 0x4142,
            memsz: 0x5152,
            align: 0x1000,
        };
        let mut out = Vec::new();
        write_phdr(enc, &p, &mut out).unwrap();
        assert_eq!(out.len(), phdr_size(enc.class));
        assert_eq!(read_phdr(enc, &out).unwrap(), p);
        let at = if enc.class == Class::Elf64 { 4 } else { 24 };
        let flags = if enc.endian == Endian::Big { [1, 2, 3, 4] } else { [4, 3, 2, 1] };
        assert_eq!(&out[at..at + 4], &flags);
        let bytes: Vec<u8> = (0..phdr_size(enc.class)).map(|i| (i * 7 + 1) as u8).collect();
        let mut again = Vec::new();
        write_phdr(enc, &read_phdr(enc, &bytes).unwrap(), &mut again).unwrap();
        assert_eq!(again, bytes);
        assert!(matches!(read_phdr(enc, &bytes[1..]), Err(Error::Parse(t)) if t == "truncated struct"));
    }
}

#[test]
fn section_headers_read_back_both_ways() {
    for enc in encodings() {
        let bytes: Vec<u8> = (0..shdr_size(enc.class)).map(|i| (i * 5 + 3) as u8).collect();
        let s = read_shdr(enc, &bytes).unwrap();
        let mut again = Vec::new();
        write_shdr(enc, &s, &mut again).unwrap();
        assert_eq!(again, bytes);
        assert_eq!(read_shdr(enc, &again).unwrap(), s);
        assert!(read_shdr(enc, &bytes[1..]).is_err());
    }
    let bytes: Vec<u8> = (0..64).collect();
    let enc = Encoding { class: Class::Elf64, endian: Endian::Big };
    let s = read_shdr(enc, &bytes).unwrap();
    assert_eq!(s.name, 0x0001_0203);
    assert_eq!(s.sh_type, 0x0405_0607);
    assert_eq!(s.addr, 0x1011_1213_1415_1617);
    assert_eq!(s.link, 0x2829_2a2b);
    assert_eq!(s.entsize, 0x3839_3a3b_3c3d_3e3f);
}

#[test]
fn dynamic_entries_read_back_both_ways() {
    for enc in encodings() {
        for d in [
            DynEntry { tag: 0, val: 0 },
            DynEntry { tag: 0x6fff_fef5, val: 0x1234_5678 },
            DynEntry { tag: -1, val: 7 },
            DynEntry { tag: i32::MIN as i64, val: 1 },
        ] {
            let mut out = Vec::new();
            write_dyn(enc, &d, &mut out).unwrap();
            assert_eq!(out.len(), dyn_size(enc.class));
            assert_eq!(read_dyn(enc, &out).unwrap(), d);
        }
        let bytes: Vec<u8> = (0..dyn_size(enc.class)).map(|i| 0xf0 + i as u8).collect();
        let mut again = Vec::new();
        write_dyn(enc, &read_dyn(enc, &bytes).unwrap(), &mut again).unwrap();
        assert_eq!(again, bytes);
        assert!(read_dyn(enc, &bytes[1..]).is_err());
    }
}

#[test]
fn a_file_that_is_no_elf_file_is_refused() {
    let text = |r: formatelf::error::Result<(Ehdr, Encoding, u16, u16)>| match r {
        Err(Error::Parse(t)) => format!("parse {t}"),
        Err(Error::Unsupported(t)) => format!("unsupported {t}"),
        other => panic!("{other:?}"),
    };
    assert_eq!(text(read_ehdr(b"")), "parse bad ELF magic");
    assert_eq!(text(read_ehdr(b"#!/bin/sh\nexit 0\n")), "parse bad ELF magic");
    let mut data = vec![0u8; 64];
    data[..4].copy_from_slice(b"\x7fELF");
    assert_eq!(text(read_ehdr(&data)), "unsupported EI_CLASS 0");
    data[4] = 2;
    data[5] = 200;
    assert_eq!(text(read_ehdr(&data)), "unsupported EI_DATA 200");
    data[5] = 2;
    assert!(read_ehdr(&data).is_ok());
    assert_eq!(text(read_ehdr(&data[..63])), "parse truncated struct");
    data[4] = 1;
    assert!(read_ehdr(&data[..52]).is_ok());
    assert_eq!(text(read_ehdr(&data[..51])), "parse truncated struct");
}
