//! Files: reading, editing, laying out and writing them.
use std::path::PathBuf;

use formatelf::autoformatelf::{
    is_separate_debug, parse_args, parse_lib, target_of, Arch, Cache, ParsedLib, Target, Wave,
};
use formatelf::cli::Operation;
use formatelf::codec;
use formatelf::constraints::validate;
use formatelf::error::Error;
use formatelf::facts::FileFact;
use formatelf::ir::{
    df1, dt, et, pf, pt, shf, sht, Class, DynEntry, Ehdr, ElfImage, Encoding, Endian, Phdr, Shdr,
};
use formatelf::layout::{finalize, layout_note};
use formatelf::ops::{self, apply, Modifiers, Report, Surroundings};
use formatelf::parser::parse;
use formatelf::patch::{patch_data, require_type};
use formatelf::probes::probes;
use formatelf::wiring::{candidates, dependencies, patch_one};
use formatelf::symbols::{gnu_hash, parse_symbol_map, rename_dynamic_symbols, sysv_hash};
use formatelf::{ldcache, rpath, serialize};
use proptest::arbitrary::any;
use proptest::strategy::Strategy;
use proptest::test_runner::{Config, TestCaseError, TestRunner};

const SYMBOLS: [&str; 5] = ["", "alpha", "beta", "gamma", "delta"];

fn encodings() -> Vec<Encoding> {
    let mut out = Vec::new();
    for class in [Class::Elf64, Class::Elf32] {
        for endian in [Endian::Little, Endian::Big] {
            out.push(Encoding { class, endian });
        }
    }
    out
}

fn le64() -> Encoding {
    Encoding { class: Class::Elf64, endian: Endian::Little }
}

fn u16b(e: Encoding, v: u16) -> Vec<u8> {
    if e.endian == Endian::Big { v.to_be_bytes().to_vec() } else { v.to_le_bytes().to_vec() }
}

fn u32b(e: Encoding, v: u32) -> Vec<u8> {
    if e.endian == Endian::Big { v.to_be_bytes().to_vec() } else { v.to_le_bytes().to_vec() }
}

fn u64b(e: Encoding, v: u64) -> Vec<u8> {
    if e.endian == Endian::Big { v.to_be_bytes().to_vec() } else { v.to_le_bytes().to_vec() }
}

fn wordb(e: Encoding, v: u64) -> Vec<u8> {
    if e.class == Class::Elf64 { u64b(e, v) } else { u32b(e, v as u32) }
}

/// A string table and the places of its strings.
fn strtab(names: &[&str]) -> (Vec<u8>, Vec<u32>) {
    let mut tab = vec![0u8];
    let mut at = Vec::new();
    for n in names {
        if n.is_empty() {
            at.push(0);
        } else {
            at.push(tab.len() as u32);
            tab.extend_from_slice(n.as_bytes());
            tab.push(0);
        }
    }
    (tab, at)
}

fn symbol(e: Encoding, name: u32, value: u64) -> Vec<u8> {
    let mut out = u32b(e, name);
    if e.class == Class::Elf64 {
        out.extend([0x12, 0, 0, 0]);
        out.extend(u64b(e, value));
        out.extend(u64b(e, 4));
    } else {
        out.extend(u32b(e, value as u32));
        out.extend(u32b(e, 4));
        out.extend([0x12, 0, 0, 0]);
    }
    out
}

fn reloc(e: Encoding, offset: u64, sym: u64) -> Vec<u8> {
    let mut out = wordb(e, offset);
    out.extend(wordb(e, if e.class == Class::Elf64 { (sym << 32) | 6 } else { (sym << 8) | 6 }));
    out.extend(wordb(e, 0));
    out
}

struct Section {
    name: &'static str,
    sh_type: u32,
    flags: u64,
    link: u32,
    data: Vec<u8>,
}

const NAMES: [&str; 12] = [
    "", ".interp", ".dynsym", ".dynstr", ".gnu.version", ".gnu.hash", ".hash", ".rela.dyn", ".text",
    ".dynamic", ".bss", ".shstrtab",
];

/// A small shared object with everything that the operations look at.
fn sample_image(e: Encoding) -> (ElfImage, u64) {
    let (dynstr, at) = strtab(&[
        "libc.so.6", "libm.so.6", "libx.so.1", "/old/path/lib", "alpha", "beta", "gamma", "delta",
    ]);
    let mut dynsym = symbol(e, 0, 0);
    for i in 4..8 {
        dynsym.extend(symbol(e, at[i], 0));
    }
    let mut versions = Vec::new();
    for v in 0..5u16 {
        versions.extend(u16b(e, v + 1));
    }
    let mut gnu = u32b(e, 3);
    gnu.extend(u32b(e, 1));
    gnu.extend(u32b(e, 1));
    gnu.extend(u32b(e, 6));
    gnu.extend(wordb(e, 0));
    gnu.extend(vec![0; 4 * (3 + 4)]);
    let mut hash = u32b(e, 2);
    hash.extend(u32b(e, 5));
    hash.extend(vec![0; 4 * (2 + 5)]);
    let mut rela = Vec::new();
    for s in [1, 3, 4, 0] {
        rela.extend(reloc(e, 0x700, s));
    }
    let (names, name_at) = strtab(&NAMES);
    let raw = |name, sh_type, flags, link, data| Section { name, sh_type, flags, link, data };
    let mut sections = vec![
        raw("", 0, 0, 0, vec![]),
        raw(".interp", 1, shf::ALLOC, 0, b"/lib/ld.so\0".to_vec()),
        raw(".dynsym", sht::DYNSYM, shf::ALLOC, 3, dynsym),
        raw(".dynstr", sht::STRTAB, shf::ALLOC, 0, dynstr),
        raw(".gnu.version", 0x6fff_ffff, shf::ALLOC, 2, versions),
        raw(".gnu.hash", 0x6fff_fff6, shf::ALLOC, 2, gnu),
        raw(".hash", 5, shf::ALLOC, 2, hash),
        raw(".rela.dyn", sht::RELA, shf::ALLOC, 2, rela),
        raw(".text", 1, shf::ALLOC, 0, vec![0x90; 32]),
        raw(".dynamic", sht::DYNAMIC, shf::ALLOC, 3, vec![]),
        raw(".bss", sht::NOBITS, shf::ALLOC, 0, vec![]),
        raw(".shstrtab", sht::STRTAB, 0, 0, names),
    ];
    let unit = codec::dyn_size(e.class);
    sections[9].data = vec![0; unit * 11];
    let phnum = 4;
    let mut cur = (codec::ehdr_size(e.class) + phnum * codec::phdr_size(e.class)) as u64;
    let mut shdrs = Vec::new();
    for (i, s) in sections.iter().enumerate() {
        cur = cur.div_ceil(16) * 16;
        let null = s.name.is_empty();
        let size = if s.sh_type == sht::NOBITS { 64 } else { s.data.len() as u64 };
        shdrs.push(Shdr {
            name: name_at[i],
            sh_type: s.sh_type,
            flags: s.flags,
            addr: if null || s.flags == 0 { 0 } else { cur },
            offset: if null { 0 } else { cur },
            size,
            link: s.link,
            info: 0,
            addralign: if null { 0 } else { 8 },
            entsize: 0,
        });
        cur += s.data.len() as u64;
    }
    let shoff = cur.div_ceil(16) * 16;
    let total = shoff + (sections.len() * codec::shdr_size(e.class)) as u64;
    let entry = |tag, val| DynEntry { tag, val };
    let dynamic = vec![
        entry(dt::NEEDED, at[0] as u64),
        entry(dt::NEEDED, at[1] as u64),
        entry(dt::SONAME, at[2] as u64),
        entry(dt::RUNPATH, at[3] as u64),
        entry(dt::STRTAB, shdrs[3].addr),
        entry(dt::SYMTAB, shdrs[2].addr),
        entry(dt::STRSZ, shdrs[3].size),
        entry(dt::GNU_HASH, shdrs[5].addr),
        entry(dt::HASH, shdrs[6].addr),
        entry(dt::RELA, shdrs[7].addr),
        entry(dt::NULL, 0),
    ];
    let mut bytes = Vec::new();
    for d in &dynamic {
        codec::write_dyn(e, d, &mut bytes).unwrap();
    }
    let mut section_data: Vec<Vec<u8>> = sections.into_iter().map(|s| s.data).collect();
    section_data[9] = bytes;
    let phoff = codec::ehdr_size(e.class) as u64;
    let table = (phnum * codec::phdr_size(e.class)) as u64;
    let seg = |p_type, flags, offset: u64, size: u64, align| Phdr {
        p_type, flags, offset, vaddr: offset, paddr: offset, filesz: size, memsz: size, align,
    };
    let phdrs = vec![
        seg(pt::PHDR, pf::R, phoff, table, 8),
        seg(pt::INTERP, pf::R, shdrs[1].offset, shdrs[1].size, 1),
        seg(pt::LOAD, pf::R | pf::W, 0, total, 0x1000),
        seg(pt::DYNAMIC, pf::R | pf::W, shdrs[9].offset, shdrs[9].size, 8),
    ];
    let mut ident = [0u8; 16];
    ident[..4].copy_from_slice(b"\x7fELF");
    ident[4] = if e.class == Class::Elf64 { 2 } else { 1 };
    ident[5] = if e.endian == Endian::Big { 2 } else { 1 };
    ident[6] = 1;
    let image = ElfImage {
        enc: e,
        ehdr: Ehdr {
            e_type: et::DYN,
            machine: 62,
            version: 1,
            entry: shdrs[8].addr,
            phoff,
            shoff,
            flags: 0,
            ehsize: codec::ehdr_size(e.class) as u16,
            phentsize: codec::phdr_size(e.class) as u16,
            shentsize: codec::shdr_size(e.class) as u16,
            shstrndx: 11,
            os_abi: 0,
            abi_version: 0,
            ident,
        },
        phdrs,
        shdrs,
        section_data,
        dynamic,
        dynstr_fallback: None,
        interp_fallback: None,
    };
    (image, total)
}

fn sample(e: Encoding) -> Vec<u8> {
    let (image, total) = sample_image(e);
    serialize::write(&image, &[], total).unwrap()
}

/// The sample without its section headers.
fn stripped() -> Vec<u8> {
    let mut data = sample(le64());
    data[40..48].fill(0); // e_shoff
    data[60..64].fill(0); // e_shnum, e_shstrndx
    data
}

fn mods() -> Modifiers {
    Modifiers { force_rpath: false, allowed_rpath_prefixes: Vec::new(), debug: false }
}

fn nowhere() -> Surroundings {
    Surroundings { files: Vec::new(), symbol_map: Ok(String::new()) }
}

fn report() -> Report {
    Report { lines: Vec::new(), warnings: Vec::new() }
}

fn patch(data: &[u8], ops: &[Operation]) -> Vec<u8> {
    patch_data(data, &ops.to_vec(), &mods(), &nowhere(), None).unwrap()
}

fn printed(data: &[u8], op: Operation) -> Vec<String> {
    let mut image = parse(data).unwrap();
    let mut r = report();
    apply(&mut image, &op, &mods(), &nowhere(), &mut r).unwrap();
    r.lines
}

fn rpath_of(data: &[u8]) -> String {
    rpath::read(&parse(data).unwrap()).unwrap()
}

fn same(a: &ElfImage, b: &ElfImage) -> bool {
    format!("{a:?}") == format!("{b:?}")
}

fn message(e: Error) -> String {
    match e {
        Error::Parse(t) => format!("parse: {t}"),
        Error::Unsupported(t) => format!("unsupported: {t}"),
        Error::Missing(t) => format!("missing: {t}"),
        Error::Serialize(t) => format!("serialize: {t}"),
        Error::Constraint(t) => format!("constraint: {t}"),
        Error::Cli(t) => format!("cli: {t}"),
        Error::Io { path, source } => format!("io: {path:?} {source}"),
    }
}

#[test]
fn identity_roundtrip() {
    for e in encodings() {
        let data = sample(e);
        let image = parse(&data).unwrap();
        assert!(validate(&image).is_ok());
        assert!(require_type(&image).is_ok());
        let out = serialize::write(&image, &data, data.len() as u64).unwrap();
        assert_eq!(out, data);
        let mut image = image;
        let out = finalize(&mut image, &data, None, false).unwrap();
        assert_eq!(out, data);
    }
}

#[test]
fn roundtrip_all_fixtures() {
    for e in encodings() {
        let data = sample(e);
        let img = parse(&data).unwrap();
        let mut buf = Vec::new();
        codec::write_ehdr(img.enc, &img.ehdr, img.phdrs.len(), img.shdrs.len(), &mut buf).unwrap();
        assert_eq!(buf, &data[..buf.len()]);
        for (i, p) in img.phdrs.iter().enumerate() {
            let off = img.ehdr.phoff as usize + i * codec::phdr_size(img.enc.class);
            let mut buf = Vec::new();
            codec::write_phdr(img.enc, p, &mut buf).unwrap();
            assert_eq!(buf, &data[off..off + buf.len()]);
        }
        for (i, s) in img.shdrs.iter().enumerate() {
            let off = img.ehdr.shoff as usize + i * codec::shdr_size(img.enc.class);
            let mut buf = Vec::new();
            codec::write_shdr(img.enc, s, &mut buf).unwrap();
            assert_eq!(buf, &data[off..off + buf.len()]);
        }
        let mut buf = Vec::new();
        for d in &img.dynamic {
            codec::write_dyn(img.enc, d, &mut buf).unwrap();
        }
        assert_eq!(buf, img.section_data[9]);
    }
}

#[test]
fn sections_have_their_names() {
    let image = parse(&sample(le64())).unwrap();
    for (i, n) in NAMES.iter().enumerate() {
        assert_eq!(image.section_name(i), Some(*n));
    }
    assert_eq!(image.find_section(".dynstr"), Some(3));
    assert_eq!(image.find_section(".nothing"), None);
    assert_eq!(image.section_name(99), None);
    assert!(image.has_dynamic());
    assert_eq!(image.dynstr().unwrap(), &image.section_data[3][..]);
    assert!(image.section_data[10].is_empty());
    assert_eq!(image.interp_fallback.as_deref(), Some(&b"/lib/ld.so\0"[..]));
    assert!(image.dynstr_fallback.is_none());
}

fn exercise(data: &[u8]) {
    if let Ok(mut image) = parse(data) {
        let _ = validate(&image);
        let _ = finalize(&mut image, data, None, false);
    }
}

#[test]
fn parse_never_panics_on_arbitrary_bytes() {
    TestRunner::new(Config::with_cases(512))
        .run(&proptest::collection::vec(any::<u8>(), 0..2048), |bytes| {
            exercise(&bytes);
            Ok(())
        })
        .unwrap();
}

#[test]
fn corrupted_files_are_survived() {
    for e in [encodings()[0], encodings()[3]] {
        let base = sample(e);
        let len = base.len();
        let edits = proptest::collection::vec((0..len, any::<u8>()), 0..8);
        TestRunner::new(Config::with_cases(200))
            .run(&(edits, len / 2..=len), |(edits, trunc)| {
                let mut data = base.clone();
                for (i, b) in edits {
                    data[i] = b;
                }
                data.truncate(trunc);
                if let Ok(image) = parse(&data) {
                    let _ = validate(&image);
                    let _ = layout_note(&image, &data);
                }
                Ok(())
            })
            .unwrap();
    }
}

#[test]
fn tables_that_do_not_fit_are_refused() {
    let base = sample(le64());
    let with = |at: usize, bytes: &[u8]| {
        let mut data = base.clone();
        data[at..at + bytes.len()].copy_from_slice(bytes);
        message(parse(&data).unwrap_err())
    };
    let end = (base.len() as u64).to_le_bytes();
    assert_eq!(with(32, &u64::MAX.to_le_bytes()), "parse: phdr: offset overflow");
    assert_eq!(with(32, &end), "parse: phdr: out of bounds");
    assert_eq!(with(40, &u64::MAX.to_le_bytes()), "parse: shdr: offset overflow");
    assert_eq!(with(40, &end), "parse: shdr: out of bounds");
    let shoff = u64::from_le_bytes(base[40..48].try_into().unwrap()) as usize;
    let section = |k: usize, field: usize| shoff + 64 * k + field;
    assert_eq!(with(section(2, 24), &end), "parse: section: out of bounds");
    assert_eq!(with(section(2, 24), &u64::MAX.to_le_bytes()), "parse: section: offset overflow");
    assert_eq!(with(section(9, 32), &175u64.to_le_bytes()), "parse: malformed .dynamic");
    // A count of zero with a section table escapes to section 0, which has none.
    let mut data = base.clone();
    data[60..62].fill(0);
    assert_eq!(parse(&data).unwrap().shdrs.len(), 0);
    data[40..48].copy_from_slice(&end);
    assert_eq!(message(parse(&data).unwrap_err()), "parse: shdr0: out of bounds");
}

#[test]
fn counts_are_taken_from_section_zero() {
    let mut data = sample(le64());
    let shoff = u64::from_le_bytes(data[40..48].try_into().unwrap()) as usize;
    data[56..58].copy_from_slice(&0xffffu16.to_le_bytes());
    data[60..62].copy_from_slice(&0u16.to_le_bytes());
    data[62..64].copy_from_slice(&0xffffu16.to_le_bytes());
    data[shoff + 32..shoff + 40].copy_from_slice(&12u64.to_le_bytes()); // sh_size
    data[shoff + 40..shoff + 44].copy_from_slice(&11u32.to_le_bytes()); // sh_link
    data[shoff + 44..shoff + 48].copy_from_slice(&4u32.to_le_bytes()); // sh_info
    let image = parse(&data).unwrap();
    assert_eq!((image.phdrs.len(), image.shdrs.len(), image.ehdr.shstrndx), (4, 12, 11));
    assert_eq!(image.find_section(".hash"), Some(6));
}

#[test]
fn what_is_printed() {
    for e in encodings() {
        let data = sample(e);
        assert_eq!(printed(&data, Operation::PrintInterpreter), ["/lib/ld.so"]);
        assert_eq!(printed(&data, Operation::PrintSoname), ["libx.so.1"]);
        assert_eq!(printed(&data, Operation::PrintRpath), ["/old/path/lib"]);
        assert_eq!(printed(&data, Operation::PrintNeeded), ["libc.so.6", "libm.so.6"]);
        assert_eq!(printed(&data, Operation::PrintExecstack), ["execstack: ?"]);
        assert_eq!(printed(&data, Operation::PrintOsAbi), ["System V"]);
        assert!(printed(&data, Operation::ForceRpath).is_empty());
        assert!(printed(&data, Operation::AllowedRpathPrefixes("x".into())).is_empty());
    }
}

#[test]
fn printing_works_without_section_headers() {
    let data = stripped();
    let image = parse(&data).unwrap();
    assert!(image.shdrs.is_empty() && image.has_dynamic());
    assert_eq!(printed(&data, Operation::PrintInterpreter), ["/lib/ld.so"]);
    assert_eq!(printed(&data, Operation::PrintSoname), ["libx.so.1"]);
    assert_eq!(printed(&data, Operation::PrintRpath), ["/old/path/lib"]);
    assert_eq!(printed(&data, Operation::PrintNeeded), ["libc.so.6", "libm.so.6"]);
    for op in [
        Operation::PrintInterpreter,
        Operation::PrintSoname,
        Operation::PrintRpath,
        Operation::PrintNeeded,
    ] {
        assert_eq!(printed(&data, op.clone()), printed(&sample(le64()), op));
    }
    let mut image = parse(&data).unwrap();
    let err = rpath::set(&mut image, "/x", false).unwrap_err();
    assert_eq!(message(err), "missing: cannot find section .dynstr");
}

#[test]
fn a_stripped_file_with_a_new_segment_reads_back() {
    let data = stripped();
    let out = patch(&data, &[Operation::SetExecstack]);
    assert_eq!(printed(&out, Operation::PrintExecstack), ["execstack: X"]);
    assert_eq!(printed(&out, Operation::PrintNeeded), ["libc.so.6", "libm.so.6"]);
}

#[test]
fn a_table_of_no_section_headers_reads_back() {
    let mut data = sample(le64());
    data[60..64].fill(0); // e_shnum, e_shstrndx
    let image = parse(&data).unwrap();
    assert!(image.shdrs.is_empty() && image.ehdr.shoff != 0);
    let out = patch(&data, &[Operation::SetOsAbi("freebsd".into())]);
    let image = parse(&out).unwrap();
    assert!(image.shdrs.is_empty() && image.ehdr.os_abi == 9);
    let out = patch(&data, &[Operation::SetExecstack]);
    let image = parse(&out).unwrap();
    assert!(image.shdrs.is_empty() && image.ehdr.shoff == 0);
    assert_eq!(printed(&out, Operation::PrintRpath), ["/old/path/lib"]);
}

#[test]
fn strings_can_hold_the_section_names() {
    for e in encodings() {
        let mut image = parse(&sample(e)).unwrap();
        let strings = image.find_section(".dynstr").unwrap();
        let names = image.ehdr.shstrndx as usize;
        let off = image.section_data[strings].len() as u32;
        let more = image.section_data[names].clone();
        image.section_data[strings].extend(more);
        for s in &mut image.shdrs {
            s.name += off;
        }
        image.ehdr.shstrndx = strings as u32;
        rpath::set(&mut image, LONG, false).unwrap();
        ops::set_soname(&mut image, "libnew.so").unwrap();
        ops::add_needed(&mut image, "libfirst.so").unwrap();
        assert_eq!(image.find_section(".dynstr"), Some(strings));
        assert_eq!(rpath::read(&image).unwrap(), LONG);
        assert_eq!(ops::soname(&image), Some("libnew.so".to_string()));
        assert_eq!(ops::needed(&image).unwrap(), ["libfirst.so", "libc.so.6", "libm.so.6"]);
        ops::remove_needed(&mut image, "libfirst.so").unwrap();
        assert_eq!(ops::needed(&image).unwrap(), ["libc.so.6", "libm.so.6"]);
    }
}

#[test]
fn a_short_run_path_is_written_in_place() {
    for e in encodings() {
        let data = sample(e);
        let out = patch(&data, &[Operation::SetRpath("/new".into())]);
        assert_eq!(out.len(), data.len());
        assert_eq!(rpath_of(&out), "/new");
        assert_eq!(printed(&out, Operation::PrintNeeded), ["libc.so.6", "libm.so.6"]);
        let image = parse(&out).unwrap();
        let off = image.dynamic[3].val as usize;
        assert_eq!(&image.section_data[3][off..off + 14], b"/new\0\0\0\0\0\0\0\0\0\0");
        let changed = out.iter().zip(&data).filter(|(a, b)| a != b).count();
        assert!(changed <= 13);
    }
}

fn loads(image: &ElfImage) -> usize {
    image.phdrs.iter().filter(|p| p.p_type == pt::LOAD).count()
}

const LONG: &str = "/a/very/long/custom/runpath/that/will/not/fit/in/place/lib";

#[test]
fn a_long_run_path_moves_the_strings() {
    for e in encodings() {
        let data = sample(e);
        let before = parse(&data).unwrap();
        let out = patch(&data, &[Operation::SetRpath(LONG.into())]);
        assert_eq!(rpath_of(&out), LONG);
        assert_eq!(printed(&out, Operation::PrintNeeded), ["libc.so.6", "libm.so.6"]);
        assert_eq!(printed(&out, Operation::PrintInterpreter), ["/lib/ld.so"]);
        let image = parse(&out).unwrap();
        assert!(validate(&image).is_ok());
        let dynstr = image.shdrs[image.find_section(".dynstr").unwrap()];
        let tag = |t| image.dynamic.iter().find(|d| d.tag == t).unwrap().val;
        assert_eq!(tag(dt::STRTAB), dynstr.addr);
        assert_eq!(tag(dt::STRSZ), dynstr.size);
        assert_eq!(tag(dt::SYMTAB), before.shdrs[2].addr);
        assert_eq!(loads(&image), loads(&before) + 1);
        let load = image.phdrs.last().unwrap();
        assert_eq!(load.offset, image.ehdr.phoff);
        assert_eq!(load.offset, load.vaddr); // the sample is loaded at zero
        assert_eq!(load.offset % 0x1000, 0);
        assert!(load.offset >= data.len() as u64);
        assert_eq!(load.flags, pf::R | pf::W);
        assert_eq!(dynstr.addr, dynstr.offset);
        assert!(dynstr.offset >= load.offset);
        assert!(dynstr.offset + dynstr.size <= load.offset + load.filesz);
        let phdr = image.phdrs[0];
        assert_eq!((phdr.offset, phdr.vaddr), (load.offset, load.vaddr));
        assert_eq!(phdr.filesz, (image.phdrs.len() * codec::phdr_size(e.class)) as u64);
        assert_eq!(out.len() as u64, load.offset + load.filesz + 1);
        for i in [1, 2, 4, 5, 6, 7, 8, 9, 10] {
            assert_eq!(image.shdrs[i], before.shdrs[i]);
        }
        assert_eq!(&out[before.shdrs[8].offset as usize..][..32], &[0x90; 32]);
    }
}

#[test]
fn repeated_patching_replaces_the_region() {
    let data = sample(le64());
    let once = patch(&data, &[Operation::SetRpath(LONG.into())]);
    let longer = format!("{LONG}/and/some/more");
    let twice = patch(&once, &[Operation::SetRpath(longer.clone())]);
    let (a, b) = (parse(&once).unwrap(), parse(&twice).unwrap());
    assert_eq!(rpath_of(&twice), longer);
    assert_eq!(loads(&a), loads(&b));
    assert!(b.phdrs.iter().all(|p| p.p_type != pt::LOAD || p.offset != a.ehdr.phoff));
    let mut image = parse(&once).unwrap();
    rpath::set(&mut image, &longer, false).unwrap();
    let fresh = finalize(&mut image, &once, None, true).unwrap();
    let c = parse(&fresh).unwrap();
    assert_eq!(loads(&c), loads(&a) + 1);
    assert!(c.ehdr.phoff > a.ehdr.phoff);
    assert_eq!(rpath_of(&fresh), longer);
}

#[test]
fn a_forced_page_size_aligns_the_region() {
    let data = sample(le64());
    let ops = vec![Operation::SetRpath(LONG.into())];
    let out = patch_data(&data, &ops, &mods(), &nowhere(), Some(0x4000)).unwrap();
    let image = parse(&out).unwrap();
    assert_eq!(image.ehdr.phoff % 0x4000, 0);
    assert_eq!(image.phdrs.last().unwrap().align, 0x4000);
    let err = patch_data(&data, &ops, &mods(), &nowhere(), Some(0x3000)).unwrap_err();
    assert_eq!(message(err), "constraint: segment alignment is not a power of two");
    let mut arm = data.clone();
    arm[18..20].copy_from_slice(&183u16.to_le_bytes());
    let out = patch(&arm, &ops);
    assert_eq!(parse(&out).unwrap().phdrs.last().unwrap().align, 0x10000);
}

fn path() -> impl Strategy<Value = String> {
    "(/[a-z0-9_]{1,10}){1,12}"
}

fn libname() -> impl Strategy<Value = String> {
    "lib[a-z0-9_]{1,18}\\.so\\.[0-9]"
}

#[test]
fn set_rpath_is_idempotent() {
    let which = proptest::sample::select(encodings());
    TestRunner::new(Config::with_cases(32))
        .run(&(path(), which), |(p, e)| {
            let ops = [Operation::SetRpath(p.clone())];
            let once = patch(&sample(e), &ops);
            assert_eq!(rpath_of(&once), p);
            assert_eq!(patch(&once, &ops), once);
            Ok(())
        })
        .unwrap();
}

#[test]
fn set_soname_is_idempotent() {
    TestRunner::new(Config::with_cases(32))
        .run(&libname(), |name| {
            let ops = [Operation::SetSoname(name.clone())];
            let once = patch(&sample(le64()), &ops);
            assert_eq!(printed(&once, Operation::PrintSoname), [name]);
            assert_eq!(patch(&once, &ops), once);
            Ok(())
        })
        .unwrap();
}

#[test]
fn remove_rpath_is_idempotent() {
    TestRunner::new(Config::with_cases(32))
        .run(&path(), |p| {
            let with = patch(&sample(le64()), &[Operation::SetRpath(p)]);
            let once = patch(&with, &[Operation::RemoveRpath]);
            assert_eq!(rpath_of(&once), "");
            assert_eq!(printed(&once, Operation::PrintNeeded), ["libc.so.6", "libm.so.6"]);
            assert_eq!(patch(&once, &[Operation::RemoveRpath]), once);
            Ok(())
        })
        .unwrap();
}

#[test]
fn add_then_remove_needed_restores_list() {
    let before = printed(&sample(le64()), Operation::PrintNeeded);
    TestRunner::new(Config::with_cases(32))
        .run(&libname(), |lib| {
            if before.contains(&lib) {
                return Err(TestCaseError::reject("needed before it was added"));
            }
            let added = patch(&sample(le64()), &[Operation::AddNeeded(lib.clone())]);
            let mut want = vec![lib.clone()];
            want.extend(before.clone());
            assert_eq!(printed(&added, Operation::PrintNeeded), want);
            let removed = patch(&added, &[Operation::RemoveNeeded(lib)]);
            assert_eq!(printed(&removed, Operation::PrintNeeded), before);
            Ok(())
        })
        .unwrap();
}

#[test]
fn an_added_library_comes_first() {
    for e in encodings() {
        let out = patch(&sample(e), &[Operation::AddNeeded("libfirst.so".into())]);
        let names = printed(&out, Operation::PrintNeeded);
        assert_eq!(names, ["libfirst.so", "libc.so.6", "libm.so.6"]);
        let out = patch(&out, &[Operation::RemoveNeeded("libc.so.6".into())]);
        assert_eq!(printed(&out, Operation::PrintNeeded), ["libfirst.so", "libm.so.6"]);
    }
}

#[test]
fn replacing_a_needed_library() {
    let data = sample(le64());
    let op = |a: &str, b: &str| Operation::ReplaceNeeded { old: a.into(), new: b.into() };
    let out = patch(&data, &[op("libm.so.6", "libother.so")]);
    assert_eq!(printed(&out, Operation::PrintNeeded), ["libc.so.6", "libother.so"]);
    assert_eq!(patch(&data, &[op("libnone.so", "libother.so")]), data);
}

#[test]
fn adding_to_the_run_path() {
    let data = sample(le64());
    let out = patch(&data, &[Operation::AddRpath("/more".into())]);
    assert_eq!(rpath_of(&out), "/old/path/lib:/more");
    let none = patch(&data, &[Operation::RemoveRpath]);
    assert_eq!(rpath_of(&patch(&none, &[Operation::AddRpath("/more".into())])), "/more");
}

#[test]
fn a_forced_run_path_has_the_obsolete_tag() {
    let data = sample(le64());
    let m = Modifiers { force_rpath: true, allowed_rpath_prefixes: Vec::new(), debug: false };
    let ops = vec![Operation::SetRpath("/f".into())];
    let out = patch_data(&data, &ops, &m, &nowhere(), None).unwrap();
    let image = parse(&out).unwrap();
    assert_eq!(image.dynamic[3].tag, dt::RPATH);
    assert_eq!(rpath_of(&out), "/f");
    let back = patch(&out, &[Operation::SetRpath("/g".into())]);
    assert_eq!(parse(&back).unwrap().dynamic[3].tag, dt::RUNPATH);
    let mut both = parse(&data).unwrap();
    let val = both.dynamic[0].val;
    both.dynamic.insert(0, DynEntry { tag: dt::RPATH, val });
    assert_eq!(rpath::read(&both).unwrap(), "/old/path/lib");
    both.dynamic.retain(|d| d.tag != dt::RUNPATH);
    assert_eq!(rpath::read(&both).unwrap(), "libc.so.6");
    rpath::remove(&mut both);
    assert_eq!(rpath::read(&both).unwrap(), "");
}

#[test]
fn setting_the_interpreter() {
    let data = sample(le64());
    let long = "/nix/store/00000000000000000000000000000000-glibc/lib/ld-linux-x86-64.so.2";
    for new in ["/l", long] {
        let out = patch(&data, &[Operation::SetInterpreter(new.into())]);
        assert_eq!(printed(&out, Operation::PrintInterpreter), [new]);
        let image = parse(&out).unwrap();
        let s = image.shdrs[1];
        let p = image.phdrs[1];
        assert_eq!((p.offset, p.vaddr, p.filesz), (s.offset, s.addr, s.size));
        assert_eq!(s.size as usize, new.len() + 1);
    }
    let mut image = parse(&data).unwrap();
    image.shdrs[1].name = 0;
    let err = ops::set_interpreter(&mut image, "/x").unwrap_err();
    assert_eq!(message(err), "missing: cannot find section .interp");
    image.interp_fallback = None;
    let err = ops::interpreter(&image).unwrap_err();
    assert_eq!(message(err), "missing: cannot find section .interp");
}

#[test]
fn the_dynamic_array_follows_its_strings() {
    for e in encodings() {
        let out = patch(&sample(e), &[Operation::SetRpath(LONG.into())]);
        let image = parse(&out).unwrap();
        let strings = image.find_section(".dynstr").unwrap();
        let value = |tag| image.dynamic.iter().find(|d| d.tag == tag).unwrap().val;
        assert_eq!(value(dt::STRTAB), image.shdrs[strings].addr);
        assert_eq!(value(dt::STRSZ), image.shdrs[strings].size);
        assert_eq!(rpath_of(&out), LONG);
        assert_eq!(printed(&out, Operation::PrintNeeded), ["libc.so.6", "libm.so.6"]);
        assert_eq!(printed(&out, Operation::PrintSoname), ["libx.so.1"]);
        assert_eq!(printed(&out, Operation::PrintInterpreter), ["/lib/ld.so"]);
    }
}

#[test]
fn an_array_without_an_end_reads_back() {
    for e in encodings() {
        let data = sample(e);
        let mut image = parse(&data).unwrap();
        let k = image.shdrs.iter().position(|s| s.sh_type == sht::DYNAMIC).unwrap();
        image.dynamic.retain(|d| d.tag != dt::NULL);
        let size = image.dynamic.len() * codec::dyn_size(e.class);
        image.section_data[k].truncate(size);
        image.shdrs[k].size = size as u64;
        let endless = serialize::write(&image, &data, data.len() as u64).unwrap();
        assert!(parse(&endless).unwrap().dynamic.iter().all(|d| d.tag != dt::NULL));
        let out = patch(&endless, &[Operation::SetRpath(LONG.into())]);
        assert_eq!(rpath_of(&out), LONG);
    }
}

#[test]
fn a_soname_is_appended() {
    for e in encodings() {
        let mut image = parse(&sample(e)).unwrap();
        let strings = image.find_section(".dynstr").unwrap();
        let before = image.section_data[strings].clone();
        ops::set_soname(&mut image, "libx.so.1").unwrap();
        assert_eq!(image.section_data[strings], before);
        ops::set_soname(&mut image, "x.so").unwrap();
        assert_eq!(image.section_data[strings], [&before[..], b"x.so\0"].concat());
        assert_eq!(ops::soname(&image), Some("x.so".to_string()));
        assert_eq!(ops::needed(&image).unwrap(), ["libc.so.6", "libm.so.6"]);
        assert_eq!(rpath::read(&image).unwrap(), "/old/path/lib");
    }
}

#[test]
fn sonames_are_for_shared_objects() {
    let mut image = parse(&sample(le64())).unwrap();
    image.ehdr.e_type = et::EXEC;
    let before = image.clone();
    ops::set_soname(&mut image, "libnew.so").unwrap();
    assert!(same(&before, &image));
    assert_eq!(ops::soname(&image), None);
    image.ehdr.e_type = et::DYN;
    image.dynamic.retain(|d| d.tag != dt::SONAME);
    ops::set_soname(&mut image, "libnew.so").unwrap();
    assert_eq!(image.dynamic[0].tag, dt::SONAME);
    assert_eq!(ops::soname(&image), Some("libnew.so".to_string()));
}

#[test]
fn os_abis_have_names() {
    let data = sample(le64());
    for (name, code, shown) in [
        ("sysv", 0, "System V"),
        (" System V ", 0, "System V"),
        ("HP-UX", 1, "HP-UX"),
        ("netbsd", 2, "NetBSD"),
        ("gnu", 3, "Linux"),
        ("hurd", 4, "GNU Hurd"),
        ("solaris", 6, "Solaris"),
        ("aix", 7, "AIX"),
        ("irix", 8, "IRIX"),
        ("freebsd", 9, "FreeBSD"),
        ("tru64", 10, "Tru64"),
        ("openbsd", 12, "OpenBSD"),
        ("OpenVMS", 13, "OpenVMS"),
    ] {
        let out = patch(&data, &[Operation::SetOsAbi(name.into())]);
        assert_eq!(out[7], code);
        assert_eq!(&out[8..], &data[8..]);
        assert_eq!(printed(&out, Operation::PrintOsAbi), [shown]);
    }
    let mut image = parse(&data).unwrap();
    let err = ops::set_os_abi(&mut image, "plan9").unwrap_err();
    assert_eq!(message(err), "cli: unrecognized OS ABI");
    assert_eq!(ops::os_abi_name(5), "0x05");
    assert_eq!(ops::os_abi_name(0xaf), "0xAF");
}

#[test]
fn the_stack_is_made_executable_and_back() {
    let data = sample(le64());
    let x = patch(&data, &[Operation::SetExecstack]);
    assert_eq!(printed(&x, Operation::PrintExecstack), ["execstack: X"]);
    assert_eq!(parse(&x).unwrap().phdrs.len(), 6); // the stack and the region
    let off = patch(&x, &[Operation::ClearExecstack]);
    assert_eq!(off.len(), x.len());
    assert_eq!(printed(&off, Operation::PrintExecstack), ["execstack: -"]);
    let mut image = parse(&data).unwrap();
    image.phdrs.push(Phdr { p_type: pt::NULL, ..image.phdrs[0] });
    ops::modify_execstack(&mut image, false);
    assert_eq!(image.phdrs.len(), 5);
    assert_eq!(image.phdrs[4].p_type, pt::GNU_STACK);
    assert_eq!(image.phdrs[4].flags, pf::R | pf::W);
}

#[test]
fn flags_and_debug_tags() {
    let data = sample(le64());
    let mut image = parse(&data).unwrap();
    ops::no_default_lib(&mut image).unwrap();
    assert_eq!(image.dynamic[0], DynEntry { tag: dt::FLAGS_1, val: df1::NODEFLIB });
    image.dynamic[0].val = 1;
    ops::no_default_lib(&mut image).unwrap();
    assert_eq!(image.dynamic[0].val, 1 | df1::NODEFLIB);
    let n = image.dynamic.len();
    ops::add_debug_tag(&mut image).unwrap();
    ops::add_debug_tag(&mut image).unwrap();
    assert_eq!(image.dynamic.len(), n + 1);
    assert_eq!(image.dynamic[0], DynEntry { tag: dt::DEBUG, val: 0 });
    let out = patch(&data, &[Operation::NoDefaultLib, Operation::AddDebugTag]);
    let image = parse(&out).unwrap();
    assert_eq!(image.dynamic[0].tag, dt::DEBUG);
    assert_eq!(image.dynamic[1].val, df1::NODEFLIB);
    let dynamic = image.shdrs[9];
    assert_eq!(dynamic.size as usize, 13 * 16);
    assert_eq!((image.phdrs[3].offset, image.phdrs[3].filesz), (dynamic.offset, dynamic.size));
}

#[test]
fn operations_need_dynamic_information() {
    let mut image = parse(&sample(le64())).unwrap();
    image.dynamic.clear();
    let before = image.clone();
    let mut r = report();
    for op in [
        Operation::PrintRpath,
        Operation::PrintNeeded,
        Operation::SetRpath("x".into()),
        Operation::AddRpath("x".into()),
        Operation::ShrinkRpath,
        Operation::SetSoname("x".into()),
        Operation::AddNeeded("x".into()),
        Operation::RemoveNeeded("x".into()),
        Operation::ReplaceNeeded { old: "x".into(), new: "y".into() },
        Operation::NoDefaultLib,
        Operation::AddDebugTag,
        Operation::BuildResolutionCache,
    ] {
        let err = apply(&mut image, &op, &mods(), &nowhere(), &mut r).unwrap_err();
        assert_eq!(message(err), "missing: no .dynamic section");
        assert!(same(&before, &image));
        assert!(r.lines.is_empty());
    }
}

#[test]
fn clearing_symbol_versions() {
    for e in encodings() {
        let data = sample(e);
        let out = patch(&data, &[Operation::ClearSymbolVersion("gamma".into())]);
        let image = parse(&out).unwrap();
        let mut want = Vec::new();
        for v in [1u16, 2, 3, 1, 5] {
            want.extend(u16b(e, v));
        }
        assert_eq!(image.section_data[4], want);
        assert_eq!(patch(&data, &[Operation::ClearSymbolVersion("none".into())]), data);
    }
    let mut image = parse(&sample(le64())).unwrap();
    image.section_data[4].pop();
    let err = ops::clear_symbol_version(&mut image, "gamma").unwrap_err();
    assert_eq!(message(err), "parse: versym smaller than dynsym");
    image.shdrs[4].name = 0;
    let err = ops::clear_symbol_version(&mut image, "gamma").unwrap_err();
    assert_eq!(message(err), "missing: cannot find section .gnu.version");
}

fn read_word(e: Encoding, b: &[u8], o: usize) -> u64 {
    if e.class == Class::Elf64 { e.endian.read_u64(b, o) } else { e.endian.read_u32(b, o) as u64 }
}

fn sym_name(image: &ElfImage, i: usize) -> String {
    let size = if image.enc.class == Class::Elf64 { 24 } else { 16 };
    let off = image.enc.endian.read_u32(&image.section_data[2], i * size) as usize;
    let tab = &image.section_data[3];
    let end = off + tab[off..].iter().position(|&b| b == 0).unwrap();
    String::from_utf8(tab[off..end].to_vec()).unwrap()
}

/// Look a name up as a loader does.
fn gnu_lookup(image: &ElfImage, name: &str) -> Option<usize> {
    let e = image.enc;
    let d = &image.section_data[5];
    let r = |o: usize| e.endian.read_u32(d, o);
    let (nb, symndx, mw, shift2) = (r(0), r(4), r(8), r(12));
    let word = if e.class == Class::Elf64 { 8 } else { 4 };
    let bits = word as u32 * 8;
    let h = gnu_hash(name.as_bytes());
    let w = read_word(e, d, 16 + ((h / bits) % mw) as usize * word);
    if w & (1 << (h % bits)) == 0 || w & (1 << ((h >> shift2) % bits)) == 0 {
        return None;
    }
    let buckets = 16 + mw as usize * word;
    let chains = buckets + nb as usize * 4;
    let mut i = r(buckets + (h % nb) as usize * 4);
    if i == 0 {
        return None;
    }
    loop {
        let c = r(chains + (i - symndx) as usize * 4);
        if c | 1 == h | 1 && sym_name(image, i as usize) == name {
            return Some(i as usize);
        }
        if c & 1 == 1 {
            return None;
        }
        i += 1;
    }
}

fn sysv_lookup(image: &ElfImage, name: &str) -> Option<usize> {
    let e = image.enc;
    let d = &image.section_data[6];
    let r = |o: usize| e.endian.read_u32(d, o);
    let nb = r(0);
    let mut i = r(8 + (sysv_hash(name.as_bytes()) % nb) as usize * 4);
    while i != 0 {
        if sym_name(image, i as usize) == name {
            return Some(i as usize);
        }
        i = r(8 + (nb + i) as usize * 4);
    }
    None
}

#[test]
fn hashes_have_their_values() {
    assert_eq!(gnu_hash(b""), 5381);
    assert_eq!(gnu_hash(b"printf"), 0x156b_2bb8);
    assert_eq!(gnu_hash(b"exit"), 0x7c96_7e3f);
    assert_eq!(gnu_hash(b"flapenguin.me"), 0x8ae9_f18e);
    assert_eq!(sysv_hash(b""), 0);
    assert_eq!(sysv_hash(b"printf"), 0x0779_05a6);
    assert_eq!(sysv_hash(b"exit"), 0x0006_cf04);
    assert_eq!(sysv_hash(b"flapenguin.me"), 0x03987915);
}

#[test]
fn renamed_symbols_are_found() {
    for e in encodings() {
        let data = sample(e);
        let around = Surroundings {
            files: Vec::new(),
            symbol_map: Ok("alpha omega\n\n  gamma\ta_much_longer_name ignored\r\n".into()),
        };
        let ops = vec![Operation::RenameDynamicSymbols(PathBuf::from("map"))];
        let out = patch_data(&data, &ops, &mods(), &around, None).unwrap();
        let image = parse(&out).unwrap();
        let old = parse(&data).unwrap();
        let renamed = ["", "omega", "beta", "a_much_longer_name", "delta"];
        let mut seen = Vec::new();
        for (i, n) in renamed.iter().enumerate().skip(1) {
            let at = gnu_lookup(&image, n).unwrap();
            assert_eq!(sysv_lookup(&image, n), Some(at));
            assert_eq!(gnu_lookup(&image, "nothing"), None);
            // The version moved with the symbol.
            let v = e.endian.read_u16(&image.section_data[4], at * 2);
            assert_eq!(v, i as u16 + 1);
            seen.push((i, at));
        }
        assert_eq!(sysv_lookup(&image, "alpha"), None);
        // Relocations refer to the symbols that they referred to.
        let stride = if e.class == Class::Elf64 { 24 } else { 12 };
        let word = stride / 3;
        let shift = if e.class == Class::Elf64 { 32 } else { 8 };
        for k in 0..4 {
            let was = read_word(e, &old.section_data[7], k * stride + word);
            let is = read_word(e, &image.section_data[7], k * stride + word);
            assert_eq!(was & 0xff, is & 0xff);
            let index = (was >> shift) as usize;
            let want = seen.iter().find(|(i, _)| *i == index).map_or(0, |(_, at)| *at);
            assert_eq!((is >> shift) as usize, want);
        }
        assert_eq!(SYMBOLS[1], sym_name(&old, 1));
    }
}

#[test]
fn a_map_that_names_no_symbol_changes_nothing() {
    let data = sample(le64());
    let mut image = parse(&data).unwrap();
    let before = image.clone();
    rename_dynamic_symbols(&mut image, &vec![("nothing".into(), "x".into())]).unwrap();
    assert!(same(&before, &image));
}

#[test]
fn the_last_pair_of_a_map_counts() {
    let map = parse_symbol_map("a b\r\n\na c\n x y z").unwrap();
    assert_eq!(
        map,
        vec![
            ("a".to_string(), "b".to_string()),
            ("a".to_string(), "c".to_string()),
            ("x".to_string(), "y".to_string())
        ]
    );
    assert_eq!(message(parse_symbol_map("a b\n lone\r\n").unwrap_err()), "cli: malformed symbol map line: \" lone\"");
    let mut image = parse(&sample(le64())).unwrap();
    let map = vec![("beta".into(), "one".into()), ("beta".into(), "two".into())];
    rename_dynamic_symbols(&mut image, &map).unwrap();
    assert!(gnu_lookup(&image, "two").is_some());
    assert!(gnu_lookup(&image, "one").is_none());
}

#[test]
fn a_map_that_cannot_be_read_is_named() {
    let around = Surroundings { files: Vec::new(), symbol_map: Err("gone".into()) };
    let ops = vec![Operation::RenameDynamicSymbols(PathBuf::from("map"))];
    let err = patch_data(&sample(le64()), &ops, &mods(), &around, None).unwrap_err();
    assert_eq!(message(err), "io: \"map\" gone");
}

#[test]
fn tables_that_contradict_the_symbols_are_refused() {
    let base = parse(&sample(le64())).unwrap();
    let map = vec![("beta".to_string(), "x".to_string())];
    let refused = |edit: &dyn Fn(&mut ElfImage)| {
        let mut image = base.clone();
        edit(&mut image);
        let before = image.clone();
        let err = message(rename_dynamic_symbols(&mut image, &map).unwrap_err());
        assert!(same(&before, &image));
        err
    };
    let put = |s: usize, o: usize, v: u32| {
        move |i: &mut ElfImage| i.section_data[s][o..o + 4].copy_from_slice(&v.to_le_bytes())
    };
    assert_eq!(refused(&|i| i.section_data[5].truncate(15)), "parse: .gnu.hash too small");
    assert_eq!(refused(&put(5, 4, 6)), "parse: malformed .gnu.hash");
    assert_eq!(refused(&put(5, 12, 32)), "parse: malformed .gnu.hash");
    assert_eq!(refused(&|i| i.section_data[5].truncate(50)), "parse: malformed .gnu.hash");
    assert_eq!(refused(&|i| i.section_data[4].truncate(9)), "parse: versym smaller than dynsym");
    assert_eq!(refused(&put(7, 12, 5)), "parse: relocation symbol index out of range");
    let long = |i: &mut ElfImage| {
        i.section_data[6].extend([0; 4]);
        put(6, 4, 6)(i);
    };
    assert_eq!(refused(&long), "parse: malformed .hash");
    assert_eq!(refused(&|i| i.shdrs[2].name = 0), "missing: cannot find section .dynsym");
    assert_eq!(refused(&|i| i.shdrs[3].name = 0), "missing: cannot find section .dynstr");
    // An empty table says nothing, and stays.
    let mut image = base.clone();
    put(5, 0, 0)(&mut image);
    let table = image.section_data[5].clone();
    rename_dynamic_symbols(&mut image, &map).unwrap();
    assert_eq!(image.section_data[5], table);
    assert!(sysv_lookup(&image, "x").is_some());
}

fn fact(path: &str, exists: bool, opens: bool, machine: Option<u16>) -> FileFact {
    let mut head = Vec::new();
    if let Some(m) = machine {
        head = vec![0; 20];
        head[..4].copy_from_slice(b"\x7fELF");
        head[5] = 1;
        head[18..].copy_from_slice(&m.to_le_bytes());
    }
    FileFact { path: path.into(), exists, opens, head }
}

#[test]
fn shrinking_keeps_the_directories_that_are_used() {
    let data = sample(le64());
    let wide = patch(&data, &[Operation::SetRpath("/a:$ORIGIN/x::/b/:/c:/a:rel".into())]);
    let mut image = parse(&wide).unwrap();
    let asked = probes(&image, &Operation::ShrinkRpath);
    assert_eq!(
        asked,
        [
            "/a/libc.so.6", "/a/libm.so.6", "/b/libc.so.6", "/b/libm.so.6", "/c/libc.so.6",
            "/c/libm.so.6", "/a/libc.so.6", "/a/libm.so.6"
        ]
    );
    assert!(probes(&image, &Operation::PrintRpath).is_empty());
    let files = vec![
        fact("/a/libm.so.6", true, true, Some(3)), // another machine
        fact("/b/libc.so.6", true, true, Some(62)),
        fact("/c/libc.so.6", true, true, Some(62)), // found before
        fact("/c/libm.so.6", true, true, None),
    ];
    let around = Surroundings { files, symbol_map: Ok(String::new()) };
    let mut r = report();
    apply(&mut image, &Operation::ShrinkRpath, &mods(), &around, &mut r).unwrap();
    assert_eq!(rpath::read(&image).unwrap(), "$ORIGIN/x:/b/:rel");
    let mut image = parse(&wide).unwrap();
    let m = Modifiers {
        force_rpath: false,
        allowed_rpath_prefixes: vec!["/c".into(), "/x".into()],
        debug: false,
    };
    apply(&mut image, &Operation::ShrinkRpath, &m, &around, &mut r).unwrap();
    assert_eq!(rpath::read(&image).unwrap(), "$ORIGIN/x:/c:rel");
}

#[test]
fn keeps_all_nonempty_when_accepted() {
    let component = proptest::sample::select(vec!["", "/usr/lib", "/a", "abc", "$ORIGIN", "/x/y/z"]);
    TestRunner::new(Config::with_cases(128))
        .run(&proptest::collection::vec(component, 0..8), |v| {
            let cur = v.join(":");
            let want: Vec<&str> = cur.split(':').filter(|s| !s.is_empty()).collect();
            let got = rpath::filter_dirs(&cur, &Vec::new(), &vec![true; want.len()]);
            assert_eq!(got, want.join(":"));
            Ok(())
        })
        .unwrap();
}

#[test]
fn drops_absolute_when_rejected() {
    let component = proptest::sample::select(vec!["", "/usr/lib", "/a", "abc", "$ORIGIN", "/x/y/z"]);
    TestRunner::new(Config::with_cases(128))
        .run(&proptest::collection::vec(component, 0..8), |v| {
            let cur = v.join(":");
            let n = cur.split(':').filter(|s| !s.is_empty()).count();
            let got = rpath::filter_dirs(&cur, &Vec::new(), &vec![false; n]);
            assert!(got.split(':').all(|d| d.is_empty() || !d.starts_with('/')));
            Ok(())
        })
        .unwrap();
}

#[test]
fn the_library_cache() {
    for e in encodings() {
        let data = sample(e);
        let wide = patch(&data, &[Operation::SetRpath("/a:$ORIGIN:/hw".into())]);
        let mut image = parse(&wide).unwrap();
        let asked = probes(&image, &Operation::BuildResolutionCache);
        assert_eq!(asked[..3], ["/a/glibc-hwcaps", "/a/libc.so.6", "/a/libm.so.6"]);
        assert_eq!(asked.len(), 9);
        let files = vec![
            fact("/a/libm.so.6", true, true, None),
            fact("/a/libc.so.6", true, false, None),
            fact("/hw/glibc-hwcaps", true, false, None),
        ];
        assert!(ldcache::build(&mut image, &files).unwrap().is_none());
        let desc = b"libc.so.6\0?$ORIGIN:?/hw\0libm.so.6\0=/a/libm.so.6:?$ORIGIN:?/hw\0\0";
        let mut note = u32b(e, 6);
        note.extend(u32b(e, desc.len() as u32));
        note.extend(u32b(e, ldcache::NT_NIXOS_LD_CACHE));
        note.extend_from_slice(b"NixOS\0\0\0");
        note.extend_from_slice(desc);
        while note.len() % 4 != 0 {
            note.push(0);
        }
        let k = image.find_section(".note.nixos.ldcache").unwrap();
        assert_eq!(image.section_data[k], note);
        let out = finalize(&mut image, &wide, None, false).unwrap();
        let back = parse(&out).unwrap();
        let k = back.find_section(".note.nixos.ldcache").unwrap();
        assert_eq!(back.section_data[k], note);
        let s = back.shdrs[k];
        let p = back.phdrs.iter().find(|p| p.p_type == pt::NOTE).unwrap();
        assert_eq!((p.offset, p.vaddr, p.filesz), (s.offset, s.addr, s.size));
        // Building it again adds no second one.
        let mut again = parse(&out).unwrap();
        ldcache::build(&mut again, &files).unwrap();
        assert_eq!(finalize(&mut again, &out, None, false).unwrap(), out);
        // With other files it is refreshed.
        let mut other = parse(&out).unwrap();
        ldcache::build(&mut other, &vec![fact("/a/libc.so.6", true, true, None)]).unwrap();
        assert_eq!(other.shdrs.len(), back.shdrs.len());
        assert_eq!(other.shdrs[k].size, 0);
    }
}

#[test]
fn a_cache_of_nothing_is_not_written() {
    let mut image = parse(&sample(le64())).unwrap();
    let before = image.clone();
    let mut r = report();
    apply(&mut image, &Operation::BuildResolutionCache, &mods(), &nowhere(), &mut r).unwrap();
    assert_eq!(
        r.warnings,
        ["warning: --build-resolution-cache: no libraries resolved; no cache written"]
    );
    assert!(same(&before, &image));
    rpath::remove(&mut image);
    let text = ldcache::build(&mut image, &Vec::new()).unwrap().unwrap();
    assert_eq!(text, "warning: --build-resolution-cache: nothing to resolve; no cache written");
    let mut image = parse(&sample(le64())).unwrap();
    image.ehdr.shstrndx = 99;
    let files = vec![fact("/old/path/lib/libc.so.6", true, true, None)];
    let err = ldcache::build(&mut image, &files).unwrap_err();
    assert_eq!(message(err), "missing: no section header string table");
    image.shdrs[9].link = 0;
    let err = ldcache::build(&mut image, &files).unwrap_err();
    assert_eq!(message(err), "missing: no .dynstr");
}

#[test]
fn a_relayout_that_is_not_possible_is_refused() {
    let data = sample(le64());
    let grown = || {
        let mut image = parse(&data).unwrap();
        rpath::set(&mut image, LONG, false).unwrap();
        image
    };
    let refused = |edit: &dyn Fn(&mut ElfImage)| {
        let mut image = grown();
        edit(&mut image);
        message(finalize(&mut image, &data, None, false).unwrap_err())
    };
    assert_eq!(refused(&|i| i.ehdr.e_type = 1), "unsupported: unsupported ELF type for relayout");
    assert_eq!(
        refused(&|i| i.phdrs[0].p_type = pt::NULL),
        "unsupported: no PT_PHDR segment; cannot relocate program headers"
    );
    assert_eq!(
        refused(&|i| i.phdrs[2].memsz = u64::MAX),
        "serialize: layout does not fit in 64 bits"
    );
    let at = parse(&data).unwrap().shdrs[3].addr + 1;
    assert_eq!(
        refused(&move |i| i.section_data[7][..8].copy_from_slice(&at.to_le_bytes())),
        "unsupported: cannot relocate section referenced by .rela.dyn entries at its address"
    );
    assert_eq!(
        refused(&move |i| {
            i.section_data[2][32..40].copy_from_slice(&at.to_le_bytes());
            i.ehdr.shstrndx = 0;
            i.dynamic.push(DynEntry { tag: 0, val: 0 });
        }),
        "unsupported: cannot relocate section referenced by ? entries at its address"
    );
    let mut image = grown();
    assert_eq!(message(finalize(&mut image, b"", None, false).unwrap_err()), "parse: bad ELF magic");
    let mut image = grown();
    image.ehdr.e_type = 1;
    assert_eq!(message(require_type(&image).unwrap_err()), "unsupported: wrong ELF type");
}

#[test]
fn what_is_about_to_happen_is_said() {
    let data = sample(le64());
    let mut image = parse(&data).unwrap();
    assert_eq!(
        layout_note(&image, &data).unwrap(),
        "patchelf: no section grew; rewriting in place"
    );
    rpath::set(&mut image, LONG, false).unwrap();
    assert_eq!(layout_note(&image, &data).unwrap(), "patchelf: 1 section(s) grew; relaying out");
}

#[test]
fn requirements_on_segments() {
    let base = parse(&sample(le64())).unwrap();
    let fault = |edit: &dyn Fn(&mut ElfImage)| {
        let mut image = base.clone();
        edit(&mut image);
        message(validate(&image).unwrap_err())
    };
    assert!(validate(&base).is_ok());
    assert_eq!(fault(&|i| i.phdrs.push(i.phdrs[2])), "constraint: PT_LOAD segments overlap");
    assert_eq!(
        fault(&|i| i.phdrs[2].flags |= pf::X),
        "constraint: PT_LOAD segment is both writable and executable"
    );
    assert_eq!(
        fault(&|i| i.phdrs[2].offset = 1),
        "constraint: PT_LOAD offset and address are not congruent"
    );
    assert_eq!(
        fault(&|i| i.phdrs[0].vaddr = 1 << 40),
        "constraint: PT_PHDR is not covered by a PT_LOAD segment"
    );
    assert_eq!(fault(&|i| i.phdrs[1].align = 12), "constraint: segment alignment is not a power of two");
    let mut image = base.clone();
    image.phdrs[1].align = 0;
    assert!(validate(&image).is_ok());
    // A loaded segment next to another does not overlap it.
    let end = image.phdrs[2].memsz;
    image.phdrs.push(Phdr { offset: end, vaddr: end, align: 1, ..image.phdrs[2] });
    assert!(validate(&image).is_ok());
}

#[test]
fn spans_that_do_not_fit_are_refused() {
    let (image, total) = sample_image(le64());
    let fault = |edit: &dyn Fn(&mut ElfImage), total: u64| {
        let mut image = image.clone();
        edit(&mut image);
        message(serialize::write(&image, &[], total).unwrap_err())
    };
    let at = image.shdrs[5].offset;
    assert_eq!(
        fault(&move |i| i.shdrs[6].offset = at, total),
        format!("serialize: overlapping span at offset {at}")
    );
    let last = image.ehdr.shoff;
    assert_eq!(
        fault(&|_| {}, total - 1),
        format!("serialize: span at {last} extends past file end {}", total - 1)
    );
    assert_eq!(
        fault(&|i| i.shdrs[8].size = 31, total),
        "serialize: section size 32 != header 31; layout not applied"
    );
    assert_eq!(
        fault(&|_| {}, u64::MAX),
        "serialize: output of 18446744073709551615 bytes is too large"
    );
    let mut out = vec![7];
    serialize::write_to(&image, &[], total, &mut out).unwrap();
    assert_eq!(out[1..], sample(le64())[..]);
    assert!(serialize::write_to(&image, &[], total - 1, &mut out).is_err());
    assert_eq!(out.len() as u64, total + 1);
}

#[test]
fn gaps_come_from_the_input() {
    let (image, total) = sample_image(le64());
    let original = vec![0xee; 700];
    let out = serialize::write(&image, &original, total + 5).unwrap();
    let image = parse(&out).unwrap();
    let end = image.shdrs[1].offset + image.shdrs[1].size;
    assert_eq!(out[end as usize], 0xee);
    assert_eq!(&out[total as usize..], &[0; 5]);
}

#[test]
fn the_dynamic_array_keeps_its_size_when_it_shrinks() {
    for e in encodings() {
        let data = sample(e);
        let out = patch(&data, &[Operation::RemoveRpath, Operation::RemoveNeeded("libm.so.6".into())]);
        assert_eq!(out.len(), data.len());
        let image = parse(&out).unwrap();
        assert_eq!(image.dynamic.len(), 9);
        assert_eq!(image.section_data[9].len(), 11 * codec::dyn_size(e.class));
        assert!(image.section_data[9][9 * codec::dyn_size(e.class)..].iter().all(|&b| b == 0));
    }
}

/// The sample with one more section at its end.
fn sample_with(e: Encoding, name: &str, sh_type: u32, data: Vec<u8>) -> Vec<u8> {
    let (mut image, total) = sample_image(e);
    let at = image.section_data[11].len() as u32;
    image.section_data[11].extend_from_slice(name.as_bytes());
    image.section_data[11].push(0);
    image.shdrs[11].offset = total;
    image.shdrs[11].size = image.section_data[11].len() as u64;
    let next = (total + image.shdrs[11].size).div_ceil(16) * 16;
    let size = data.len() as u64;
    image.shdrs.push(Shdr { name: at, sh_type, flags: 0, offset: next, size, addr: 0, ..image.shdrs[8] });
    image.section_data.push(data);
    image.ehdr.shoff = (next + size).div_ceil(16) * 16;
    let end = image.ehdr.shoff + (image.shdrs.len() * codec::shdr_size(e.class)) as u64;
    serialize::write(&image, &[], end).unwrap()
}

fn note(e: Encoding, owner: &[u8], kind: u32, desc: &[u8]) -> Vec<u8> {
    let mut out = u32b(e, owner.len() as u32);
    out.extend(u32b(e, desc.len() as u32));
    out.extend(u32b(e, kind));
    for part in [owner, desc] {
        out.extend_from_slice(part);
        while out.len() % 4 != 0 {
            out.push(0);
        }
    }
    out
}

#[test]
fn libraries_that_are_loaded_at_run_time() {
    for e in encodings() {
        let kind = formatelf::dlopen::NT_FDO_DLOPEN;
        let mut notes = note(e, b"GNU\0", kind, br#"[{"soname":["no.so"]}]"#);
        notes.extend(note(e, b"FDO\0", kind, b"[{\"soname\":[\"libz.so.1\",\"libz.so\"]}]\0\0"));
        notes.extend(note(e, b"FDO\0", 7, br#"[{"soname":["no.so"]}]"#));
        notes.extend(note(e, b"FDO\0", kind, b"\xff\"soname\":[\"no.so\"]"));
        notes.extend(note(e, b"FDO\0", kind, br#"[{"soname":["libq.so"]}]"#));
        notes.extend(u32b(e, u32::MAX));
        let data = sample_with(e, ".note.dlopen", sht::NOTE, notes.clone());
        let image = parse(&data).unwrap();
        let want: Vec<Vec<String>> = [
            vec!["libc.so.6"], vec!["libm.so.6"], vec!["libz.so.1", "libz.so"], vec!["libq.so"],
        ]
        .iter()
        .map(|v| v.iter().map(|s| s.to_string()).collect())
        .collect();
        assert_eq!(dependencies(&image), want);
        assert_eq!(candidates(&data), want.concat());
        let other = sample_with(e, ".note.dlopen", 1, notes);
        assert_eq!(dependencies(&parse(&other).unwrap()).len(), 2);
    }
    assert!(candidates(b"no file").is_empty());
}

#[test]
fn reading_a_library() {
    let data = patch(&sample(le64()), &[Operation::SetRpath("/r:$ORIGIN/l::/s".into())]);
    let lib = parse_lib(b"libx.so.1", &data, true).unwrap();
    assert_eq!(lib.name, "libx.so.1");
    assert_eq!(lib.arch, Arch { machine: 62, elf64: true });
    assert_eq!(lib.osabi, 0);
    assert_eq!(lib.rpath_dirs, [(PathBuf::from("/r"), true), (PathBuf::from("/s"), true)]);
    assert!(parse_lib(b"\xff.so", &data, true).is_none());
    assert!(parse_lib(b"libx.so", b"no file", true).is_none());
    let mut image = parse(&data).unwrap();
    assert!(!is_separate_debug(&image));
    image.shdrs[8].sh_type = sht::NOBITS;
    assert!(is_separate_debug(&image));
    let (mut debug, total) = sample_image(le64());
    debug.shdrs[8].sh_type = sht::NOBITS;
    debug.section_data[8].clear();
    let debug = serialize::write(&debug, &[], total).unwrap();
    assert!(parse_lib(b"libx.so", &debug, true).is_none());
}

fn config(args: &[&str]) -> formatelf::autoformatelf::Config {
    let mut words = vec![PathBuf::from("auto-formatelf"), "--interpreter".into(), "/ld.so".into()];
    words.extend(args.iter().map(PathBuf::from));
    parse_args(words, &None, &None).unwrap()
}

fn target(data: &[u8]) -> Target {
    target_of(&PathBuf::from("/new/ld.so"), data).unwrap()
}

fn cache(libs: &[(&str, &str)]) -> Cache {
    let mut cache = Cache::new();
    for (name, dir) in libs {
        let arch = Arch { machine: 62, elf64: true };
        let lib = ParsedLib { name: name.to_string(), arch, osabi: 0, rpath_dirs: Vec::new() };
        cache.absorb(&mut Wave::new(), &lib, PathBuf::from(dir));
    }
    cache
}

#[test]
fn wiring_a_file_up() {
    let data = sample(le64());
    let t = target(&data);
    assert_eq!(t.interpreter, "/new/ld.so");
    let libs = cache(&[("libc.so.6", "/c"), ("libm.so.6", "/m"), ("libc.so.6", "/other")]);
    let cfg = config(&["--runtime-dependencies", "/rt", "--append-rpaths", "/m", "/end"]);
    let w = patch_one(&data, &t, &libs, &cfg, &Vec::new()).unwrap();
    assert!(w.missing.is_empty());
    let out = w.output.unwrap();
    assert_eq!(rpath_of(&out), "/rt:/c:/m:/end");
    assert_eq!(printed(&out, Operation::PrintInterpreter), ["/new/ld.so"]);
    // What the C library's directory has need not be named.
    let cfg = config(&["--libc", "/libc"]);
    let files = vec![PathBuf::from("/libc/libc.so.6"), PathBuf::from("/libc/libm.so.6")];
    let w = patch_one(&data, &t, &libs, &cfg, &files).unwrap();
    assert_eq!(rpath_of(&w.output.unwrap()), "/old/path/lib");
    // Unless it is to be kept.
    let cfg = config(&["--libc", "/libc/", "--keep-libc"]);
    let w = patch_one(&data, &t, &cache(&[("libc.so.6", "/c")]), &cfg, &files).unwrap();
    assert!(w.missing.is_empty());
    assert_eq!(rpath_of(&w.output.unwrap()), "/c");
}

#[test]
fn what_is_nowhere_is_missing() {
    let e = le64();
    let kind = formatelf::dlopen::NT_FDO_DLOPEN;
    let desc = br#"[{"soname":["liba.so","libb.so"]},{"soname":["/abs/c.so"]}]"#;
    let data = sample_with(e, ".note.dlopen", sht::NOTE, note(e, b"FDO\0", kind, desc));
    let t = target(&data);
    let w = patch_one(&data, &t, &cache(&[("libm.so.6", "/m")]), &config(&[]), &Vec::new()).unwrap();
    assert_eq!(w.missing, ["libc.so.6", "any(liba.so, libb.so)", "/abs/c.so"]);
    let files = vec![PathBuf::from("/abs/c.so")];
    let libs = cache(&[("libm.so.6", "/m"), ("libb.so", "/b"), ("libc.so.6", "/m")]);
    let w = patch_one(&data, &t, &libs, &config(&[]), &files).unwrap();
    assert!(w.missing.is_empty());
    assert_eq!(rpath_of(&w.output.unwrap()), "/m:/b");
}

#[test]
fn files_for_other_targets_are_left_alone() {
    let data = sample(le64());
    let t = target(&data);
    let untouched = |d: &[u8]| {
        let w = patch_one(d, &t, &cache(&[]), &config(&[]), &Vec::new()).unwrap();
        w.output.is_none() && w.missing.is_empty()
    };
    assert!(!untouched(&data));
    assert!(untouched(b"#!/bin/sh"));
    for e in encodings().into_iter().filter(|e| e.class == Class::Elf32) {
        assert!(untouched(&sample(e)));
    }
    let mut other = data.clone();
    other[18] = 3;
    assert!(untouched(&other));
    let (mut image, total) = sample_image(le64());
    image.ehdr.e_type = et::EXEC;
    image.shdrs[1].name = 0;
    assert!(untouched(&serialize::write(&image, &[], total).unwrap()));
    // A library without an interpreter only gets a run path.
    image.ehdr.e_type = et::DYN;
    let lib = serialize::write(&image, &[], total).unwrap();
    let cfg = config(&["--runtime-dependencies", "/rt"]);
    let w = patch_one(&lib, &t, &cache(&[("libc.so.6", "/c")]), &cfg, &Vec::new()).unwrap();
    assert_eq!(rpath_of(&w.output.unwrap()), "/c");
    let w = patch_one(&lib, &t, &cache(&[]), &cfg, &Vec::new()).unwrap();
    assert!(w.output.is_none());
    assert_eq!(w.missing, ["libc.so.6", "libm.so.6"]);
    assert!(matches!(target_of(&PathBuf::from("x"), b""), Err(Error::Parse(_))));
}
