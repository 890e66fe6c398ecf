//! Decode the bytes of an ELF file into an [`ElfImage`].
use vstd::prelude::*;

use crate::codec::{
    dyn_at, dyn_size, ehdr_at, phdr_in, phdr_size, read_dyn, read_ehdr, read_phdr, read_shdr,
    shdr_in, shdr_size, PN_XNUM, SHN_XINDEX,
};
use crate::error::{Error, ErrorView, Outcome, Result};
use crate::ir::{
    contents, contents_opt, dt, find_section_type, find_segment_type, find_tag, has_tag, pt,
    section_type, segment_type, sht, DynEntry, Ehdr, EhdrView, ElfImage, Encoding, ImageView, Phdr,
    Shdr,
};
use crate::raw::{dyn_len, phdr_len, shdr_len};
use crate::seqs::{first, first_from};
use crate::text::concat;

verus! {

/// The `len` bytes at `off`, or why they cannot be had. `what` names the part of
/// the file in the error.
pub open spec fn bytes_at(data: Seq<u8>, off: int, len: int, what: Seq<char>) -> Outcome<Seq<u8>> {
    if off + len > usize::MAX {
        Err(ErrorView::Parse(what + ": offset overflow"@))
    } else if off + len > data.len() {
        Err(ErrorView::Parse(what + ": out of bounds"@))
    } else {
        Ok(data.subrange(off, off + len))
    }
}

fn overflow_error(what: &str) -> (e: Error)
    ensures
        e@ == ErrorView::Parse(what@ + ": offset overflow"@),
{
    Error::Parse(concat(what, ": offset overflow"))
}

fn slice<'a>(data: &'a [u8], off: u64, len: u64, what: &str) -> (res: Result<&'a [u8]>)
    ensures
        match res {
            Ok(b) => bytes_at(data@, off as int, len as int, what@) == Outcome::Ok(b@),
            Err(e) => bytes_at(data@, off as int, len as int, what@) == Outcome::<Seq<u8>>::Err(e@),
        },
{
    let end: u64 = match off.checked_add(len) {
        Some(end) => end,
        None => {
            return Err(overflow_error(what));
        },
    };
    if end > usize::MAX as u64 {
        return Err(overflow_error(what));
    }
    if end as usize > data.len() {
        return Err(Error::Parse(concat(what, ": out of bounds")));
    }
    Ok(&data[off as usize..end as usize])
}

/// A copy of `b`.
pub fn copy_bytes(b: &[u8]) -> (v: Vec<u8>)
    ensures
        v@ == b@,
{
    let mut v: Vec<u8> = Vec::new();
    v.extend_from_slice(b);
    assert(v@ =~= b@);
    v
}

/// The first `n` entries of the program header table at `off`.
pub open spec fn phdr_table(data: Seq<u8>, enc: Encoding, off: int, n: int) -> Outcome<Seq<Phdr>>
    decreases n,
{
    if n <= 0 {
        Ok(Seq::empty())
    } else {
        match phdr_table(data, enc, off, n - 1) {
            Err(e) => Err(e),
            Ok(t) => match bytes_at(
                data,
                off + (n - 1) * phdr_len(enc.class),
                phdr_len(enc.class),
                "phdr"@,
            ) {
                Err(e) => Err(e),
                Ok(b) => match phdr_in(enc, b) {
                    Err(e) => Err(e),
                    Ok(p) => Ok(t.push(p)),
                },
            },
        }
    }
}

/// The first `n` entries of the section header table at `off`.
pub open spec fn shdr_table(data: Seq<u8>, enc: Encoding, off: int, n: int) -> Outcome<Seq<Shdr>>
    decreases n,
{
    if n <= 0 {
        Ok(Seq::empty())
    } else {
        match shdr_table(data, enc, off, n - 1) {
            Err(e) => Err(e),
            Ok(t) => match bytes_at(
                data,
                off + (n - 1) * shdr_len(enc.class),
                shdr_len(enc.class),
                "shdr"@,
            ) {
                Err(e) => Err(e),
                Ok(b) => match shdr_in(enc, b) {
                    Err(e) => Err(e),
                    Ok(s) => Ok(t.push(s)),
                },
            },
        }
    }
}

/// A table that cannot be read up to `i` cannot be read any further.
proof fn lemma_phdr_table_err(data: Seq<u8>, enc: Encoding, off: int, i: int, n: int)
    requires
        i <= n,
        phdr_table(data, enc, off, i) is Err,
    ensures
        phdr_table(data, enc, off, n) == phdr_table(data, enc, off, i),
    decreases n - i,
{
    if i < n {
        lemma_phdr_table_err(data, enc, off, i, n - 1);
    }
}

/// A table that cannot be read up to `i` cannot be read any further.
proof fn lemma_shdr_table_err(data: Seq<u8>, enc: Encoding, off: int, i: int, n: int)
    requires
        i <= n,
        shdr_table(data, enc, off, i) is Err,
    ensures
        shdr_table(data, enc, off, n) == shdr_table(data, enc, off, i),
    decreases n - i,
{
    if i < n {
        lemma_shdr_table_err(data, enc, off, i, n - 1);
    }
}

/// The `len` bytes of entry `i` of a table at `base`.
fn entry<'a>(data: &'a [u8], base: u64, i: u64, len: usize, what: &str) -> (res: Result<&'a [u8]>)
    ensures
        match res {
            Ok(b) => bytes_at(data@, base + i * len, len as int, what@) == Outcome::Ok(b@),
            Err(e) => bytes_at(data@, base + i * len, len as int, what@) == Outcome::<Seq<u8>>::Err(
                e@,
            ),
        },
{
    let step: u64 = match i.checked_mul(len as u64) {
        Some(step) => step,
        None => {
            return Err(overflow_error(what));
        },
    };
    match base.checked_add(step) {
        Some(off) => slice(data, off, len as u64, what),
        None => Err(overflow_error(what)),
    }
}

fn read_phdrs(data: &[u8], enc: Encoding, off: u64, n: u64) -> (res: Result<Vec<Phdr>>)
    ensures
        match res {
            Ok(v) => phdr_table(data@, enc, off as int, n as int) == Outcome::Ok(v@),
            Err(e) => phdr_table(data@, enc, off as int, n as int) == Outcome::<Seq<Phdr>>::Err(e@),
        },
{
    let size: usize = phdr_size(enc.class);
    let mut out: Vec<Phdr> = Vec::new();
    let mut i: u64 = 0;
    while i < n
        invariant
            i <= n,
            size == phdr_len(enc.class),
            phdr_table(data@, enc, off as int, i as int) == Outcome::Ok(out@),
        decreases n - i,
    {
        let b = match entry(data, off, i, size, "phdr") {
            Ok(b) => b,
            Err(e) => {
                proof {
                    lemma_phdr_table_err(data@, enc, off as int, i + 1, n as int);
                }
                return Err(e);
            },
        };
        match read_phdr(enc, b) {
            Ok(p) => out.push(p),
            Err(e) => {
                proof {
                    lemma_phdr_table_err(data@, enc, off as int, i + 1, n as int);
                }
                return Err(e);
            },
        }
        i += 1;
    }
    Ok(out)
}

fn read_shdrs(data: &[u8], enc: Encoding, off: u64, n: u64) -> (res: Result<Vec<Shdr>>)
    ensures
        match res {
            Ok(v) => shdr_table(data@, enc, off as int, n as int) == Outcome::Ok(v@),
            Err(e) => shdr_table(data@, enc, off as int, n as int) == Outcome::<Seq<Shdr>>::Err(e@),
        },
{
    let size: usize = shdr_size(enc.class);
    let mut out: Vec<Shdr> = Vec::new();
    let mut i: u64 = 0;
    while i < n
        invariant
            i <= n,
            size == shdr_len(enc.class),
            shdr_table(data@, enc, off as int, i as int) == Outcome::Ok(out@),
        decreases n - i,
    {
        let b = match entry(data, off, i, size, "shdr") {
            Ok(b) => b,
            Err(e) => {
                proof {
                    lemma_shdr_table_err(data@, enc, off as int, i + 1, n as int);
                }
                return Err(e);
            },
        };
        match read_shdr(enc, b) {
            Ok(s) => out.push(s),
            Err(e) => {
                proof {
                    lemma_shdr_table_err(data@, enc, off as int, i + 1, n as int);
                }
                return Err(e);
            },
        }
        i += 1;
    }
    Ok(out)
}

/// The contents of the first `n` sections. A section without file bytes has
/// none.
pub open spec fn section_bytes(data: Seq<u8>, shdrs: Seq<Shdr>, n: int) -> Outcome<Seq<Seq<u8>>>
    decreases n,
{
    if n <= 0 {
        Ok(Seq::empty())
    } else {
        match section_bytes(data, shdrs, n - 1) {
            Err(e) => Err(e),
            Ok(t) => if shdrs[n - 1].sh_type == sht::NOBITS {
                Ok(t.push(Seq::empty()))
            } else {
                match bytes_at(
                    data,
                    shdrs[n - 1].offset as int,
                    shdrs[n - 1].size as int,
                    "section"@,
                ) {
                    Err(e) => Err(e),
                    Ok(b) => Ok(t.push(b)),
                }
            },
        }
    }
}

/// Sections that cannot be read up to `i` cannot be read any further.
proof fn lemma_section_bytes_err(data: Seq<u8>, shdrs: Seq<Shdr>, i: int, n: int)
    requires
        i <= n,
        section_bytes(data, shdrs, i) is Err,
    ensures
        section_bytes(data, shdrs, n) == section_bytes(data, shdrs, i),
    decreases n - i,
{
    if i < n {
        lemma_section_bytes_err(data, shdrs, i, n - 1);
    }
}

fn read_sections(data: &[u8], shdrs: &Vec<Shdr>) -> (res: Result<Vec<Vec<u8>>>)
    ensures
        match res {
            Ok(v) => section_bytes(data@, shdrs@, shdrs@.len() as int) == Outcome::Ok(contents(v@)),
            Err(e) => section_bytes(data@, shdrs@, shdrs@.len() as int) == Outcome::<
                Seq<Seq<u8>>,
            >::Err(e@),
        },
{
    let mut out: Vec<Vec<u8>> = Vec::new();
    let mut i: usize = 0;
    assert(contents(out@) =~= Seq::empty());
    while i < shdrs.len()
        invariant
            i <= shdrs@.len(),
            section_bytes(data@, shdrs@, i as int) == Outcome::Ok(contents(out@)),
        decreases shdrs@.len() - i,
    {
        let ghost before = contents(out@);
        if shdrs[i].sh_type == sht::NOBITS {
            out.push(Vec::new());
        } else {
            match slice(data, shdrs[i].offset, shdrs[i].size, "section") {
                Ok(b) => out.push(copy_bytes(b)),
                Err(e) => {
                    proof {
                        lemma_section_bytes_err(data@, shdrs@, i + 1, shdrs@.len() as int);
                    }
                    return Err(e);
                },
            }
        }
        assert(contents(out@) =~= before.push(out@.last()@));
        i += 1;
    }
    Ok(out)
}

/// The dynamic entries that `b` holds, up to and with the terminating
/// `DT_NULL`. Bytes that do not fill an entry are left over.
pub open spec fn dyn_entries(enc: Encoding, b: Seq<u8>) -> Seq<DynEntry>
    decreases b.len(),
{
    let n = dyn_len(enc.class);
    if b.len() < n {
        Seq::empty()
    } else {
        let d = dyn_at(enc.class, enc.endian, b.take(n));
        if d.tag == dt::NULL {
            seq![d]
        } else {
            seq![d] + dyn_entries(enc, b.skip(n))
        }
    }
}

/// The dynamic array in the `size` bytes at `off`.
pub open spec fn dyn_array(
    data: Seq<u8>,
    enc: Encoding,
    off: int,
    size: int,
) -> Outcome<Seq<DynEntry>> {
    match bytes_at(data, off, size - size % dyn_len(enc.class), "dynamic"@) {
        Err(e) => Err(e),
        Ok(b) => Ok(dyn_entries(enc, b)),
    }
}

fn read_dyn_array(data: &[u8], enc: Encoding, off: u64, size: u64) -> (res: Result<Vec<DynEntry>>)
    ensures
        match res {
            Ok(v) => dyn_array(data@, enc, off as int, size as int) == Outcome::Ok(v@),
            Err(e) => dyn_array(data@, enc, off as int, size as int) == Outcome::<
                Seq<DynEntry>,
            >::Err(e@),
        },
{
    let n: usize = dyn_size(enc.class);
    assert(size % (n as u64) <= size) by (nonlinear_arith)
        requires
            n > 0,
    ;
    let b = slice(data, off, size - size % (n as u64), "dynamic")?;
    let mut out: Vec<DynEntry> = Vec::new();
    let mut at: usize = 0;
    assert(b@.skip(0) =~= b@);
    assert(dyn_entries(enc, b@) =~= out@ + dyn_entries(enc, b@.skip(0)));
    while b.len() - at >= n
        invariant
            n == dyn_len(enc.class),
            at <= b@.len(),
            dyn_array(data@, enc, off as int, size as int) == Outcome::Ok(dyn_entries(enc, b@)),
            dyn_entries(enc, b@) == out@ + dyn_entries(enc, b@.skip(at as int)),
        decreases b@.len() - at,
    {
        let d = read_dyn(enc, &b[at..at + n])?;
        let ghost before = out@;
        let ghost rest = b@.skip(at as int);
        assert(b@.subrange(at as int, at + n) =~= rest.take(n as int));
        assert(rest.skip(n as int) =~= b@.skip(at + n));
        out.push(d);
        if d.tag == dt::NULL {
            assert(out@ =~= before + seq![d]);
            return Ok(out);
        }
        at += n;
        assert(before + (seq![d] + dyn_entries(enc, rest.skip(n as int))) =~= out@ + dyn_entries(
            enc,
            b@.skip(at as int),
        ));
    }
    assert(out@ =~= out@ + dyn_entries(enc, b@.skip(at as int)));
    Ok(out)
}

/// The dynamic array: from its section, or from its segment when there is no
/// such section.
pub open spec fn dynamic_of(
    data: Seq<u8>,
    enc: Encoding,
    shdrs: Seq<Shdr>,
    phdrs: Seq<Phdr>,
) -> Outcome<Seq<DynEntry>> {
    match first(shdrs, section_type(sht::DYNAMIC)) {
        Some(k) => if shdrs[k].size as int % dyn_len(enc.class) != 0 {
            Err(ErrorView::Parse("malformed .dynamic"@))
        } else {
            dyn_array(data, enc, shdrs[k].offset as int, shdrs[k].size as int)
        },
        None => match first(phdrs, segment_type(pt::DYNAMIC)) {
            Some(k) => dyn_array(data, enc, phdrs[k].offset as int, phdrs[k].filesz as int),
            None => Ok(Seq::empty()),
        },
    }
}

fn read_dynamic(
    data: &[u8],
    enc: Encoding,
    shdrs: &Vec<Shdr>,
    phdrs: &Vec<Phdr>,
) -> (res: Result<Vec<DynEntry>>)
    ensures
        match res {
            Ok(v) => dynamic_of(data@, enc, shdrs@, phdrs@) == Outcome::Ok(v@),
            Err(e) => dynamic_of(data@, enc, shdrs@, phdrs@) == Outcome::<Seq<DynEntry>>::Err(e@),
        },
{
    if let Some(k) = find_section_type(shdrs, sht::DYNAMIC) {
        if shdrs[k].size % (dyn_size(enc.class) as u64) != 0 {
            return Err(Error::Parse("malformed .dynamic".to_owned()));
        }
        return read_dyn_array(data, enc, shdrs[k].offset, shdrs[k].size);
    }
    if let Some(k) = find_segment_type(phdrs, pt::DYNAMIC) {
        return read_dyn_array(data, enc, phdrs[k].offset, phdrs[k].filesz);
    }
    let out: Vec<DynEntry> = Vec::new();
    assert(out@ =~= Seq::empty());
    Ok(out)
}

/// Whether a segment loads the address `vaddr` from the file.
pub open spec fn loads(vaddr: u64) -> spec_fn(Phdr) -> bool {
    |p: Phdr| p.p_type == pt::LOAD && p.vaddr <= vaddr < p.vaddr + p.filesz
}

/// The file offset that the address `vaddr` is loaded from.
pub open spec fn file_offset(phdrs: Seq<Phdr>, vaddr: u64) -> Option<int> {
    match first(phdrs, loads(vaddr)) {
        Some(k) => Some(phdrs[k].offset + (vaddr - phdrs[k].vaddr)),
        None => None,
    }
}

/// The file offset of `vaddr`, unless no segment loads it or the offset is past
/// what 64 bits can hold.
fn vaddr_to_off(phdrs: &Vec<Phdr>, vaddr: u64) -> (res: Option<u64>)
    ensures
        match res {
            Some(off) => file_offset(phdrs@, vaddr) == Some(off as int),
            None => file_offset(phdrs@, vaddr) matches Some(off) ==> off > u64::MAX,
        },
{
    let mut i: usize = 0;
    while i < phdrs.len()
        invariant
            i <= phdrs@.len(),
            first(phdrs@, loads(vaddr)) == first_from(phdrs@, loads(vaddr), i as int),
        decreases phdrs@.len() - i,
    {
        let p = phdrs[i];
        if p.p_type == pt::LOAD && vaddr >= p.vaddr && vaddr - p.vaddr < p.filesz {
            return p.offset.checked_add(vaddr - p.vaddr);
        }
        i += 1;
    }
    None
}

/// The dynamic string table of a file without a `.dynamic` section, found by
/// the address in `DT_STRTAB` through the loaded segments.
pub open spec fn dynstr_of(
    data: Seq<u8>,
    phdrs: Seq<Phdr>,
    shdrs: Seq<Shdr>,
    dynamic: Seq<DynEntry>,
) -> Option<Seq<u8>> {
    if first(shdrs, section_type(sht::DYNAMIC)) is Some {
        None
    } else {
        match (first(dynamic, has_tag(dt::STRTAB)), first(dynamic, has_tag(dt::STRSZ))) {
            (Some(t), Some(z)) => match file_offset(phdrs, dynamic[t].val) {
                Some(off) => match bytes_at(data, off, dynamic[z].val as int, "dynstr"@) {
                    Ok(b) => Some(b),
                    Err(_) => None,
                },
                None => None,
            },
            _ => None,
        }
    }
}

fn recover_dynstr(
    data: &[u8],
    phdrs: &Vec<Phdr>,
    shdrs: &Vec<Shdr>,
    dynamic: &Vec<DynEntry>,
) -> (res: Option<Vec<u8>>)
    ensures
        contents_opt(res) == dynstr_of(data@, phdrs@, shdrs@, dynamic@),
{
    if find_section_type(shdrs, sht::DYNAMIC).is_some() {
        return None;
    }
    match (find_tag(dynamic, dt::STRTAB), find_tag(dynamic, dt::STRSZ)) {
        (Some(t), Some(z)) => match vaddr_to_off(phdrs, dynamic[t].val) {
            Some(off) => match slice(data, off, dynamic[z].val, "dynstr") {
                Ok(b) => Some(copy_bytes(b)),
                Err(_) => None,
            },
            None => None,
        },
        _ => None,
    }
}

/// The bytes of the first `PT_INTERP` segment.
pub open spec fn interp_of(data: Seq<u8>, phdrs: Seq<Phdr>) -> Option<Seq<u8>> {
    match first(phdrs, segment_type(pt::INTERP)) {
        Some(k) => match bytes_at(
            data,
            phdrs[k].offset as int,
            phdrs[k].filesz as int,
            "interp"@,
        ) {
            Ok(b) => Some(b),
            Err(_) => None,
        },
        None => None,
    }
}

fn recover_interp(data: &[u8], phdrs: &Vec<Phdr>) -> (res: Option<Vec<u8>>)
    ensures
        contents_opt(res) == interp_of(data@, phdrs@),
{
    match find_segment_type(phdrs, pt::INTERP) {
        Some(k) => match slice(data, phdrs[k].offset, phdrs[k].filesz, "interp") {
            Ok(b) => Some(copy_bytes(b)),
            Err(_) => None,
        },
        None => None,
    }
}

/// The header with the index of the section names, and the two table lengths,
/// taken from section 0 where the header's own fields say so.
pub open spec fn resolved(
    data: Seq<u8>,
    enc: Encoding,
    h: EhdrView,
    phnum: u16,
    shnum: u16,
) -> Outcome<(EhdrView, u64, u64)> {
    let escaped = phnum == PN_XNUM || shnum == 0 || h.shstrndx == SHN_XINDEX;
    if h.shoff == 0 || !escaped {
        Ok((h, phnum as u64, shnum as u64))
    } else {
        match bytes_at(data, h.shoff as int, shdr_len(enc.class), "shdr0"@) {
            Err(e) => Err(e),
            Ok(b) => match shdr_in(enc, b) {
                Err(e) => Err(e),
                Ok(s) => Ok(
                    (
                        EhdrView {
                            shstrndx: if h.shstrndx == SHN_XINDEX {
                                s.link
                            } else {
                                h.shstrndx
                            },
                            ..h
                        },
                        if phnum == PN_XNUM {
                            s.info as u64
                        } else {
                            phnum as u64
                        },
                        if shnum == 0 {
                            s.size
                        } else {
                            shnum as u64
                        },
                    ),
                ),
            },
        }
    }
}

/// Resolve the escapes that stand for counts and indices too large for the
/// header's 16-bit fields; section 0 holds the real ones.
fn resolve_counts(
    data: &[u8],
    enc: Encoding,
    ehdr: &mut Ehdr,
    raw_phnum: u16,
    raw_shnum: u16,
) -> (res: Result<(u64, u64)>)
    ensures
        match res {
            Ok(n) => resolved(data@, enc, old(ehdr)@, raw_phnum, raw_shnum) == Outcome::Ok(
                (final(ehdr)@, n.0, n.1),
            ),
            Err(e) => resolved(data@, enc, old(ehdr)@, raw_phnum, raw_shnum) == Outcome::<
                (EhdrView, u64, u64),
            >::Err(e@) && *final(ehdr) == *old(ehdr),
        },
{
    let escaped = raw_phnum == PN_XNUM || raw_shnum == 0 || ehdr.shstrndx == SHN_XINDEX as u32;
    if ehdr.shoff == 0 || !escaped {
        return Ok((raw_phnum as u64, raw_shnum as u64));
    }
    let sec0 = read_shdr(enc, slice(data, ehdr.shoff, shdr_size(enc.class) as u64, "shdr0")?)?;
    let phnum: u64 = if raw_phnum == PN_XNUM {
        sec0.info as u64
    } else {
        raw_phnum as u64
    };
    let shnum: u64 = if raw_shnum == 0 {
        sec0.size
    } else {
        raw_shnum as u64
    };
    if ehdr.shstrndx == SHN_XINDEX as u32 {
        ehdr.shstrndx = sec0.link;
    }
    Ok((phnum, shnum))
}

/// What a file holds, or why it cannot be read.
pub open spec fn parsed(data: Seq<u8>) -> Outcome<ImageView> {
    match ehdr_at(data) {
        Err(e) => Err(e),
        Ok((raw, enc, raw_phnum, raw_shnum)) => match resolved(
            data,
            enc,
            raw,
            raw_phnum,
            raw_shnum,
        ) {
            Err(e) => Err(e),
            Ok((ehdr, phnum, shnum)) => match phdr_table(
                data,
                enc,
                ehdr.phoff as int,
                phnum as int,
            ) {
                Err(e) => Err(e),
                Ok(phdrs) => match shdr_table(data, enc, ehdr.shoff as int, shnum as int) {
                    Err(e) => Err(e),
                    Ok(shdrs) => parsed_tables(data, enc, ehdr, phdrs, shdrs),
                },
            },
        },
    }
}

/// What a file with these tables holds, or why it cannot be read.
pub open spec fn parsed_tables(
    data: Seq<u8>,
    enc: Encoding,
    ehdr: EhdrView,
    phdrs: Seq<Phdr>,
    shdrs: Seq<Shdr>,
) -> Outcome<ImageView> {
    match section_bytes(data, shdrs, shdrs.len() as int) {
        Err(e) => Err(e),
        Ok(sections) => match dynamic_of(data, enc, shdrs, phdrs) {
            Err(e) => Err(e),
            Ok(dynamic) => Ok(
                ImageView {
                    enc,
                    ehdr,
                    phdrs,
                    shdrs,
                    sections,
                    dynamic,
                    dynstr_fallback: dynstr_of(data, phdrs, shdrs, dynamic),
                    interp_fallback: interp_of(data, phdrs),
                },
            ),
        },
    }
}

/// The sections that were read are as many as were asked for.
pub proof fn lemma_section_bytes_len(data: Seq<u8>, shdrs: Seq<Shdr>, n: int)
    requires
        0 <= n,
    ensures
        section_bytes(data, shdrs, n) matches Ok(t) ==> t.len() == n,
    decreases n,
{
    if n > 0 {
        lemma_section_bytes_len(data, shdrs, n - 1);
    }
}

/// Decode a file. Malformed input is refused, never trusted.
pub fn parse(data: &[u8]) -> (res: Result<ElfImage>)
    ensures
        match res {
            Ok(image) => parsed(data@) == Outcome::Ok(image@) && image@.wf(),
            Err(e) => parsed(data@) == Outcome::<ImageView>::Err(e@),
        },
{
    let (mut ehdr, enc, raw_phnum, raw_shnum) = read_ehdr(data)?;
    let (phnum, shnum) = resolve_counts(data, enc, &mut ehdr, raw_phnum, raw_shnum)?;
    let phdrs = read_phdrs(data, enc, ehdr.phoff, phnum)?;
    let shdrs = read_shdrs(data, enc, ehdr.shoff, shnum)?;
    let section_data = read_sections(data, &shdrs)?;
    let dynamic = read_dynamic(data, enc, &shdrs, &phdrs)?;
    let dynstr_fallback = recover_dynstr(data, &phdrs, &shdrs, &dynamic);
    let interp_fallback = recover_interp(data, &phdrs);
    proof {
        lemma_section_bytes_len(data@, shdrs@, shdrs@.len() as int);
    }
    Ok(
        ElfImage {
            enc,
            ehdr,
            phdrs,
            shdrs,
            section_data,
            dynamic,
            dynstr_fallback,
            interp_fallback,
        },
    )
}

} // verus!
