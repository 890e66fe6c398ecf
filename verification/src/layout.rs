//! Assign file offsets after operations have changed section sizes, then hand
//! over to the serializer. Grown sections, a fresh copy of the extended program
//! header table and the section header table go to the end of the file, in a new
//! loaded segment.
//!
//! This serves shared objects and executables alike: the moved sections are
//! reached through dynamic tags and segments, which are adjusted, not through
//! addresses in code, so a fresh high address is safe.
use vstd::prelude::*;

use crate::codec::{dyn_out, dyn_size, ehdr_at, phdr_size, read_ehdr, shdr_size, write_dyn};
use crate::constraints::{validate, violation};
use crate::error::{Error, ErrorView, Outcome, Result};
use crate::ir::{
    contents, dt, et, find_segment_type, pf, pt, segment_type, shf, sht, Class, DynEntry, EhdrView,
    ElfImage, Encoding, ImageView, Phdr, Shdr,
};
use crate::raw::{dyn_len, phdr_len, shdr_len, word_at};
use crate::seqs::{first, first_from, lemma_first_from, zeros};
use crate::serialize::written_whole;
use crate::text::{concat3, radix_text, to_radix};

verus! {

/// The least multiple of `align` that is not below `v`.
pub open spec fn rounded_up(v: int, align: int) -> int {
    if align <= 1 || v % align == 0 {
        v
    } else {
        v - v % align + align
    }
}

/// `v` rounded up, unless that takes more than 64 bits.
fn round_up(v: u64, align: u64) -> (res: Option<u64>)
    ensures
        match res {
            Some(r) => r == rounded_up(v as int, align as int),
            None => rounded_up(v as int, align as int) > u64::MAX,
        },
{
    if align <= 1 || v % align == 0 {
        Some(v)
    } else {
        v.checked_add(align - v % align)
    }
}

pub proof fn lemma_rounded_up(v: int, align: int)
    requires
        0 <= v,
    ensures
        v <= rounded_up(v, align),
        align > 1 ==> rounded_up(v, align) < v + align,
        align > 1 ==> rounded_up(v, align) % align == 0,
{
    if align > 1 {
        vstd::arithmetic::div_mod::lemma_mod_bound(v, align);
        vstd::arithmetic::div_mod::lemma_fundamental_div_mod(v, align);
        if v % align != 0 {
            let q = v / align;
            assert(rounded_up(v, align) == align * (q + 1)) by (nonlinear_arith)
                requires
                    rounded_up(v, align) == v - v % align + align,
                    v == align * q + v % align,
            ;
            vstd::arithmetic::div_mod::lemma_mod_multiples_basic(q + 1, align);
            assert(align * (q + 1) == (q + 1) * align) by (nonlinear_arith);
        }
    }
}

/// Final size of section `i`. That of `.dynamic` follows the dynamic array, which
/// is encoded again at the end; a shrunk array keeps the size with a zeroed tail,
/// so only growth counts.
pub open spec fn section_len(v: ImageView, i: int) -> int {
    if v.dyn_idx() == Some(i) {
        let encoded = v.dynamic.len() * dyn_len(v.enc.class);
        if encoded > v.shdrs[i].size {
            encoded
        } else {
            v.shdrs[i].size as int
        }
    } else {
        v.sections[i].len() as int
    }
}

/// Whether section `i` has bytes in the file and no longer the size that its
/// header says.
pub open spec fn grown(v: ImageView, i: int) -> bool {
    v.shdrs[i].sh_type != sht::NOBITS && section_len(v, i) != v.shdrs[i].size
}

/// Number of grown sections before `n`.
pub open spec fn grown_count(v: ImageView, n: int) -> int
    decreases n,
{
    if n <= 0 {
        0
    } else {
        grown_count(v, n - 1) + if grown(v, n - 1) {
            1int
        } else {
            0
        }
    }
}

/// Bytes of the first `n` dynamic entries.
pub open spec fn dyns_out(enc: Encoding, dynamic: Seq<DynEntry>, n: int) -> Outcome<Seq<u8>>
    decreases n,
{
    if n <= 0 {
        Ok(Seq::empty())
    } else {
        match (dyns_out(enc, dynamic, n - 1), dyn_out(enc, dynamic[n - 1])) {
            (Err(e), _) => Err(e),
            (_, Err(e)) => Err(e),
            (Ok(t), Ok(b)) => Ok(t + b),
        }
    }
}

proof fn lemma_dyns_out_err(enc: Encoding, dynamic: Seq<DynEntry>, i: int, n: int)
    requires
        i <= n,
        dyns_out(enc, dynamic, i) is Err,
    ensures
        dyns_out(enc, dynamic, n) == dyns_out(enc, dynamic, i),
    decreases n - i,
{
    if i < n {
        lemma_dyns_out_err(enc, dynamic, i, n - 1);
    }
}

/// `b` with zeros up to the length `n`.
pub open spec fn padded(b: Seq<u8>, n: int) -> Seq<u8> {
    if b.len() < n {
        b + zeros(n - b.len())
    } else {
        b
    }
}

/// The image with the dynamic array encoded into its section.
pub open spec fn synced(v: ImageView) -> Outcome<ImageView> {
    match v.dyn_idx() {
        None => Ok(v),
        Some(k) => match dyns_out(v.enc, v.dynamic, v.dynamic.len() as int) {
            Err(e) => Err(e),
            Ok(b) => Ok(
                ImageView {
                    sections: v.sections.update(k, padded(b, v.shdrs[k].size as int)),
                    ..v
                },
            ),
        },
    }
}

/// Encode the dynamic array into its section, zero-padded to the header's size so
/// that a shrunk array still ends in `DT_NULL`.
fn sync_dynamic(image: &mut ElfImage) -> (res: Result<()>)
    requires
        old(image)@.wf(),
    ensures
        final(image)@.wf(),
        match res {
            Ok(_) => synced(old(image)@) == Outcome::Ok(final(image)@),
            Err(e) => synced(old(image)@) == Outcome::<ImageView>::Err(e@) && *final(image)
                == *old(image),
        },
{
    let k = match image.dyn_idx() {
        Some(k) => k,
        None => {
            return Ok(());
        },
    };
    let ghost v = image@;
    let mut bytes: Vec<u8> = Vec::new();
    let mut i: usize = 0;
    assert(bytes@ =~= Seq::empty());
    while i < image.dynamic.len()
        invariant
            *image == *old(image),
            image@ == v,
            v.wf(),
            v.dyn_idx() == Some(k as int),
            i <= image.dynamic@.len(),
            dyns_out(v.enc, v.dynamic, i as int) == Outcome::Ok(bytes@),
        decreases image.dynamic@.len() - i,
    {
        match write_dyn(image.enc, &image.dynamic[i], &mut bytes) {
            Ok(_) => {},
            Err(e) => {
                proof {
                    lemma_dyns_out_err(v.enc, v.dynamic, i + 1, v.dynamic.len() as int);
                }
                return Err(e);
            },
        }
        i += 1;
    }
    let size = image.shdrs[k].size;
    let ghost encoded = bytes@;
    assert(padded(encoded, encoded.len() as int) =~= bytes@);
    while (bytes.len() as u64) < size
        invariant
            encoded.len() <= bytes@.len(),
            bytes@.len() > encoded.len() ==> bytes@.len() <= size,
            bytes@ == padded(encoded, bytes@.len() as int),
        decreases size - bytes@.len(),
    {
        bytes.push(0);
        assert(bytes@ =~= padded(encoded, bytes@.len() as int));
    }
    assert(bytes@ =~= padded(encoded, size as int));
    image.section_data[k] = bytes;
    assert(contents(image.section_data@) =~= v.sections.update(k as int, bytes@));
    Ok(())
}

/// The output of an image whose offsets are assigned, and the image as it was
/// written: the dynamic array is encoded, the segments are checked, and the
/// whole is rendered.
pub open spec fn emitted(v: ImageView, original: Seq<u8>, total: u64) -> (
    ImageView,
    Outcome<Seq<u8>>,
) {
    match synced(v) {
        Err(e) => (v, Err(e)),
        Ok(w) => match violation(w.phdrs) {
            Some(m) => (w, Err(ErrorView::Constraint(m))),
            None => (w, written_whole(w, original, total)),
        },
    }
}

fn emit(image: &mut ElfImage, original: &[u8], total: u64) -> (res: Result<Vec<u8>>)
    requires
        old(image)@.wf(),
    ensures
        final(image)@.wf(),
        match res {
            Ok(b) => emitted(old(image)@, original@, total) == (
                final(image)@,
                Outcome::<Seq<u8>>::Ok(b@),
            ),
            Err(e) => emitted(old(image)@, original@, total) == (
                final(image)@,
                Outcome::<Seq<u8>>::Err(e@),
            ),
        },
{
    sync_dynamic(image)?;
    validate(image)?;
    crate::serialize::write(image, original, total)
}

/// Whether a segment is the loaded region that begins with the program header
/// table at `phoff`, as a previous relayout left it.
pub open spec fn region_at(phoff: u64) -> spec_fn(Phdr) -> bool {
    |p: Phdr| p.p_type == pt::LOAD && p.offset == phoff
}

/// The region that a previous relayout appended, when it may be replaced.
pub open spec fn prior(v: ImageView, reclaim: bool) -> Option<int> {
    if reclaim {
        first(v.phdrs, region_at(v.ehdr.phoff))
    } else {
        None
    }
}

/// Offset of the region that is replaced.
pub open spec fn region_start(v: ImageView, reclaim: bool) -> Option<u64> {
    match prior(v, reclaim) {
        Some(k) => Some(v.phdrs[k].offset),
        None => None,
    }
}

/// The segments that stay: all but the region that is replaced.
pub open spec fn kept(v: ImageView, reclaim: bool) -> Seq<Phdr> {
    match prior(v, reclaim) {
        Some(k) => v.phdrs.remove(k),
        None => v.phdrs,
    }
}

/// Whether section `i` moves to the new region: it has grown, or it stands in
/// the region that is replaced.
pub open spec fn relocates(v: ImageView, region: Option<u64>, i: int) -> bool {
    &&& v.shdrs[i].sh_type != sht::NOBITS
    &&& v.sections[i].len() != 0
    &&& grown(v, i) || (region matches Some(r) && v.shdrs[i].offset >= r)
}

/// Page size of a machine, unless one is forced.
pub open spec fn page_of(machine: u16, forced: Option<u64>) -> u64 {
    match forced {
        Some(p) => p,
        None => if machine == 20 || machine == 21 || machine == 183 || machine == 8 {
            0x10000
        } else {
            0x1000
        },
    }
}

/// The end of the highest of the first `n` segments.
pub open spec fn max_end(phdrs: Seq<Phdr>, n: int) -> int
    decreases n,
{
    if n <= 0 {
        0
    } else {
        let m = max_end(phdrs, n - 1);
        let e = phdrs[n - 1].vaddr + phdrs[n - 1].memsz;
        if e > m {
            e
        } else {
            m
        }
    }
}

/// The largest of `page` and the alignments of the first `n` segments.
pub open spec fn max_align(phdrs: Seq<Phdr>, page: u64, n: int) -> u64
    decreases n,
{
    if n <= 0 {
        page
    } else {
        let m = max_align(phdrs, page, n - 1);
        if phdrs[n - 1].align > m {
            phdrs[n - 1].align
        } else {
            m
        }
    }
}

/// The lowest address of the loaded ones among the first `n` segments, and the
/// highest address of all where there is none.
pub open spec fn min_load(phdrs: Seq<Phdr>, n: int) -> u64
    decreases n,
{
    if n <= 0 {
        u64::MAX
    } else {
        let m = min_load(phdrs, n - 1);
        if phdrs[n - 1].p_type == pt::LOAD && phdrs[n - 1].vaddr < m {
            phdrs[n - 1].vaddr
        } else {
            m
        }
    }
}

/// The address that the file is loaded at, zero where nothing is loaded.
pub open spec fn base_of(phdrs: Seq<Phdr>) -> u64 {
    let m = min_load(phdrs, phdrs.len() as int);
    if m == u64::MAX {
        0
    } else {
        m
    }
}

/// Room for those of the first `n` sections that move.
pub open spec fn moved_size(v: ImageView, region: Option<u64>, n: int) -> int
    decreases n,
{
    if n <= 0 {
        0
    } else {
        moved_size(v, region, n - 1) + if relocates(v, region, n - 1) {
            rounded_up(section_len(v, n - 1), dyn_len(v.enc.class))
        } else {
            0
        }
    }
}

/// Where the new region goes.
pub struct Plan {
    /// File offset of the region.
    pub start: int,
    /// Address of the region.
    pub vaddr: int,
    /// Alignment of the region.
    pub align: u64,
    /// Room for the program header table.
    pub pht: int,
    /// Room for the section header table.
    pub sht: int,
    /// Size of the region.
    pub needed: int,
    /// Size of the output.
    pub total: int,
}

pub open spec fn max(a: int, b: int) -> int {
    if a < b {
        b
    } else {
        a
    }
}

/// The region for the sections that move. The loader takes the address of the
/// program headers to be the load address plus their offset, so every byte of
/// the region keeps that distance between address and offset; and the offset is
/// high enough for the address to be past all segments.
pub open spec fn plan_of(
    v: ImageView,
    segs: Seq<Phdr>,
    region: Option<u64>,
    file_len: int,
    page_size: Option<u64>,
) -> Plan {
    let unit = dyn_len(v.enc.class);
    let align = max_align(segs, page_of(v.ehdr.machine, page_size), segs.len() as int);
    let base = base_of(segs) as int;
    let end = rounded_up(max_end(segs, segs.len() as int), align as int);
    let from = match region {
        Some(r) => r as int,
        None => file_len,
    };
    let start = rounded_up(max(from, end - base), align as int);
    let pht = rounded_up((segs.len() + 1) * phdr_len(v.enc.class) + v.ehdr.ehsize, unit);
    let sht = rounded_up(v.shdrs.len() * shdr_len(v.enc.class), unit);
    let needed = pht + sht + moved_size(v, region, v.shdrs.len() as int);
    Plan { start, vaddr: base + start, align, pht, sht, needed, total: start + needed + 1 }
}

/// New offset of section `i`.
pub open spec fn new_offset(v: ImageView, region: Option<u64>, plan: Plan, i: int) -> int {
    plan.start + plan.pht + plan.sht + moved_size(v, region, i)
}

/// New address of section `i`.
pub open spec fn new_addr(v: ImageView, region: Option<u64>, plan: Plan, i: int) -> int {
    plan.vaddr + (new_offset(v, region, plan, i) - plan.start)
}

/// Whether all offsets and addresses of the plan, and every address that is
/// adjusted by it, fit in 64 bits.
pub open spec fn plan_fits(v: ImageView, region: Option<u64>, plan: Plan) -> bool {
    &&& plan.total <= u64::MAX
    &&& plan.vaddr + plan.needed <= u64::MAX
    &&& forall|i: int|
        0 <= i < v.shdrs.len() && relocates(v, region, i) ==> #[trigger] new_addr(
            v,
            region,
            plan,
            i,
        ) + v.shdrs[i].size <= u64::MAX
}

/// The first moving section at or after `i` whose old address range holds `x`. A
/// section at address zero is not loaded and holds no address.
pub open spec fn moved_from(v: ImageView, region: Option<u64>, x: u64, i: int) -> Option<int>
    decreases v.shdrs.len() - i,
{
    if i < 0 || i >= v.shdrs.len() {
        None
    } else if relocates(v, region, i) && v.shdrs[i].addr != 0 && v.shdrs[i].addr <= x
        < v.shdrs[i].addr + v.shdrs[i].size {
        Some(i)
    } else {
        moved_from(v, region, x, i + 1)
    }
}

/// The length of a table's entries and the place of the address in each, for the
/// tables whose entries hold one.
pub open spec fn address_field(class: Class, sh_type: u32) -> Option<(int, int)> {
    if sh_type == sht::RELA {
        Some(
            match class {
                Class::Elf64 => (24, 0),
                Class::Elf32 => (12, 0),
            },
        )
    } else if sh_type == sht::REL {
        Some(
            match class {
                Class::Elf64 => (16, 0),
                Class::Elf32 => (8, 0),
            },
        )
    } else if sh_type == sht::DYNSYM || sh_type == sht::SYMTAB {
        Some(
            match class {
                Class::Elf64 => (24, 8),
                Class::Elf32 => (16, 4),
            },
        )
    } else {
        None
    }
}

/// Whether an entry of the table `data`, from position `o` on, holds an address
/// in a section that moves.
pub open spec fn entry_hits(
    v: ImageView,
    region: Option<u64>,
    data: Seq<u8>,
    stride: int,
    field: int,
    o: int,
) -> bool
    decreases data.len() - o,
{
    if stride <= 0 || o + stride > data.len() {
        false
    } else {
        moved_from(v, region, word_at(v.enc.class, v.enc.endian, data, o + field), 0) is Some
            || entry_hits(v, region, data, stride, field, o + stride)
    }
}

/// Whether section `i` is a loaded table with an address in a section that moves.
pub open spec fn refers(v: ImageView, region: Option<u64>, i: int) -> bool {
    v.shdrs[i].flags & shf::ALLOC != 0 && (match address_field(v.enc.class, v.shdrs[i].sh_type) {
        Some((stride, field)) => entry_hits(v, region, v.sections[i], stride, field, 0),
        None => false,
    })
}

/// The refusal for the first table at or after `i` that refers to a section that
/// moves.
pub open spec fn reference_fault(v: ImageView, region: Option<u64>, i: int) -> Option<ErrorView>
    decreases v.shdrs.len() - i,
{
    if i < 0 || i >= v.shdrs.len() {
        None
    } else if refers(v, region, i) {
        let name = match v.section_name(i) {
            Some(s) => s,
            None => "?"@,
        };
        Some(
            ErrorView::Unsupported(
                "cannot relocate section referenced by "@ + name + " entries at its address"@,
            ),
        )
    } else {
        reference_fault(v, region, i + 1)
    }
}

/// The section headers with the moving sections placed.
pub open spec fn placed_sections(v: ImageView, region: Option<u64>, plan: Plan) -> Seq<Shdr> {
    Seq::new(
        v.shdrs.len(),
        |i: int|
            if relocates(v, region, i) {
                Shdr {
                    offset: new_offset(v, region, plan, i) as u64,
                    addr: new_addr(v, region, plan, i) as u64,
                    size: section_len(v, i) as u64,
                    ..v.shdrs[i]
                }
            } else {
                v.shdrs[i]
            },
    )
}

/// The segment of the new region.
pub open spec fn new_load(plan: Plan) -> Phdr {
    Phdr {
        p_type: pt::LOAD,
        flags: pf::R | pf::W,
        offset: plan.start as u64,
        vaddr: plan.vaddr as u64,
        paddr: plan.vaddr as u64,
        filesz: plan.needed as u64,
        memsz: plan.needed as u64,
        align: plan.align,
    }
}

/// Whether a segment is the note at the file offset `off`.
pub open spec fn note_at(off: u64) -> spec_fn(Phdr) -> bool {
    |p: Phdr| p.p_type == pt::NOTE && p.offset == off
}

/// `p` moved to the given place.
pub open spec fn moved_segment(p: Phdr, offset: u64, addr: u64, size: u64) -> Phdr {
    Phdr { offset, vaddr: addr, paddr: addr, filesz: size, memsz: size, ..p }
}

/// `p` moved to where section `s` is.
pub open spec fn segment_of(p: Phdr, s: Shdr) -> Phdr {
    moved_segment(p, s.offset, s.addr, s.size)
}

/// The note segment that covers the library cache among `segs`.
pub open spec fn cache_segment(v: ImageView, segs: Seq<Phdr>) -> Option<int> {
    match v.find_section(".note.nixos.ldcache"@) {
        Some(s) => first(segs, note_at(v.shdrs[s].offset)),
        None => None,
    }
}

/// Segment `k` of `segs`, pointed at what it describes: the program headers, the
/// interpreter, the dynamic array or the library cache.
pub open spec fn placed_segment(
    v: ImageView,
    shdrs: Seq<Shdr>,
    plan: Plan,
    segs: Seq<Phdr>,
    cache: Option<int>,
    k: int,
) -> Phdr {
    let p = segs[k];
    if cache == Some(k) {
        segment_of(p, shdrs[v.find_section(".note.nixos.ldcache"@)->Some_0])
    } else if p.p_type == pt::PHDR {
        moved_segment(
            p,
            plan.start as u64,
            plan.vaddr as u64,
            (segs.len() * phdr_len(v.enc.class)) as u64,
        )
    } else if p.p_type == pt::INTERP && v.find_section(".interp"@) is Some {
        segment_of(p, shdrs[v.find_section(".interp"@)->Some_0])
    } else if p.p_type == pt::DYNAMIC && v.dyn_idx() is Some {
        segment_of(p, shdrs[v.dyn_idx()->Some_0])
    } else {
        p
    }
}

/// The segments with the new region added, each pointed at what it describes.
pub open spec fn placed_segments(
    v: ImageView,
    shdrs: Seq<Shdr>,
    plan: Plan,
    old_segs: Seq<Phdr>,
) -> Seq<Phdr> {
    let segs = old_segs.push(new_load(plan));
    let cache = cache_segment(v, old_segs);
    Seq::new(segs.len(), |k: int| placed_segment(v, shdrs, plan, segs, cache, k))
}

/// The dynamic tags whose values the loader takes as addresses.
pub open spec fn address_tag(tag: i64) -> bool {
    tag == dt::HASH || tag == dt::PLTGOT || tag == dt::STRTAB || tag == dt::SYMTAB || tag
        == dt::RELA || tag == dt::REL || tag == dt::JMPREL || tag == dt::VERSYM || tag
        == dt::VERNEED || tag == dt::VERDEF || tag == dt::GNU_HASH || tag == dt::RELR || tag
        == dt::INIT || tag == dt::FINI || tag == dt::INIT_ARRAY || tag == dt::FINI_ARRAY || tag
        == dt::PREINIT_ARRAY
}

/// A dynamic entry after the move: an address in a section that moved follows
/// it, and `DT_STRSZ` is the size of `.dynstr`.
pub open spec fn rebased(
    v: ImageView,
    region: Option<u64>,
    shdrs: Seq<Shdr>,
    plan: Plan,
    d: DynEntry,
) -> DynEntry {
    if address_tag(d.tag) {
        match moved_from(v, region, d.val, 0) {
            Some(i) => DynEntry {
                val: (new_addr(v, region, plan, i) + (d.val - v.shdrs[i].addr)) as u64,
                ..d
            },
            None => d,
        }
    } else if d.tag == dt::STRSZ && v.find_section(".dynstr"@) is Some {
        DynEntry { val: shdrs[v.find_section(".dynstr"@)->Some_0].size, ..d }
    } else {
        d
    }
}

/// The image with the new region laid out: program headers, section headers,
/// then the moving sections. A file without section headers has no place for
/// them.
pub open spec fn relaid(
    v: ImageView,
    region: Option<u64>,
    plan: Plan,
    segs: Seq<Phdr>,
) -> ImageView {
    let shdrs = placed_sections(v, region, plan);
    ImageView {
        ehdr: EhdrView {
            phoff: plan.start as u64,
            shoff: if v.shdrs.len() == 0 {
                0
            } else {
                (plan.start + plan.pht) as u64
            },
            ..v.ehdr
        },
        phdrs: placed_segments(v, shdrs, plan, segs),
        shdrs,
        dynamic: Seq::new(
            v.dynamic.len(),
            |k: int| rebased(v, region, shdrs, plan, v.dynamic[k]),
        ),
        ..v
    }
}

/// Move the grown sections to a new region and render the result. A refusal
/// before the move leaves the image as it was.
pub open spec fn relayout_result(
    v: ImageView,
    original: Seq<u8>,
    page_size: Option<u64>,
    reclaim: bool,
) -> (ImageView, Outcome<Seq<u8>>) {
    let region = region_start(v, reclaim);
    let segs = kept(v, reclaim);
    let plan = plan_of(v, segs, region, original.len() as int, page_size);
    if first(segs, segment_type(pt::PHDR)) is None {
        (v, Err(ErrorView::Unsupported("no PT_PHDR segment; cannot relocate program headers"@)))
    } else if !plan_fits(v, region, plan) {
        (v, Err(ErrorView::Serialize("layout does not fit in 64 bits"@)))
    } else {
        match reference_fault(v, region, 0) {
            Some(e) => (v, Err(e)),
            None => emitted(relaid(v, region, plan, segs), original, plan.total as u64),
        }
    }
}

/// The output for an edited image, and the image as it was written. Without
/// growth the file is rewritten in place; otherwise what grew moves to a new
/// region.
pub open spec fn finalized(
    v: ImageView,
    original: Seq<u8>,
    page_size: Option<u64>,
    no_clobber: bool,
) -> (ImageView, Outcome<Seq<u8>>) {
    match ehdr_at(original) {
        Err(e) => (v, Err(e)),
        Ok((_, _, phnum, _)) => if grown_count(v, v.shdrs.len() as int) == 0 && v.phdrs.len()
            <= phnum {
            emitted(v, original, original.len() as u64)
        } else if v.ehdr.e_type != et::DYN && v.ehdr.e_type != et::EXEC {
            (v, Err(ErrorView::Unsupported("unsupported ELF type for relayout"@)))
        } else {
            relayout_result(v, original, page_size, !no_clobber)
        },
    }
}

pub proof fn lemma_moved_size(v: ImageView, region: Option<u64>, i: int, n: int)
    requires
        0 <= i <= n <= v.shdrs.len(),
        v.wf(),
    ensures
        0 <= moved_size(v, region, i) <= moved_size(v, region, n),
        i < n && relocates(v, region, i) ==> moved_size(v, region, i) + section_len(v, i)
            <= moved_size(v, region, n),
    decreases n,
{
    if n > 0 {
        lemma_section_len(v, n - 1);
        lemma_rounded_up(section_len(v, n - 1), dyn_len(v.enc.class));
        if i < n {
            lemma_moved_size(v, region, i, n - 1);
        } else {
            lemma_moved_size(v, region, n - 1, n - 1);
        }
    }
}

pub proof fn lemma_section_len(v: ImageView, i: int)
    requires
        0 <= i < v.shdrs.len(),
    ensures
        section_len(v, i) >= 0,
{
    assert(v.dynamic.len() * dyn_len(v.enc.class) >= 0) by (nonlinear_arith)
        requires
            dyn_len(v.enc.class) >= 0,
    ;
}

/// How the parts of a plan lie to each other.
pub proof fn lemma_plan(
    v: ImageView,
    segs: Seq<Phdr>,
    region: Option<u64>,
    file_len: int,
    page_size: Option<u64>,
)
    requires
        v.wf(),
        0 <= file_len,
    ensures
        ({
            let plan = plan_of(v, segs, region, file_len, page_size);
            let end = rounded_up(max_end(segs, segs.len() as int), plan.align as int);
            &&& 0 <= max_end(segs, segs.len() as int) <= end <= plan.vaddr
            &&& match region {
                Some(r) => r <= plan.start,
                None => file_len <= plan.start,
            }
            &&& end - base_of(segs) <= plan.start
            &&& plan.vaddr == base_of(segs) + plan.start
            &&& 0 <= (segs.len() + 1) * phdr_len(v.enc.class) + v.ehdr.ehsize <= plan.pht
            &&& 0 <= (segs.len() + 1) * phdr_len(v.enc.class)
            &&& 0 <= v.shdrs.len() * shdr_len(v.enc.class) <= plan.sht
            &&& plan.needed == plan.pht + plan.sht + moved_size(v, region, v.shdrs.len() as int)
            &&& 0 <= moved_size(v, region, v.shdrs.len() as int)
            &&& plan.total == plan.start + plan.needed + 1
        }),
{
    let plan = plan_of(v, segs, region, file_len, page_size);
    let top = max_end(segs, segs.len() as int);
    lemma_max_end(segs, segs.len() as int);
    lemma_rounded_up(top, plan.align as int);
    let from = match region {
        Some(r) => r as int,
        None => file_len,
    };
    let end = rounded_up(top, plan.align as int);
    lemma_rounded_up(max(from, end - base_of(segs)), plan.align as int);
    assert((segs.len() + 1) * phdr_len(v.enc.class) >= 0) by (nonlinear_arith)
        requires
            phdr_len(v.enc.class) >= 0,
    ;
    assert(v.shdrs.len() * shdr_len(v.enc.class) >= 0) by (nonlinear_arith)
        requires
            shdr_len(v.enc.class) >= 0,
    ;
    lemma_rounded_up(
        (segs.len() + 1) * phdr_len(v.enc.class) + v.ehdr.ehsize,
        dyn_len(v.enc.class),
    );
    lemma_rounded_up(v.shdrs.len() * shdr_len(v.enc.class), dyn_len(v.enc.class));
    lemma_moved_size(v, region, 0, v.shdrs.len() as int);
}

/// No segment ends past the highest end.
pub proof fn lemma_max_end(segs: Seq<Phdr>, n: int)
    requires
        0 <= n <= segs.len(),
    ensures
        0 <= max_end(segs, n),
        forall|i: int|
            0 <= i < n ==> (#[trigger] segs[i]).vaddr + segs[i].memsz <= max_end(segs, n),
    decreases n,
{
    if n > 0 {
        lemma_max_end(segs, n - 1);
    }
}

/// Size of section `i`, unless it takes more than 64 bits.
fn section_size(image: &ElfImage, dyn_idx: Option<usize>, i: usize) -> (res: Option<u64>)
    requires
        image@.wf(),
        i < image@.shdrs.len(),
        match dyn_idx {
            Some(k) => image@.dyn_idx() == Some(k as int),
            None => image@.dyn_idx() is None,
        },
    ensures
        match res {
            Some(n) => n == section_len(image@, i as int),
            None => section_len(image@, i as int) > u64::MAX,
        },
{
    if let Some(k) = dyn_idx {
        if k == i {
            let unit: u64 = dyn_size(image.enc.class) as u64;
            return match (image.dynamic.len() as u64).checked_mul(unit) {
                Some(n) => if n > image.shdrs[i].size {
                    Some(n)
                } else {
                    Some(image.shdrs[i].size)
                },
                None => None,
            };
        }
    }
    Some(image.section_data[i].len() as u64)
}

fn is_grown(image: &ElfImage, dyn_idx: Option<usize>, i: usize) -> (b: bool)
    requires
        image@.wf(),
        i < image@.shdrs.len(),
        match dyn_idx {
            Some(k) => image@.dyn_idx() == Some(k as int),
            None => image@.dyn_idx() is None,
        },
    ensures
        b == grown(image@, i as int),
{
    image.shdrs[i].sh_type != sht::NOBITS && (match section_size(image, dyn_idx, i) {
        Some(n) => n != image.shdrs[i].size,
        None => true,
    })
}

/// Number of sections that have grown.
fn grown_sections(image: &ElfImage) -> (n: usize)
    requires
        image@.wf(),
    ensures
        n == grown_count(image@, image@.shdrs.len() as int),
{
    let dyn_idx = image.dyn_idx();
    let mut n: usize = 0;
    let mut i: usize = 0;
    while i < image.shdrs.len()
        invariant
            image@.wf(),
            match dyn_idx {
                Some(k) => image@.dyn_idx() == Some(k as int),
                None => image@.dyn_idx() is None,
            },
            n <= i <= image@.shdrs.len(),
            n == grown_count(image@, i as int),
        decreases image@.shdrs.len() - i,
    {
        if is_grown(image, dyn_idx, i) {
            n += 1;
        }
        i += 1;
    }
    n
}

/// Which sections move.
fn moving(image: &ElfImage, region: Option<u64>) -> (flags: Vec<bool>)
    requires
        image@.wf(),
    ensures
        flags@.len() == image@.shdrs.len(),
        forall|i: int|
            0 <= i < flags@.len() ==> #[trigger] flags@[i] == relocates(image@, region, i),
{
    let dyn_idx = image.dyn_idx();
    let mut flags: Vec<bool> = Vec::new();
    let mut i: usize = 0;
    while i < image.shdrs.len()
        invariant
            image@.wf(),
            match dyn_idx {
                Some(k) => image@.dyn_idx() == Some(k as int),
                None => image@.dyn_idx() is None,
            },
            flags@.len() == i <= image@.shdrs.len(),
            forall|j: int| 0 <= j < i ==> #[trigger] flags@[j] == relocates(image@, region, j),
        decreases image@.shdrs.len() - i,
    {
        assert(image@.sections[i as int] == image.section_data@[i as int]@);
        let in_region = match region {
            Some(r) => image.shdrs[i].offset >= r,
            None => false,
        };
        flags.push(
            image.shdrs[i].sh_type != sht::NOBITS && image.section_data[i].len() != 0 && (is_grown(
                image,
                dyn_idx,
                i,
            ) || in_region),
        );
        i += 1;
    }
    flags
}

fn page_size_for(image: &ElfImage, forced: Option<u64>) -> (p: u64)
    ensures
        p == page_of(image@.ehdr.machine, forced),
{
    match forced {
        Some(p) => p,
        None => {
            // PowerPC, 64-bit PowerPC, AArch64 and MIPS map pages of 64 KiB.
            let m = image.ehdr.machine;
            if m == 20 || m == 21 || m == 183 || m == 8 {
                0x10000
            } else {
                0x1000
            }
        },
    }
}

/// End of the highest segment, unless it takes more than 64 bits.
fn highest_end(segs: &Vec<Phdr>) -> (res: Option<u64>)
    ensures
        match res {
            Some(n) => n == max_end(segs@, segs@.len() as int),
            None => max_end(segs@, segs@.len() as int) > u64::MAX,
        },
{
    let mut m: u64 = 0;
    let mut i: usize = 0;
    while i < segs.len()
        invariant
            i <= segs@.len(),
            m == max_end(segs@, i as int),
        decreases segs@.len() - i,
    {
        match segs[i].vaddr.checked_add(segs[i].memsz) {
            Some(e) => {
                if e > m {
                    m = e;
                }
            },
            None => {
                proof {
                    lemma_max_end(segs@, segs@.len() as int);
                    assert(segs@[i as int].vaddr + segs@[i as int].memsz > u64::MAX);
                }
                return None;
            },
        }
        i += 1;
    }
    Some(m)
}

fn largest_align(segs: &Vec<Phdr>, page: u64) -> (m: u64)
    ensures
        m == max_align(segs@, page, segs@.len() as int),
{
    let mut m: u64 = page;
    let mut i: usize = 0;
    while i < segs.len()
        invariant
            i <= segs@.len(),
            m == max_align(segs@, page, i as int),
        decreases segs@.len() - i,
    {
        if segs[i].align > m {
            m = segs[i].align;
        }
        i += 1;
    }
    m
}

fn load_base(segs: &Vec<Phdr>) -> (b: u64)
    ensures
        b == base_of(segs@),
{
    let mut m: u64 = u64::MAX;
    let mut i: usize = 0;
    while i < segs.len()
        invariant
            i <= segs@.len(),
            m == min_load(segs@, i as int),
        decreases segs@.len() - i,
    {
        if segs[i].p_type == pt::LOAD && segs[i].vaddr < m {
            m = segs[i].vaddr;
        }
        i += 1;
    }
    if m == u64::MAX {
        0
    } else {
        m
    }
}

/// Room for the moving sections, unless it takes more than 64 bits.
fn moving_room(image: &ElfImage, flags: &Vec<bool>, region: Option<u64>) -> (res: Option<u64>)
    requires
        image@.wf(),
        flags@.len() == image@.shdrs.len(),
        forall|i: int|
            0 <= i < flags@.len() ==> #[trigger] flags@[i] == relocates(image@, region, i),
    ensures
        match res {
            Some(n) => n == moved_size(image@, region, image@.shdrs.len() as int),
            None => moved_size(image@, region, image@.shdrs.len() as int) > u64::MAX,
        },
{
    let dyn_idx = image.dyn_idx();
    let unit: u64 = dyn_size(image.enc.class) as u64;
    let mut room: u64 = 0;
    let mut i: usize = 0;
    while i < image.shdrs.len()
        invariant
            image@.wf(),
            match dyn_idx {
                Some(k) => image@.dyn_idx() == Some(k as int),
                None => image@.dyn_idx() is None,
            },
            unit == dyn_len(image@.enc.class),
            flags@.len() == image@.shdrs.len(),
            forall|j: int|
                0 <= j < flags@.len() ==> #[trigger] flags@[j] == relocates(image@, region, j),
            i <= image@.shdrs.len(),
            room == moved_size(image@, region, i as int),
        decreases image@.shdrs.len() - i,
    {
        if flags[i] {
            proof {
                lemma_section_len(image@, i as int);
                lemma_rounded_up(section_len(image@, i as int), unit as int);
                lemma_moved_size(image@, region, i + 1, image@.shdrs.len() as int);
            }
            let len: u64 = section_size(image, dyn_idx, i)?;
            let len: u64 = round_up(len, unit)?;
            room = room.checked_add(len)?;
        }
        i += 1;
    }
    Some(room)
}

/// A [`Plan`] in machine integers.
struct Region {
    start: u64,
    vaddr: u64,
    align: u64,
    pht: u64,
    sht: u64,
    needed: u64,
    total: u64,
}

impl Region {
    spec fn plan(self) -> Plan {
        Plan {
            start: self.start as int,
            vaddr: self.vaddr as int,
            align: self.align,
            pht: self.pht as int,
            sht: self.sht as int,
            needed: self.needed as int,
            total: self.total as int,
        }
    }
}

/// Place the new region, unless something of it takes more than 64 bits.
fn make_plan(
    image: &ElfImage,
    segs: &Vec<Phdr>,
    flags: &Vec<bool>,
    region: Option<u64>,
    file_len: u64,
    page_size: Option<u64>,
) -> (res: Option<Region>)
    requires
        image@.wf(),
        flags@.len() == image@.shdrs.len(),
        forall|i: int|
            0 <= i < flags@.len() ==> #[trigger] flags@[i] == relocates(image@, region, i),
    ensures
        match res {
            Some(r) => r.plan() == plan_of(image@, segs@, region, file_len as int, page_size)
                && plan_fits(image@, region, r.plan()),
            None => !plan_fits(
                image@,
                region,
                plan_of(image@, segs@, region, file_len as int, page_size),
            ),
        },
{
    let ghost plan = plan_of(image@, segs@, region, file_len as int, page_size);
    proof {
        lemma_plan(image@, segs@, region, file_len as int, page_size);
        assert(segs@.len() + 1 <= (segs@.len() + 1) * phdr_len(image@.enc.class))
            by (nonlinear_arith)
            requires
                phdr_len(image@.enc.class) >= 1,
        ;
    }
    let unit: u64 = dyn_size(image.enc.class) as u64;
    let align: u64 = largest_align(segs, page_size_for(image, page_size));
    let base: u64 = load_base(segs);
    let top: u64 = highest_end(segs)?;
    let end: u64 = round_up(top, align)?;
    let least: u64 = if end > base {
        end - base
    } else {
        0
    };
    let from: u64 = match region {
        Some(r) => r,
        None => file_len,
    };
    let start: u64 = round_up(
        if from < least {
            least
        } else {
            from
        },
        align,
    )?;
    let vaddr: u64 = base.checked_add(start)?;
    let entries: u64 = (segs.len() as u64).checked_add(1)?;
    let entries: u64 = entries.checked_mul(phdr_size(image.enc.class) as u64)?;
    let entries: u64 = entries.checked_add(image.ehdr.ehsize as u64)?;
    let pht: u64 = round_up(entries, unit)?;
    let headers: u64 = (image.shdrs.len() as u64).checked_mul(shdr_size(image.enc.class) as u64)?;
    let sht: u64 = round_up(headers, unit)?;
    let room: u64 = moving_room(image, flags, region)?;
    let needed: u64 = pht.checked_add(sht)?;
    let needed: u64 = needed.checked_add(room)?;
    let total: u64 = start.checked_add(needed)?;
    let total: u64 = total.checked_add(1)?;
    vaddr.checked_add(needed)?;
    let r = Region { start, vaddr, align, pht, sht, needed, total };
    assert(r.plan() == plan);
    if addresses_fit(image, flags, region, &r) {
        Some(r)
    } else {
        None
    }
}

/// Whether every address in a moving section stays within 64 bits.
fn addresses_fit(image: &ElfImage, flags: &Vec<bool>, region: Option<u64>, r: &Region) -> (b: bool)
    requires
        image@.wf(),
        flags@.len() == image@.shdrs.len(),
        forall|i: int|
            0 <= i < flags@.len() ==> #[trigger] flags@[i] == relocates(image@, region, i),
        r.needed == r.pht + r.sht + moved_size(image@, region, image@.shdrs.len() as int),
        r.total == r.start + r.needed + 1,
        r.vaddr + r.needed <= u64::MAX,
    ensures
        b == forall|i: int|
            0 <= i < image@.shdrs.len() && relocates(image@, region, i) ==> #[trigger] new_addr(
                image@,
                region,
                r.plan(),
                i,
            ) + image@.shdrs[i].size <= u64::MAX,
{
    let dyn_idx = image.dyn_idx();
    let unit: u64 = dyn_size(image.enc.class) as u64;
    let mut room: u64 = 0;
    let mut i: usize = 0;
    while i < image.shdrs.len()
        invariant
            image@.wf(),
            match dyn_idx {
                Some(k) => image@.dyn_idx() == Some(k as int),
                None => image@.dyn_idx() is None,
            },
            unit == dyn_len(image@.enc.class),
            flags@.len() == image@.shdrs.len(),
            forall|j: int|
                0 <= j < flags@.len() ==> #[trigger] flags@[j] == relocates(image@, region, j),
            r.needed == r.pht + r.sht + moved_size(image@, region, image@.shdrs.len() as int),
            r.total == r.start + r.needed + 1,
            r.vaddr + r.needed <= u64::MAX,
            i <= image@.shdrs.len(),
            room == moved_size(image@, region, i as int),
            forall|j: int|
                0 <= j < i && relocates(image@, region, j) ==> #[trigger] new_addr(
                    image@,
                    region,
                    r.plan(),
                    j,
                ) + image@.shdrs[j].size <= u64::MAX,
        decreases image@.shdrs.len() - i,
    {
        if flags[i] {
            proof {
                lemma_section_len(image@, i as int);
                lemma_rounded_up(section_len(image@, i as int), unit as int);
                lemma_moved_size(image@, region, i as int, image@.shdrs.len() as int);
                lemma_moved_size(image@, region, i + 1, image@.shdrs.len() as int);
            }
            let addr: u64 = r.vaddr + r.pht + r.sht + room;
            assert(addr == new_addr(image@, region, r.plan(), i as int));
            if addr.checked_add(image.shdrs[i].size).is_none() {
                return false;
            }
            match section_size(image, dyn_idx, i) {
                Some(len) => match round_up(len, unit) {
                    Some(len) => {
                        room = room + len;
                    },
                    None => {
                        return false;
                    },
                },
                None => {
                    return false;
                },
            }
        }
        i += 1;
    }
    true
}

/// The first moving section whose old address range holds `x`.
fn moved_over(
    image: &ElfImage,
    flags: &Vec<bool>,
    region: Option<u64>,
    x: u64,
) -> (res: Option<usize>)
    requires
        flags@.len() == image@.shdrs.len(),
        forall|i: int|
            0 <= i < flags@.len() ==> #[trigger] flags@[i] == relocates(image@, region, i),
    ensures
        match res {
            Some(i) => i < image@.shdrs.len() && moved_from(image@, region, x, 0) == Some(i as int)
                && relocates(image@, region, i as int) && image@.shdrs[i as int].addr <= x
                < image@.shdrs[i as int].addr + image@.shdrs[i as int].size,
            None => moved_from(image@, region, x, 0) is None,
        },
{
    let mut i: usize = 0;
    while i < image.shdrs.len()
        invariant
            flags@.len() == image@.shdrs.len(),
            forall|j: int|
                0 <= j < flags@.len() ==> #[trigger] flags@[j] == relocates(image@, region, j),
            i <= image@.shdrs.len(),
            moved_from(image@, region, x, 0) == moved_from(image@, region, x, i as int),
        decreases image@.shdrs.len() - i,
    {
        let s = image.shdrs[i];
        if flags[i] && s.addr != 0 && s.addr <= x && x - s.addr < s.size {
            return Some(i);
        }
        i += 1;
    }
    None
}

/// Length of a table's entries and place of the address in each.
fn field_of(class: Class, sh_type: u32) -> (res: Option<(usize, usize)>)
    ensures
        match res {
            Some((stride, field)) => address_field(class, sh_type) == Some(
                (stride as int, field as int),
            ) && field + crate::raw::word(class) <= stride <= 24,
            None => address_field(class, sh_type) is None,
        },
{
    match (sh_type, class) {
        (sht::RELA, Class::Elf64) => Some((24, 0)),
        (sht::RELA, Class::Elf32) => Some((12, 0)),
        (sht::REL, Class::Elf64) => Some((16, 0)),
        (sht::REL, Class::Elf32) => Some((8, 0)),
        (sht::DYNSYM, Class::Elf64) => Some((24, 8)),
        (sht::DYNSYM, Class::Elf32) => Some((16, 4)),
        (sht::SYMTAB, Class::Elf64) => Some((24, 8)),
        (sht::SYMTAB, Class::Elf32) => Some((16, 4)),
        _ => None,
    }
}

/// Whether an entry of section `i` holds an address in a section that moves.
fn any_field(
    image: &ElfImage,
    flags: &Vec<bool>,
    region: Option<u64>,
    i: usize,
    stride: usize,
    field: usize,
) -> (b: bool)
    requires
        image@.wf(),
        i < image@.shdrs.len(),
        flags@.len() == image@.shdrs.len(),
        forall|j: int|
            0 <= j < flags@.len() ==> #[trigger] flags@[j] == relocates(image@, region, j),
        field + crate::raw::word(image@.enc.class) <= stride,
    ensures
        b == entry_hits(
            image@,
            region,
            image@.sections[i as int],
            stride as int,
            field as int,
            0,
        ),
{
    let data = &image.section_data[i];
    let e = image.enc.endian;
    let mut o: usize = 0;
    while data.len() - o >= stride
        invariant
            data@ == image@.sections[i as int],
            e == image@.enc.endian,
            flags@.len() == image@.shdrs.len(),
            forall|j: int|
                0 <= j < flags@.len() ==> #[trigger] flags@[j] == relocates(image@, region, j),
            field + crate::raw::word(image@.enc.class) <= stride,
            o <= data@.len(),
            entry_hits(image@, region, data@, stride as int, field as int, 0) == entry_hits(
                image@,
                region,
                data@,
                stride as int,
                field as int,
                o as int,
            ),
        decreases data@.len() - o,
    {
        let x: u64 = match image.enc.class {
            Class::Elf64 => e.read_u64(data.as_slice(), o + field),
            Class::Elf32 => e.read_u32(data.as_slice(), o + field) as u64,
        };
        if moved_over(image, flags, region, x).is_some() {
            return true;
        }
        o += stride;
    }
    false
}

/// Refuse to move a section that loaded relocations or symbols point into: their
/// values are not adjusted.
fn assert_no_address_refs(
    image: &ElfImage,
    flags: &Vec<bool>,
    region: Option<u64>,
) -> (res: Result<()>)
    requires
        image@.wf(),
        flags@.len() == image@.shdrs.len(),
        forall|i: int|
            0 <= i < flags@.len() ==> #[trigger] flags@[i] == relocates(image@, region, i),
    ensures
        match res {
            Ok(_) => reference_fault(image@, region, 0) is None,
            Err(e) => reference_fault(image@, region, 0) == Some(e@),
        },
{
    let mut i: usize = 0;
    while i < image.shdrs.len()
        invariant
            image@.wf(),
            flags@.len() == image@.shdrs.len(),
            forall|j: int|
                0 <= j < flags@.len() ==> #[trigger] flags@[j] == relocates(image@, region, j),
            i <= image@.shdrs.len(),
            reference_fault(image@, region, 0) == reference_fault(image@, region, i as int),
        decreases image@.shdrs.len() - i,
    {
        let s = image.shdrs[i];
        // Only loaded tables matter: `.symtab` and the like are not mapped and
        // keep stale section addresses after a move.
        if s.flags & shf::ALLOC != 0 {
            if let Some((stride, field)) = field_of(image.enc.class, s.sh_type) {
                if any_field(image, flags, region, i, stride, field) {
                    let name = match image.section_name(i) {
                        Some(name) => name,
                        None => "?",
                    };
                    return Err(
                        Error::Unsupported(
                            concat3(
                                "cannot relocate section referenced by ",
                                name,
                                " entries at its address",
                            ),
                        ),
                    );
                }
            }
        }
        i += 1;
    }
    Ok(())
}

/// The section headers with the moving sections placed one after the other.
fn place_sections(
    image: &ElfImage,
    flags: &Vec<bool>,
    region: Option<u64>,
    r: &Region,
) -> (out: Vec<Shdr>)
    requires
        image@.wf(),
        flags@.len() == image@.shdrs.len(),
        forall|i: int|
            0 <= i < flags@.len() ==> #[trigger] flags@[i] == relocates(image@, region, i),
        r.needed == r.pht + r.sht + moved_size(image@, region, image@.shdrs.len() as int),
        r.total == r.start + r.needed + 1,
        r.vaddr + r.needed <= u64::MAX,
    ensures
        out@ == placed_sections(image@, region, r.plan()),
{
    let dyn_idx = image.dyn_idx();
    let unit: u64 = dyn_size(image.enc.class) as u64;
    let ghost want = placed_sections(image@, region, r.plan());
    let mut out: Vec<Shdr> = Vec::new();
    let mut room: u64 = 0;
    let mut i: usize = 0;
    while i < image.shdrs.len()
        invariant
            image@.wf(),
            match dyn_idx {
                Some(k) => image@.dyn_idx() == Some(k as int),
                None => image@.dyn_idx() is None,
            },
            unit == dyn_len(image@.enc.class),
            flags@.len() == image@.shdrs.len(),
            forall|j: int|
                0 <= j < flags@.len() ==> #[trigger] flags@[j] == relocates(image@, region, j),
            r.needed == r.pht + r.sht + moved_size(image@, region, image@.shdrs.len() as int),
            r.total == r.start + r.needed + 1,
            r.vaddr + r.needed <= u64::MAX,
            want == placed_sections(image@, region, r.plan()),
            out@.len() == i <= image@.shdrs.len(),
            room == moved_size(image@, region, i as int),
            forall|j: int| 0 <= j < i ==> #[trigger] out@[j] == want[j],
        decreases image@.shdrs.len() - i,
    {
        let mut s = image.shdrs[i];
        if flags[i] {
            proof {
                lemma_section_len(image@, i as int);
                lemma_rounded_up(section_len(image@, i as int), unit as int);
                lemma_moved_size(image@, region, i as int, image@.shdrs.len() as int);
                lemma_moved_size(image@, region, i + 1, image@.shdrs.len() as int);
            }
            let len: u64 = match section_size(image, dyn_idx, i) {
                Some(len) => len,
                None => 0,
            };
            s.offset = r.start + r.pht + r.sht + room;
            s.addr = r.vaddr + r.pht + r.sht + room;
            s.size = len;
            room = room + match round_up(len, unit) {
                Some(len) => len,
                None => 0,
            };
        }
        out.push(s);
        assert(out@[i as int] == want[i as int]);
        i += 1;
    }
    assert(out@ =~= want);
    out
}

fn set_segment(p: &Phdr, offset: u64, addr: u64, size: u64) -> (q: Phdr)
    ensures
        q == moved_segment(*p, offset, addr, size),
{
    Phdr {
        p_type: p.p_type,
        flags: p.flags,
        offset,
        vaddr: addr,
        paddr: addr,
        filesz: size,
        memsz: size,
        align: p.align,
    }
}

/// The note segment that covers the library cache. It moves with its section, so
/// it is identified while the two still agree, to tell it from notes that stay.
fn find_cache_segment(
    image: &ElfImage,
    segs: &Vec<Phdr>,
    cache: Option<usize>,
) -> (res: Option<usize>)
    requires
        match cache {
            Some(s) => s < image@.shdrs.len() && image@.find_section(".note.nixos.ldcache"@)
                == Some(s as int),
            None => image@.find_section(".note.nixos.ldcache"@) is None,
        },
    ensures
        match res {
            Some(k) => k < segs@.len() && cache_segment(image@, segs@) == Some(k as int),
            None => cache_segment(image@, segs@) is None,
        },
{
    let off = match cache {
        Some(s) => image.shdrs[s].offset,
        None => {
            return None;
        },
    };
    let mut i: usize = 0;
    while i < segs.len()
        invariant
            i <= segs@.len(),
            cache_segment(image@, segs@) == first_from(segs@, note_at(off), i as int),
        decreases segs@.len() - i,
    {
        if segs[i].p_type == pt::NOTE && segs[i].offset == off {
            return Some(i);
        }
        i += 1;
    }
    None
}

/// The segments with the new region added, and those for the program headers, the
/// interpreter, the dynamic array and the library cache pointed at their targets.
fn place_segments(
    image: &ElfImage,
    shdrs: &Vec<Shdr>,
    r: &Region,
    old_segs: &Vec<Phdr>,
) -> (out: Vec<Phdr>)
    requires
        shdrs@.len() == image@.shdrs.len(),
        (old_segs@.len() + 1) * phdr_len(image@.enc.class) <= u64::MAX,
    ensures
        out@ == placed_segments(image@, shdrs@, r.plan(), old_segs@),
{
    let cache = image.find_section(".note.nixos.ldcache");
    let cache_phdr = find_cache_segment(image, old_segs, cache);
    let interp = image.find_section(".interp");
    let dynamic = image.dyn_idx();
    let load = Phdr {
        p_type: pt::LOAD,
        flags: pf::R | pf::W,
        offset: r.start,
        vaddr: r.vaddr,
        paddr: r.vaddr,
        filesz: r.needed,
        memsz: r.needed,
        align: r.align,
    };
    let ghost segs = old_segs@.push(load);
    let ghost want = placed_segments(image@, shdrs@, r.plan(), old_segs@);
    assert((old_segs@.len() + 1) <= (old_segs@.len() + 1) * phdr_len(image@.enc.class))
        by (nonlinear_arith)
        requires
            phdr_len(image@.enc.class) >= 1,
    ;
    let pht: u64 = (old_segs.len() as u64 + 1) * phdr_size(image.enc.class) as u64;
    let mut out: Vec<Phdr> = Vec::new();
    let mut k: usize = 0;
    while k < old_segs.len()
        invariant
            shdrs@.len() == image@.shdrs.len(),
            segs == old_segs@.push(load),
            load == new_load(r.plan()),
            want == placed_segments(image@, shdrs@, r.plan(), old_segs@),
            pht == segs.len() * phdr_len(image@.enc.class),
            match cache {
                Some(s) => s < image@.shdrs.len() && image@.find_section(".note.nixos.ldcache"@)
                    == Some(s as int),
                None => image@.find_section(".note.nixos.ldcache"@) is None,
            },
            match cache_phdr {
                Some(c) => cache is Some && cache_segment(image@, old_segs@) == Some(c as int),
                None => cache_segment(image@, old_segs@) is None,
            },
            match interp {
                Some(s) => s < image@.shdrs.len() && image@.find_section(".interp"@) == Some(
                    s as int,
                ),
                None => image@.find_section(".interp"@) is None,
            },
            match dynamic {
                Some(s) => s < image@.shdrs.len() && image@.dyn_idx() == Some(s as int),
                None => image@.dyn_idx() is None,
            },
            out@.len() == k <= old_segs@.len(),
            forall|j: int| 0 <= j < k ==> #[trigger] out@[j] == want[j],
        decreases old_segs@.len() - k,
    {
        let p = old_segs[k];
        let is_cache = match cache_phdr {
            Some(c) => c == k,
            None => false,
        };
        let target = if is_cache {
            cache
        } else if p.p_type == pt::INTERP {
            interp
        } else if p.p_type == pt::DYNAMIC {
            dynamic
        } else {
            None
        };
        let q = if p.p_type == pt::PHDR && !is_cache {
            set_segment(&p, r.start, r.vaddr, pht)
        } else {
            match target {
                Some(s) => set_segment(&p, shdrs[s].offset, shdrs[s].addr, shdrs[s].size),
                None => p,
            }
        };
        out.push(q);
        assert(segs[k as int] == p);
        assert(out@[k as int] == want[k as int]);
        k += 1;
    }
    proof {
        if let Some(c) = cache_segment(image@, old_segs@) {
            lemma_first_from(
                old_segs@,
                note_at(image@.shdrs[image@.find_section(".note.nixos.ldcache"@)->Some_0].offset),
                0,
            );
        }
        assert(want[old_segs@.len() as int] == load);
    }
    out.push(load);
    assert(out@ =~= want);
    out
}

fn is_address_tag(tag: i64) -> (b: bool)
    ensures
        b == address_tag(tag),
{
    tag == dt::HASH || tag == dt::PLTGOT || tag == dt::STRTAB || tag == dt::SYMTAB || tag
        == dt::RELA || tag == dt::REL || tag == dt::JMPREL || tag == dt::VERSYM || tag
        == dt::VERNEED || tag == dt::VERDEF || tag == dt::GNU_HASH || tag == dt::RELR || tag
        == dt::INIT || tag == dt::FINI || tag == dt::INIT_ARRAY || tag == dt::FINI_ARRAY || tag
        == dt::PREINIT_ARRAY
}

/// The dynamic array with the addresses in moved sections rebased, and
/// `DT_STRSZ`, which tracks the one string table that can grow, refreshed.
fn rebase_dynamic(
    image: &ElfImage,
    flags: &Vec<bool>,
    region: Option<u64>,
    shdrs: &Vec<Shdr>,
    r: &Region,
) -> (out: Vec<DynEntry>)
    requires
        flags@.len() == image@.shdrs.len(),
        forall|i: int|
            0 <= i < flags@.len() ==> #[trigger] flags@[i] == relocates(image@, region, i),
        shdrs@ == placed_sections(image@, region, r.plan()),
        plan_fits(image@, region, r.plan()),
        forall|i: int|
            0 <= i < shdrs@.len() && relocates(image@, region, i) ==> (#[trigger] shdrs@[i]).addr
                == new_addr(image@, region, r.plan(), i),
    ensures
        out@ == Seq::new(
            image@.dynamic.len(),
            |k: int| rebased(image@, region, shdrs@, r.plan(), image@.dynamic[k]),
        ),
{
    let dynstr = image.find_section(".dynstr");
    let ghost want = Seq::new(
        image@.dynamic.len(),
        |k: int| rebased(image@, region, shdrs@, r.plan(), image@.dynamic[k]),
    );
    let mut out: Vec<DynEntry> = Vec::new();
    let mut k: usize = 0;
    while k < image.dynamic.len()
        invariant
            flags@.len() == image@.shdrs.len(),
            forall|i: int|
                0 <= i < flags@.len() ==> #[trigger] flags@[i] == relocates(image@, region, i),
            shdrs@ == placed_sections(image@, region, r.plan()),
            plan_fits(image@, region, r.plan()),
            forall|i: int|
                0 <= i < shdrs@.len() && relocates(image@, region, i) ==> (
                #[trigger] shdrs@[i]).addr == new_addr(image@, region, r.plan(), i),
            match dynstr {
                Some(s) => s < image@.shdrs.len() && image@.find_section(".dynstr"@) == Some(
                    s as int,
                ),
                None => image@.find_section(".dynstr"@) is None,
            },
            want == Seq::new(
                image@.dynamic.len(),
                |k: int| rebased(image@, region, shdrs@, r.plan(), image@.dynamic[k]),
            ),
            out@.len() == k <= image@.dynamic.len(),
            forall|j: int| 0 <= j < k ==> #[trigger] out@[j] == want[j],
        decreases image@.dynamic.len() - k,
    {
        let mut d = image.dynamic[k];
        if is_address_tag(d.tag) {
            if let Some(i) = moved_over(image, flags, region, d.val) {
                assert(new_addr(image@, region, r.plan(), i as int) + image@.shdrs[i as int].size
                    <= u64::MAX);
                d.val = shdrs[i].addr + (d.val - image.shdrs[i].addr);
            }
        } else if d.tag == dt::STRSZ {
            if let Some(s) = dynstr {
                d.val = shdrs[s].size;
            }
        }
        out.push(d);
        assert(out@[k as int] == want[k as int]);
        k += 1;
    }
    assert(out@ =~= want);
    out
}

/// The segments without entry `k`.
fn without(phdrs: &Vec<Phdr>, k: usize) -> (out: Vec<Phdr>)
    requires
        k < phdrs@.len(),
    ensures
        out@ == phdrs@.remove(k as int),
{
    let mut out: Vec<Phdr> = Vec::new();
    let mut i: usize = 0;
    while i < phdrs.len()
        invariant
            k < phdrs@.len(),
            i <= phdrs@.len(),
            out@.len() == if i <= k {
                i as int
            } else {
                i - 1
            },
            forall|j: int| 0 <= j < out@.len() ==> #[trigger] out@[j] == phdrs@.remove(k as int)[j],
        decreases phdrs@.len() - i,
    {
        if i != k {
            out.push(phdrs[i]);
        }
        i += 1;
    }
    assert(out@ =~= phdrs@.remove(k as int));
    out
}

/// The region to replace: a previous relayout begins it exactly with the program
/// header table. All that lives in it is laid out anew with what has grown, so
/// that repeated patching adds no further segments.
fn find_prior(image: &ElfImage, reclaim: bool) -> (res: Option<usize>)
    ensures
        match res {
            Some(k) => k < image@.phdrs.len() && prior(image@, reclaim) == Some(k as int),
            None => prior(image@, reclaim) is None,
        },
{
    if !reclaim {
        return None;
    }
    let phoff = image.ehdr.phoff;
    let mut i: usize = 0;
    while i < image.phdrs.len()
        invariant
            reclaim,
            phoff == image@.ehdr.phoff,
            i <= image@.phdrs.len(),
            prior(image@, reclaim) == first_from(image@.phdrs, region_at(phoff), i as int),
        decreases image@.phdrs.len() - i,
    {
        if image.phdrs[i].p_type == pt::LOAD && image.phdrs[i].offset == phoff {
            return Some(i);
        }
        i += 1;
    }
    None
}

fn copy_phdrs(phdrs: &Vec<Phdr>) -> (out: Vec<Phdr>)
    ensures
        out@ == phdrs@,
{
    let mut out: Vec<Phdr> = Vec::new();
    out.extend_from_slice(phdrs.as_slice());
    assert(out@ =~= phdrs@);
    out
}

fn relayout(
    image: &mut ElfImage,
    original: &[u8],
    page_size: Option<u64>,
    reclaim: bool,
) -> (res: Result<Vec<u8>>)
    requires
        old(image)@.wf(),
    ensures
        final(image)@.wf(),
        match res {
            Ok(b) => relayout_result(old(image)@, original@, page_size, reclaim) == (
                final(image)@,
                Outcome::<Seq<u8>>::Ok(b@),
            ),
            Err(e) => relayout_result(old(image)@, original@, page_size, reclaim) == (
                final(image)@,
                Outcome::<Seq<u8>>::Err(e@),
            ),
        },
{
    let ghost v = image@;
    let (segs, region) = match find_prior(image, reclaim) {
        Some(k) => (without(&image.phdrs, k), Some(image.phdrs[k].offset)),
        None => (copy_phdrs(&image.phdrs), None),
    };
    if find_segment_type(&segs, pt::PHDR).is_none() {
        return Err(
            Error::Unsupported(
                "no PT_PHDR segment; cannot relocate program headers".to_owned(),
            ),
        );
    }
    let flags = moving(image, region);
    proof {
        lemma_plan(v, segs@, region, original@.len() as int, page_size);
    }
    let r = match make_plan(image, &segs, &flags, region, original.len() as u64, page_size) {
        Some(r) => r,
        None => {
            return Err(Error::Serialize("layout does not fit in 64 bits".to_owned()));
        },
    };
    assert_no_address_refs(image, &flags, region)?;
    let shdrs = place_sections(image, &flags, region, &r);
    let phdrs = place_segments(image, &shdrs, &r, &segs);
    proof {
        assert forall|i: int|
            0 <= i < shdrs@.len() && relocates(v, region, i) implies (#[trigger] shdrs@[i]).addr
            == new_addr(v, region, r.plan(), i) by {
            lemma_moved_size(v, region, i, v.shdrs.len() as int);
        }
    }
    let dynamic = rebase_dynamic(image, &flags, region, &shdrs, &r);
    image.ehdr.phoff = r.start;
    image.ehdr.shoff = if image.shdrs.len() == 0 {
        0
    } else {
        r.start + r.pht
    };
    image.shdrs = shdrs;
    image.phdrs = phdrs;
    image.dynamic = dynamic;
    assert(image@ =~= relaid(v, region, r.plan(), segs@));
    emit(image, original, r.total)
}

/// Assign the offsets of an edited image and render it.
///
/// `original` is the file that the image was parsed from, `page_size` a forced
/// page size. With `no_clobber` a region that a previous relayout appended is
/// left alone and another is added.
pub fn finalize(
    image: &mut ElfImage,
    original: &[u8],
    page_size: Option<u64>,
    no_clobber: bool,
) -> (res: Result<Vec<u8>>)
    requires
        old(image)@.wf(),
    ensures
        final(image)@.wf(),
        match res {
            Ok(b) => finalized(old(image)@, original@, page_size, no_clobber) == (
                final(image)@,
                Outcome::<Seq<u8>>::Ok(b@),
            ),
            Err(e) => finalized(old(image)@, original@, page_size, no_clobber) == (
                final(image)@,
                Outcome::<Seq<u8>>::Err(e@),
            ),
        },
{
    let grown = grown_sections(image);
    let header = read_ehdr(original)?;
    if grown == 0 && image.phdrs.len() <= header.2 as usize {
        return emit(image, original, original.len() as u64);
    }
    if image.ehdr.e_type != et::DYN && image.ehdr.e_type != et::EXEC {
        return Err(Error::Unsupported("unsupported ELF type for relayout".to_owned()));
    }
    relayout(image, original, page_size, !no_clobber)
}

/// What [`finalize`] is about to do, in words, for a reader of debug output.
pub open spec fn layout_note_text(v: ImageView, phnum: u16) -> Seq<char> {
    let n = grown_count(v, v.shdrs.len() as int);
    if n == 0 && v.phdrs.len() <= phnum {
        "patchelf: no section grew; rewriting in place"@
    } else {
        "patchelf: "@ + radix_text(n, 10) + " section(s) grew; relaying out"@
    }
}

/// Describe what [`finalize`] is about to do with an edited image.
pub fn layout_note(image: &ElfImage, original: &[u8]) -> (res: Result<String>)
    requires
        image@.wf(),
    ensures
        match res {
            Ok(s) => ehdr_at(original@) matches Ok(h) && s@ == layout_note_text(image@, h.2),
            Err(e) => ehdr_at(original@) matches Err(x) && e@ == x,
        },
{
    let grown = grown_sections(image);
    let header = read_ehdr(original)?;
    if grown == 0 && image.phdrs.len() <= header.2 as usize {
        return Ok("patchelf: no section grew; rewriting in place".to_owned());
    }
    Ok(
        concat3(
            "patchelf: ",
            to_radix(grown as u64, 10).as_str(),
            " section(s) grew; relaying out",
        ),
    )
}

} // verus!
