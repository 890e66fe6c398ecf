//! Rename dynamic symbols, and rebuild what finds them by name or position: the
//! GNU and SysV hash tables, the symbol versions, and the symbol indices in
//! relocations.
//!
//! All edits are in place except for the string table, which grows by the new
//! names; the layout engine assigns its place afterwards.
use vstd::prelude::*;

use crate::buckets::{
    below, bucket, group, item_at, lemma_below, lemma_item_at, lemma_total, members, rank, Grouping,
};
use crate::bytes::{u32_at, u32_bytes};
use crate::error::{Error, ErrorView, Outcome, Result};
use crate::ir::{contents, find_end, sht, str_end, Class, Encoding, Endian, ElfImage, ImageView};
use crate::ops::{
    dynstr_append, edited, no_section, require_section, sym_count, sym_len, sym_name_offset,
    sym_size, with_string,
};
use crate::parser::copy_bytes;
use crate::raw::{word, word_at, word_bytes, word_fits};
use crate::seqs::splice;
use crate::text::{
    chars_of, concat, debug_str, debug_text, same_text, split, split_text, split_words, string_of,
    text_of, texts, utf8_text, words,
};

verus! {

/// One step of the GNU hash.
pub open spec fn gnu_step(h: u32, c: u8) -> u32 {
    ((h * 33 + c) % 0x1_0000_0000) as u32
}

/// The GNU hash of a name.
pub open spec fn gnu_hash_of(name: Seq<u8>) -> u32
    decreases name.len(),
{
    if name.len() == 0 {
        5381
    } else {
        gnu_step(gnu_hash_of(name.drop_last()), name.last())
    }
}

/// One step of the SysV hash.
pub open spec fn sysv_step(h: u32, c: u8) -> u32 {
    let sum = ((h * 16 + c) % 0x1_0000_0000) as u32;
    let top = sum & 0xf000_0000u32;
    (sum ^ (top >> 24u32)) & !top
}

/// The SysV hash of a name.
pub open spec fn sysv_hash_of(name: Seq<u8>) -> u32
    decreases name.len(),
{
    if name.len() == 0 {
        0
    } else {
        sysv_step(sysv_hash_of(name.drop_last()), name.last())
    }
}

/// The GNU hash of a name.
pub fn gnu_hash(name: &[u8]) -> (h: u32)
    ensures
        h == gnu_hash_of(name@),
{
    let mut h: u32 = 5381;
    let mut i: usize = 0;
    assert(name@.take(0) =~= Seq::empty());
    while i < name.len()
        invariant
            i <= name@.len(),
            h == gnu_hash_of(name@.take(i as int)),
        decreases name@.len() - i,
    {
        assert(name@.take(i + 1).drop_last() =~= name@.take(i as int));
        h = ((h as u64 * 33 + name[i] as u64) % 0x1_0000_0000) as u32;
        i += 1;
    }
    assert(name@.take(name@.len() as int) =~= name@);
    h
}

/// The SysV hash of a name.
pub fn sysv_hash(name: &[u8]) -> (h: u32)
    ensures
        h == sysv_hash_of(name@),
{
    let mut h: u32 = 0;
    let mut i: usize = 0;
    assert(name@.take(0) =~= Seq::empty());
    while i < name.len()
        invariant
            i <= name@.len(),
            h == sysv_hash_of(name@.take(i as int)),
        decreases name@.len() - i,
    {
        assert(name@.take(i + 1).drop_last() =~= name@.take(i as int));
        let sum: u32 = ((h as u64 * 16 + name[i] as u64) % 0x1_0000_0000) as u32;
        let top: u32 = sum & 0xf000_0000u32;
        h = (sum ^ (top >> 24u32)) & !top;
        i += 1;
    }
    assert(name@.take(name@.len() as int) =~= name@);
    h
}

/// The pairs of a rename map.
pub open spec fn pair_views(v: Seq<(String, String)>) -> Seq<(Seq<char>, Seq<char>)> {
    Seq::new(v.len(), |i: int| (v[i].0@, v[i].1@))
}

/// The new name for `name` in the first `n` pairs; the last pair for a name wins.
pub open spec fn new_name(
    map: Seq<(Seq<char>, Seq<char>)>,
    name: Seq<char>,
    n: int,
) -> Option<Seq<char>>
    decreases n,
{
    if n <= 0 {
        None
    } else if map[n - 1].0 == name {
        Some(map[n - 1].1)
    } else {
        new_name(map, name, n - 1)
    }
}

/// The name of symbol `i`: the bytes up to the next NUL, none where it starts
/// past the string table.
pub open spec fn sym_bytes(v: ImageView, dynsym: Seq<u8>, dynstr: Seq<u8>, i: int) -> Seq<u8> {
    let off = sym_name_offset(v, dynsym, i) as int;
    if off <= dynstr.len() {
        dynstr.subrange(off, str_end(dynstr, off))
    } else {
        Seq::empty()
    }
}

/// What the map renames symbol `i` to.
pub open spec fn renames(
    v: ImageView,
    dynsym: Seq<u8>,
    dynstr: Seq<u8>,
    map: Seq<(Seq<char>, Seq<char>)>,
    i: int,
) -> Option<Seq<char>> {
    match utf8_text(sym_bytes(v, dynsym, dynstr, i)) {
        Some(name) => new_name(map, name, map.len() as int),
        None => None,
    }
}

/// The symbol table and the string table with the first `n` symbols renamed. Each
/// new name goes behind the other strings.
pub open spec fn renamed(
    v: ImageView,
    dynsym: Seq<u8>,
    dynstr: Seq<u8>,
    map: Seq<(Seq<char>, Seq<char>)>,
    n: int,
) -> Outcome<(Seq<u8>, Seq<u8>)>
    decreases n,
{
    if n <= 0 {
        Ok((dynsym, dynstr))
    } else {
        match renamed(v, dynsym, dynstr, map, n - 1) {
            Err(e) => Err(e),
            Ok((syms, strs)) => match renames(v, dynsym, dynstr, map, n - 1) {
                None => Ok((syms, strs)),
                Some(new) => if strs.len() > u32::MAX {
                    Err(ErrorView::Parse(".dynstr exceeds 32-bit st_name range"@))
                } else {
                    Ok(
                        (
                            splice(
                                syms,
                                (n - 1) * sym_len(v.enc.class),
                                u32_bytes(v.enc.endian, strs.len() as u32),
                            ),
                            with_string(strs, new),
                        ),
                    )
                },
            },
        }
    }
}

/// Whether any of the first `n` symbols is renamed.
pub open spec fn any_renamed(
    v: ImageView,
    dynsym: Seq<u8>,
    dynstr: Seq<u8>,
    map: Seq<(Seq<char>, Seq<char>)>,
    n: int,
) -> bool {
    exists|i: int| 0 <= i < n && #[trigger] renames(v, dynsym, dynstr, map, i) is Some
}

proof fn lemma_renamed(
    v: ImageView,
    dynsym: Seq<u8>,
    dynstr: Seq<u8>,
    map: Seq<(Seq<char>, Seq<char>)>,
    n: int,
)
    ensures
        renamed(v, dynsym, dynstr, map, n) matches Ok((syms, strs)) ==> syms.len() == dynsym.len(),
    decreases n,
{
    if n > 0 {
        lemma_renamed(v, dynsym, dynstr, map, n - 1);
    }
}

proof fn lemma_renamed_err(
    v: ImageView,
    dynsym: Seq<u8>,
    dynstr: Seq<u8>,
    map: Seq<(Seq<char>, Seq<char>)>,
    i: int,
    n: int,
)
    requires
        i <= n,
        renamed(v, dynsym, dynstr, map, i) is Err,
    ensures
        renamed(v, dynsym, dynstr, map, n) == renamed(v, dynsym, dynstr, map, i),
    decreases n - i,
{
    if i < n {
        lemma_renamed_err(v, dynsym, dynstr, map, i, n - 1);
    }
}

/// Record `i` of a table lies within it.
pub proof fn lemma_record(len: int, size: int, i: int)
    requires
        0 < size,
        0 <= i < len / size,
    ensures
        0 <= i * size,
        (i + 1) * size == i * size + size,
        i * size + size <= len,
        0 <= len / size,
{
    assert(0 <= i * size) by (nonlinear_arith)
        requires
            0 <= i,
            0 < size,
    ;
    assert((i + 1) * size == i * size + size) by (nonlinear_arith);
    vstd::arithmetic::div_mod::lemma_fundamental_div_mod(len, size);
    vstd::arithmetic::div_mod::lemma_mod_bound(len, size);
    assert((i + 1) * size <= (len / size) * size) by (nonlinear_arith)
        requires
            i + 1 <= len / size,
            0 < size,
    ;
    assert(size * (len / size) == (len / size) * size) by (nonlinear_arith);
}

/// The name of symbol `i`.
fn sym_name<'a>(
    enc: Encoding,
    dynsym: &[u8],
    dynstr: &'a [u8],
    i: usize,
    Ghost(v): Ghost<ImageView>,
) -> (name: &'a [u8])
    requires
        enc == v.enc,
        i < sym_count(v.enc.class, dynsym@),
    ensures
        name@ == sym_bytes(v, dynsym@, dynstr@, i as int),
{
    let size: usize = sym_size(enc.class);
    proof {
        lemma_record(dynsym@.len() as int, size as int, i as int);
        assert(dynsym@.len() == dynsym.len());
    }
    let off: usize = enc.endian.read_u32(dynsym, i * size) as usize;
    if off > dynstr.len() {
        assert(dynstr@.subrange(0, 0) =~= Seq::empty());
        return &dynstr[0..0];
    }
    let end = find_end(dynstr, off);
    &dynstr[off..end]
}

/// The new name for `name`.
fn find_new_name<'a>(map: &'a Vec<(String, String)>, name: &str) -> (res: Option<&'a str>)
    ensures
        match res {
            Some(s) => new_name(pair_views(map@), name@, map@.len() as int) == Some(s@),
            None => new_name(pair_views(map@), name@, map@.len() as int) is None,
        },
{
    let ghost pairs = pair_views(map@);
    let mut n: usize = map.len();
    while n > 0
        invariant
            pairs == pair_views(map@),
            n <= map@.len(),
            new_name(pairs, name@, map@.len() as int) == new_name(pairs, name@, n as int),
        decreases n,
    {
        assert(pairs[n - 1] == (map@[n - 1].0@, map@[n - 1].1@));
        if same_text(map[n - 1].0.as_str(), name) {
            return Some(map[n - 1].1.as_str());
        }
        n -= 1;
    }
    None
}

/// The symbol table and the string table after renaming, or nothing when no
/// symbol is renamed.
fn rename_strings(
    enc: Encoding,
    dynsym: &Vec<u8>,
    dynstr: &Vec<u8>,
    map: &Vec<(String, String)>,
    Ghost(v): Ghost<ImageView>,
) -> (res: Result<Option<(Vec<u8>, Vec<u8>)>>)
    requires
        enc == v.enc,
    ensures
        match res {
            Ok(None) => !any_renamed(
                v,
                dynsym@,
                dynstr@,
                pair_views(map@),
                sym_count(v.enc.class, dynsym@),
            ),
            Ok(Some((syms, strs))) => any_renamed(
                v,
                dynsym@,
                dynstr@,
                pair_views(map@),
                sym_count(v.enc.class, dynsym@),
            ) && renamed(
                v,
                dynsym@,
                dynstr@,
                pair_views(map@),
                sym_count(v.enc.class, dynsym@),
            ) == Outcome::Ok((syms@, strs@)),
            Err(e) => any_renamed(
                v,
                dynsym@,
                dynstr@,
                pair_views(map@),
                sym_count(v.enc.class, dynsym@),
            ) && renamed(
                v,
                dynsym@,
                dynstr@,
                pair_views(map@),
                sym_count(v.enc.class, dynsym@),
            ) == Outcome::<(Seq<u8>, Seq<u8>)>::Err(e@),
        },
{
    let size: usize = sym_size(enc.class);
    let total: usize = dynsym.len();
    let count: usize = total / size;
    let ghost pairs = pair_views(map@);
    let mut syms = copy_bytes(dynsym.as_slice());
    let mut strs = copy_bytes(dynstr.as_slice());
    let mut any = false;
    let mut i: usize = 0;
    while i < count
        invariant
            enc == v.enc,
            size == sym_len(v.enc.class),
            total == dynsym@.len(),
            count == total as int / size as int,
            pairs == pair_views(map@),
            i <= count,
            syms@.len() == dynsym@.len(),
            renamed(v, dynsym@, dynstr@, pairs, i as int) == Outcome::Ok((syms@, strs@)),
            any == any_renamed(v, dynsym@, dynstr@, pairs, i as int),
        decreases count - i,
    {
        proof {
            lemma_record(total as int, size as int, i as int);
        }
        let name = sym_name(enc, dynsym.as_slice(), dynstr.as_slice(), i, Ghost(v));
        let new = match text_of(name) {
            Some(t) => find_new_name(map, t),
            None => None,
        };
        if let Some(new) = new {
            assert(renames(v, dynsym@, dynstr@, pairs, i as int) == Some(new@));
            any = true;
            if strs.len() as u64 > 0xffff_ffff {
                proof {
                    lemma_renamed_err(v, dynsym@, dynstr@, pairs, i + 1, count as int);
                }
                return Err(Error::Parse(".dynstr exceeds 32-bit st_name range".to_owned()));
            }
            let off = dynstr_append(&mut strs, new);
            enc.endian.write_u32(&mut syms, i * size, off as u32);
        }
        i += 1;
    }
    if any {
        Ok(Some((syms, strs)))
    } else {
        Ok(None)
    }
}

/// The fixed fields of a GNU hash table.
pub struct GnuHeader {
    pub num_buckets: u32,
    /// Index of the first symbol that is hashed.
    pub symndx: u32,
    pub maskwords: u32,
    pub shift2: u32,
}

pub open spec fn gnu_header(e: Endian, data: Seq<u8>) -> GnuHeader {
    GnuHeader {
        num_buckets: u32_at(e, data, 0),
        symndx: u32_at(e, data, 4),
        maskwords: u32_at(e, data, 8),
        shift2: u32_at(e, data, 12),
    }
}

impl GnuHeader {
    /// Where the buckets start, behind the bloom filter.
    pub open spec fn buckets_off(self, class: Class) -> int {
        16 + self.maskwords * word(class)
    }

    /// Where the chains start, behind the buckets.
    pub open spec fn table_off(self, class: Class) -> int {
        self.buckets_off(class) + self.num_buckets * 4
    }
}

/// Number of bits in a word of the bloom filter.
pub open spec fn word_bits(class: Class) -> u32 {
    match class {
        Class::Elf64 => 64,
        Class::Elf32 => 32,
    }
}

/// The bit that `x` selects in a word.
pub open spec fn bloom_bit(class: Class, x: u32) -> u64 {
    1u64 << ((x % word_bits(class)) as u64)
}

/// Word `w` of the bloom filter over the first `n` hashes: each hash sets two
/// bits in the word that it selects.
pub open spec fn bloom_word(class: Class, h: Seq<u32>, g: GnuHeader, w: int, n: int) -> u64
    decreases n,
{
    if n <= 0 {
        0
    } else {
        let before = bloom_word(class, h, g, w, n - 1);
        let x = h[n - 1];
        if (x / word_bits(class)) as int % g.maskwords as int == w {
            before | bloom_bit(class, x) | bloom_bit(class, x >> g.shift2)
        } else {
            before
        }
    }
}

/// The first `n` words of the bloom filter.
pub open spec fn bloom_bytes(enc: Encoding, h: Seq<u32>, g: GnuHeader, n: int) -> Seq<u8>
    decreases n,
{
    if n <= 0 {
        Seq::empty()
    } else {
        bloom_bytes(enc, h, g, n - 1) + word_bytes(
            enc.class,
            enc.endian,
            bloom_word(enc.class, h, g, n - 1, h.len() as int),
        )
    }
}

/// What bucket `b` holds: the index of its first symbol, zero for none. Since
/// zero means none, a first symbol with that index is passed over.
pub open spec fn bucket_head(h: Seq<u32>, g: GnuHeader, b: int) -> int {
    let n = members(h, g.num_buckets as int, b, h.len() as int);
    let start = g.symndx + below(h, g.num_buckets as int, b, h.len() as int);
    if n == 0 {
        0
    } else if start == 0 && n > 1 {
        1
    } else {
        start
    }
}

/// The first `n` buckets.
pub open spec fn bucket_bytes(e: Endian, h: Seq<u32>, g: GnuHeader, n: int) -> Seq<u8>
    decreases n,
{
    if n <= 0 {
        Seq::empty()
    } else {
        bucket_bytes(e, h, g, n - 1) + u32_bytes(e, bucket_head(h, g, n - 1) as u32)
    }
}

/// The chain word at place `k`: the hash of the symbol there, its low bit set
/// where it is the last of its bucket.
pub open spec fn chain_word(h: Seq<u32>, nb: int, k: int) -> u32 {
    let x = h[item_at(h, nb, k)];
    if k + 1 == h.len() || bucket(h, nb, item_at(h, nb, k + 1)) != bucket(h, nb, item_at(h, nb, k)) {
        x | 1u32
    } else {
        x & !1u32
    }
}

/// The first `n` chain words.
pub open spec fn chain_bytes(e: Endian, h: Seq<u32>, nb: int, n: int) -> Seq<u8>
    decreases n,
{
    if n <= 0 {
        Seq::empty()
    } else {
        chain_bytes(e, h, nb, n - 1) + u32_bytes(e, chain_word(h, nb, n - 1))
    }
}

/// A GNU hash table refilled for the hashes `h`.
pub open spec fn refilled(enc: Encoding, data: Seq<u8>, h: Seq<u32>, g: GnuHeader) -> Seq<u8> {
    data.take(16) + bloom_bytes(enc, h, g, g.maskwords as int) + bucket_bytes(
        enc.endian,
        h,
        g,
        g.num_buckets as int,
    ) + chain_bytes(enc.endian, h, g.num_buckets as int, h.len() as int) + data.skip(
        g.table_off(enc.class) + h.len() * 4,
    )
}

/// The records from `start` on that go to the first `n` places.
pub open spec fn grouped_records(
    data: Seq<u8>,
    start: int,
    stride: int,
    h: Seq<u32>,
    nb: int,
    n: int,
) -> Seq<u8>
    decreases n,
{
    if n <= 0 {
        Seq::empty()
    } else {
        let p = start + item_at(h, nb, n - 1);
        grouped_records(data, start, stride, h, nb, n - 1) + data.subrange(
            p * stride,
            (p + 1) * stride,
        )
    }
}

/// A table with the records from `start` on, one for each hash, grouped by
/// bucket.
pub open spec fn grouped(data: Seq<u8>, start: int, stride: int, h: Seq<u32>, nb: int) -> Seq<u8> {
    data.take(start * stride) + grouped_records(data, start, stride, h, nb, h.len() as int)
        + data.skip((start + h.len()) * stride)
}

/// The new index of the symbol with the index `old`.
pub open spec fn renumbered(start: int, h: Seq<u32>, nb: int, index: int) -> int {
    if index >= start {
        start + rank(h, nb, index - start)
    } else {
        index
    }
}

/// Length of a relocation in a section of this type.
pub open spec fn reloc_len(class: Class, sh_type: u32) -> Option<int> {
    match class {
        Class::Elf64 => if sh_type == sht::RELA {
            Some(24)
        } else if sh_type == sht::REL {
            Some(16)
        } else {
            None
        },
        Class::Elf32 => if sh_type == sht::RELA {
            Some(12)
        } else if sh_type == sht::REL {
            Some(8)
        } else {
            None
        },
    }
}

/// What divides the symbol index from the rest of a relocation's information.
pub open spec fn info_unit(class: Class) -> int {
    match class {
        Class::Elf64 => 0x1_0000_0000,
        Class::Elf32 => 0x100,
    }
}

/// The largest symbol index that a relocation can hold.
pub open spec fn max_reloc_index(class: Class) -> int {
    match class {
        Class::Elf64 => 0xffff_ffff,
        Class::Elf32 => 0xff_ffff,
    }
}

/// A relocation's information with its symbol renumbered.
pub open spec fn renumbered_info(
    class: Class,
    start: int,
    h: Seq<u32>,
    nb: int,
    info: u64,
) -> Outcome<u64> {
    let index = info as int / info_unit(class);
    let new = renumbered(start, h, nb, index);
    if index >= start + h.len() {
        Err(ErrorView::Parse("relocation symbol index out of range"@))
    } else if new > max_reloc_index(class) {
        Err(ErrorView::Parse("relocation symbol index too large"@))
    } else {
        Ok((info as int % info_unit(class) + new * info_unit(class)) as u64)
    }
}

/// The relocations in `data` from position `o` on, with their symbols renumbered.
pub open spec fn relocs_from(
    enc: Encoding,
    data: Seq<u8>,
    stride: int,
    start: int,
    h: Seq<u32>,
    nb: int,
    o: int,
) -> Outcome<Seq<u8>>
    decreases data.len() - o,
{
    if stride <= 0 || o + stride > data.len() {
        Ok(data.skip(o))
    } else {
        let w = word(enc.class);
        let info = word_at(enc.class, enc.endian, data, o + w);
        match renumbered_info(enc.class, start, h, nb, info) {
            Err(e) => Err(e),
            Ok(new) => match relocs_from(enc, data, stride, start, h, nb, o + stride) {
                Err(e) => Err(e),
                Ok(rest) => Ok(
                    data.subrange(o, o + w) + word_bytes(enc.class, enc.endian, new)
                        + data.subrange(o + 2 * w, o + stride) + rest,
                ),
            },
        }
    }
}

/// The first `n` sections with the relocations among them renumbered.
pub open spec fn relocs_renumbered(
    v: ImageView,
    start: int,
    h: Seq<u32>,
    nb: int,
    n: int,
) -> Outcome<Seq<Seq<u8>>>
    decreases n,
{
    if n <= 0 {
        Ok(Seq::empty())
    } else {
        match relocs_renumbered(v, start, h, nb, n - 1) {
            Err(e) => Err(e),
            Ok(t) => match reloc_len(v.enc.class, v.shdrs[n - 1].sh_type) {
                None => Ok(t.push(v.sections[n - 1])),
                Some(stride) => match relocs_from(
                    v.enc,
                    v.sections[n - 1],
                    stride,
                    start,
                    h,
                    nb,
                    0,
                ) {
                    Err(e) => Err(e),
                    Ok(b) => Ok(t.push(b)),
                },
            },
        }
    }
}

/// What a GNU hash table that contradicts the symbol table fails with.
pub open spec fn malformed_gnu() -> ErrorView {
    ErrorView::Parse("malformed .gnu.hash"@)
}

/// Whether the table's fields agree with `count` symbols.
pub open spec fn gnu_wf(class: Class, data: Seq<u8>, g: GnuHeader, count: int) -> bool {
    &&& g.symndx <= count <= u32::MAX
    &&& g.table_off(class) + (count - g.symndx) * 4 <= data.len()
    &&& g.symndx < count ==> g.maskwords > 0 && g.shift2 < 32
}

/// How the symbols were put in another order: those from `start` on grouped by
/// the buckets of their hashes.
pub struct Reorder {
    pub start: int,
    pub hashes: Seq<u32>,
    pub num_buckets: int,
}

/// The image with its GNU hash table rebuilt for the hashes of all symbols, and
/// everything that goes by a symbol's position adjusted to the new order. Without
/// a table, or with an empty one, the image stays as it is.
pub open spec fn gnu_rebuilt(
    v: ImageView,
    y: int,
    hashes: Seq<u32>,
) -> Outcome<(ImageView, Option<Reorder>)> {
    match v.find_section(".gnu.hash"@) {
        None => Ok((v, None)),
        Some(t) => {
            let data = v.sections[t];
            let g = gnu_header(v.enc.endian, data);
            if data.len() < 16 {
                Err(ErrorView::Parse(".gnu.hash too small"@))
            } else if g.num_buckets == 0 || g.table_off(v.enc.class) > data.len() {
                Ok((v, None))
            } else if !gnu_wf(v.enc.class, data, g, hashes.len() as int) {
                Err(malformed_gnu())
            } else {
                gnu_regrouped(v, y, t, g, hashes.skip(g.symndx as int))
            }
        },
    }
}

/// The image with the symbols from the table's first on grouped by bucket.
#[verifier::opaque]
pub open spec fn gnu_regrouped(
    v: ImageView,
    y: int,
    t: int,
    g: GnuHeader,
    h: Seq<u32>,
) -> Outcome<(ImageView, Option<Reorder>)> {
    let start = g.symndx as int;
    let nb = g.num_buckets as int;
    let v1 = ImageView {
        sections: v.sections.update(
            y,
            grouped(v.sections[y], start, sym_len(v.enc.class), h, nb),
        ),
        ..v
    };
    match versions_grouped(v1, start, h, nb) {
        Err(e) => Err(e),
        Ok(v2) => match relocs_renumbered(v2, start, h, nb, v2.sections.len() as int) {
            Err(e) => Err(e),
            Ok(sections) => Ok(
                (
                    ImageView {
                        sections: sections.update(t, refilled(v.enc, sections[t], h, g)),
                        ..v2
                    },
                    Some(Reorder { start, hashes: h, num_buckets: nb }),
                ),
            ),
        },
    }
}

/// The image with the symbol versions in the order of the symbols.
pub open spec fn versions_grouped(
    v: ImageView,
    start: int,
    h: Seq<u32>,
    nb: int,
) -> Outcome<ImageView> {
    match v.find_section(".gnu.version"@) {
        None => Ok(v),
        Some(k) => if v.sections[k].len() < (start + h.len()) * 2 {
            Err(ErrorView::Parse("versym smaller than dynsym"@))
        } else {
            Ok(
                ImageView {
                    sections: v.sections.update(k, grouped(v.sections[k], start, 2, h, nb)),
                    ..v
                },
            )
        },
    }
}

/// The old index of the symbol that now has the index `i`.
pub open spec fn old_index(reorder: Option<Reorder>, i: int) -> int {
    match reorder {
        Some(r) => if i >= r.start {
            r.start + item_at(r.hashes, r.num_buckets, i - r.start)
        } else {
            i
        },
        None => i,
    }
}

/// The last of the first `n` places with the bucket `b`, zero for none.
pub open spec fn last_place(buckets: Seq<u32>, b: int, n: int) -> int
    decreases n,
{
    if n <= 0 {
        0
    } else if buckets[n - 1] == b {
        n - 1
    } else {
        last_place(buckets, b, n - 1)
    }
}

/// The first `n` buckets of a SysV hash table: each holds the last place with it.
pub open spec fn sysv_heads(e: Endian, buckets: Seq<u32>, n: int) -> Seq<u8>
    decreases n,
{
    if n <= 0 {
        Seq::empty()
    } else {
        sysv_heads(e, buckets, n - 1) + u32_bytes(
            e,
            last_place(buckets, n - 1, buckets.len() as int) as u32,
        )
    }
}

/// The first `n` chain words of a SysV hash table: each holds the place before it
/// with the same bucket.
pub open spec fn sysv_chain(e: Endian, buckets: Seq<u32>, n: int) -> Seq<u8>
    decreases n,
{
    if n <= 0 {
        Seq::empty()
    } else {
        sysv_chain(e, buckets, n - 1) + u32_bytes(
            e,
            last_place(buckets, buckets[n - 1] as int, n - 1) as u32,
        )
    }
}

/// The image with its SysV hash table rebuilt for the hashes of all symbols. A
/// table that does not hold what it says stays as it is.
pub open spec fn sysv_rebuilt(
    v: ImageView,
    hashes: Seq<u32>,
    reorder: Option<Reorder>,
) -> Outcome<ImageView> {
    match v.find_section(".hash"@) {
        None => Ok(v),
        Some(k) => {
            let e = v.enc.endian;
            let data = v.sections[k];
            let nb = u32_at(e, data, 0);
            let nchain = u32_at(e, data, 4) as int;
            let end = 8 + (nb + nchain) * 4;
            if data.len() < 8 || nb == 0 || end > data.len() {
                Ok(v)
            } else if nchain > hashes.len() {
                Err(ErrorView::Parse("malformed .hash"@))
            } else {
                let start = hashes.len() - nchain;
                let buckets = Seq::new(
                    nchain as nat,
                    |i: int| (hashes[old_index(reorder, start + i)] % nb) as u32,
                );
                Ok(
                    ImageView {
                        sections: v.sections.update(
                            k,
                            data.take(8) + sysv_heads(e, buckets, nb as int) + sysv_chain(
                                e,
                                buckets,
                                nchain,
                            ) + data.skip(end),
                        ),
                        ..v
                    },
                )
            }
        },
    }
}

/// The hashes of all symbols.
pub open spec fn all_hashes(
    v: ImageView,
    dynsym: Seq<u8>,
    dynstr: Seq<u8>,
    hash: spec_fn(Seq<u8>) -> u32,
) -> Seq<u32> {
    Seq::new(
        sym_count(v.enc.class, dynsym) as nat,
        |i: int| hash(sym_bytes(v, dynsym, dynstr, i)),
    )
}

pub open spec fn gnu_fn() -> spec_fn(Seq<u8>) -> u32 {
    |name: Seq<u8>| gnu_hash_of(name)
}

pub open spec fn sysv_fn() -> spec_fn(Seq<u8>) -> u32 {
    |name: Seq<u8>| sysv_hash_of(name)
}

/// The image with its dynamic symbols renamed by the map. When it renames none,
/// the image stays as it is.
pub open spec fn symbols_renamed(
    v: ImageView,
    map: Seq<(Seq<char>, Seq<char>)>,
) -> Outcome<ImageView> {
    match (v.find_section(".dynsym"@), v.find_section(".dynstr"@)) {
        (None, _) => Err(no_section(".dynsym"@)),
        (_, None) => Err(no_section(".dynstr"@)),
        (Some(y), Some(s)) => {
            let count = sym_count(v.enc.class, v.sections[y]);
            if !any_renamed(v, v.sections[y], v.sections[s], map, count) {
                Ok(v)
            } else {
                match renamed(v, v.sections[y], v.sections[s], map, count) {
                    Err(e) => Err(e),
                    Ok((syms, strs)) => tables_rebuilt(
                        ImageView { sections: v.sections.update(y, syms).update(s, strs), ..v },
                        y,
                        syms,
                        strs,
                    ),
                }
            }
        },
    }
}

/// The image with both hash tables rebuilt for the names in the given tables.
pub open spec fn tables_rebuilt(
    v: ImageView,
    y: int,
    syms: Seq<u8>,
    strs: Seq<u8>,
) -> Outcome<ImageView> {
    match gnu_rebuilt(v, y, all_hashes(v, syms, strs, gnu_fn())) {
        Err(e) => Err(e),
        Ok((w, reorder)) => sysv_rebuilt(w, all_hashes(v, syms, strs, sysv_fn()), reorder),
    }
}

/// Append `v` as four bytes.
pub(crate) fn push_u32(e: Endian, out: &mut Vec<u8>, v: u32)
    ensures
        final(out)@ == old(out)@ + u32_bytes(e, v),
{
    let o = out.len();
    out.push(0);
    out.push(0);
    out.push(0);
    out.push(0);
    e.write_u32(out, o, v);
    proof {
        crate::bytes::lemma_widths(e);
    }
    assert(out@ =~= old(out)@ + u32_bytes(e, v));
}

/// Append `v` as an address-sized word.
fn push_word(enc: Encoding, out: &mut Vec<u8>, v: u64)
    requires
        word_fits(enc.class, v),
    ensures
        final(out)@ == old(out)@ + word_bytes(enc.class, enc.endian, v),
{
    match enc.class {
        Class::Elf64 => {
            let o = out.len();
            out.extend_from_slice(&[0u8, 0, 0, 0, 0, 0, 0, 0]);
            enc.endian.write_u64(out, o, v);
            proof {
                crate::bytes::lemma_widths(enc.endian);
            }
            assert(out@ =~= old(out)@ + word_bytes(enc.class, enc.endian, v));
        },
        Class::Elf32 => push_u32(enc.endian, out, v as u32),
    }
}

/// A 32-bit bloom word holds no more than 32 bits.
proof fn lemma_bloom_fits(class: Class, h: Seq<u32>, g: GnuHeader, w: int, n: int)
    ensures
        word_fits(class, bloom_word(class, h, g, w, n)),
    decreases n,
{
    if n > 0 && class is Elf32 {
        lemma_bloom_fits(class, h, g, w, n - 1);
        let before = bloom_word(class, h, g, w, n - 1);
        let a = (h[n - 1] % 32) as u64;
        let b = ((h[n - 1] >> g.shift2) % 32) as u64;
        assert((before | (1u64 << a) | (1u64 << b)) <= 0xffff_ffff) by (bit_vector)
            requires
                before <= 0xffff_ffff,
                a < 32,
                b < 32,
        ;
    }
}

/// The words of the bloom filter.
fn bloom_words(class: Class, h: &Vec<u32>, g: &GnuHeader) -> (words: Vec<u64>)
    requires
        h@.len() > 0 ==> g.maskwords > 0 && g.shift2 < 32,
    ensures
        words@.len() == g.maskwords,
        forall|w: int|
            0 <= w < words@.len() ==> #[trigger] words@[w] == bloom_word(
                class,
                h@,
                *g,
                w,
                h@.len() as int,
            ),
{
    let bits: u32 = match class {
        Class::Elf64 => 64,
        Class::Elf32 => 32,
    };
    let mw: usize = g.maskwords as usize;
    let mut words: Vec<u64> = Vec::new();
    while words.len() < mw
        invariant
            words@.len() <= mw,
            forall|w: int| 0 <= w < words@.len() ==> #[trigger] words@[w] == 0,
        decreases mw - words@.len(),
    {
        words.push(0);
    }
    let mut p: usize = 0;
    while p < h.len()
        invariant
            h@.len() > 0 ==> g.maskwords > 0 && g.shift2 < 32,
            bits == word_bits(class),
            mw == g.maskwords,
            words@.len() == mw,
            p <= h@.len(),
            forall|w: int|
                0 <= w < words@.len() ==> #[trigger] words@[w] == bloom_word(
                    class,
                    h@,
                    *g,
                    w,
                    p as int,
                ),
        decreases h@.len() - p,
    {
        let x = h[p];
        let w: usize = (x / bits) as usize % mw;
        let old_word = words[w];
        let one: u64 = 1u64 << ((x % bits) as u64);
        let two: u64 = 1u64 << (((x >> g.shift2) % bits) as u64);
        words.set(w, old_word | one | two);
        p += 1;
    }
    words
}

/// Refill a GNU hash table.
fn refill(
    enc: Encoding,
    data: &Vec<u8>,
    h: &Vec<u32>,
    g: &GnuHeader,
    order: &Grouping,
) -> (out: Vec<u8>)
    requires
        0 < g.num_buckets,
        gnu_wf(enc.class, data@, *g, g.symndx + h@.len()),
        order.groups(h@, g.num_buckets as int),
    ensures
        out@ == refilled(enc, data@, h@, *g),
{
    let e = enc.endian;
    let nb: usize = g.num_buckets as usize;
    let mw: usize = g.maskwords as usize;
    let total = h.len();
    let ghost n = h@.len() as int;
    let ghost gnb = nb as int;
    proof {
        lemma_total(h@, gnb, n);
        assert(0 <= g.maskwords * word(enc.class)) by (nonlinear_arith)
            requires
                word(enc.class) >= 0,
                g.maskwords >= 0,
        ;
    }
    let mut out: Vec<u8> = Vec::new();
    out.extend_from_slice(&data[0..16]);
    let ghost head = out@;
    assert(head =~= data@.take(16));
    let words = bloom_words(enc.class, h, g);
    let mut w: usize = 0;
    assert(out@ =~= head + bloom_bytes(enc, h@, *g, 0));
    while w < mw
        invariant
            mw == g.maskwords,
            words@.len() == mw,
            forall|i: int|
                0 <= i < words@.len() ==> #[trigger] words@[i] == bloom_word(
                    enc.class,
                    h@,
                    *g,
                    i,
                    h@.len() as int,
                ),
            w <= mw,
            out@ == head + bloom_bytes(enc, h@, *g, w as int),
        decreases mw - w,
    {
        proof {
            lemma_bloom_fits(enc.class, h@, *g, w as int, h@.len() as int);
        }
        let ghost before = bloom_bytes(enc, h@, *g, w as int);
        let ghost part = word_bytes(enc.class, e, words@[w as int]);
        push_word(enc, &mut out, words[w]);
        assert((head + before) + part =~= head + (before + part));
        w += 1;
    }
    let ghost head = out@;
    let mut b: usize = 0;
    assert(out@ =~= head + bucket_bytes(e, h@, *g, 0));
    while b < nb
        invariant
            nb == g.num_buckets,
            gnb == nb,
            n == h@.len(),
            total == h@.len(),
            below(h@, gnb, gnb, n) == n,
            g.symndx + n <= u32::MAX,
            order.groups(h@, gnb),
            b <= nb,
            out@ == head + bucket_bytes(e, h@, *g, b as int),
        decreases nb - b,
    {
        let start = order.starts[b];
        let end = if b + 1 < nb {
            order.starts[b + 1]
        } else {
            total
        };
        proof {
            lemma_below(h@, gnb, b as int, b + 1, n);
            lemma_below(h@, gnb, b + 1, gnb, n);
            assert(below(h@, gnb, b + 1, n) == below(h@, gnb, b as int, n) + members(
                h@,
                gnb,
                b as int,
                n,
            ));
        }
        let count: usize = end - start;
        let first: u32 = g.symndx + start as u32;
        let v: u32 = if count == 0 {
            0
        } else if first == 0 && count > 1 {
            1
        } else {
            first
        };
        assert(v == bucket_head(h@, *g, b as int));
        let ghost before = bucket_bytes(e, h@, *g, b as int);
        push_u32(e, &mut out, v);
        assert((head + before) + u32_bytes(e, v) =~= head + (before + u32_bytes(e, v)));
        b += 1;
    }
    let ghost head = out@;
    let mut k: usize = 0;
    assert(out@ =~= head + chain_bytes(e, h@, gnb, 0));
    while k < total
        invariant
            nb == g.num_buckets,
            0 < nb,
            gnb == nb,
            n == h@.len(),
            total == h@.len(),
            order.groups(h@, gnb),
            k <= total,
            out@ == head + chain_bytes(e, h@, gnb, k as int),
        decreases total - k,
    {
        proof {
            lemma_item_at(h@, gnb, k as int);
            if k + 1 < n {
                lemma_item_at(h@, gnb, k + 1);
            }
        }
        let x = h[order.new2old[k]];
        let last = k + 1 == total || h[order.new2old[k + 1]] as usize % nb != x as usize % nb;
        let v: u32 = if last {
            x | 1u32
        } else {
            x & !1u32
        };
        assert(v == chain_word(h@, gnb, k as int));
        let ghost before = chain_bytes(e, h@, gnb, k as int);
        push_u32(e, &mut out, v);
        assert((head + before) + u32_bytes(e, v) =~= head + (before + u32_bytes(e, v)));
        k += 1;
    }
    let unit: usize = match enc.class {
        Class::Elf64 => 8,
        Class::Elf32 => 4,
    };
    assert(data@.len() == data.len());
    let end: usize = 16 + mw * unit + nb * 4 + total * 4;
    let ghost front = out@;
    out.extend_from_slice(&data[end..data.len()]);
    assert(data@.subrange(end as int, data@.len() as int) =~= data@.skip(end as int));
    assert(out@ =~= refilled(enc, data@, h@, *g));
    out
}

/// Group the records from `start` on by bucket.
fn regroup(
    data: &Vec<u8>,
    start: usize,
    stride: usize,
    h: &Vec<u32>,
    nb: usize,
    order: &Grouping,
) -> (out: Vec<u8>)
    requires
        0 < nb,
        (start + h@.len()) * stride <= data@.len(),
        order.groups(h@, nb as int),
    ensures
        out@ == grouped(data@, start as int, stride as int, h@, nb as int),
{
    let total = h.len();
    let len = data.len();
    proof {
        assert(start * stride <= (start + h@.len()) * stride) by (nonlinear_arith)
            requires
                h@.len() >= 0,
        ;
    }
    let mut out: Vec<u8> = Vec::new();
    out.extend_from_slice(&data[0..start * stride]);
    let ghost head = out@;
    assert(head =~= data@.take(start * stride));
    let mut k: usize = 0;
    assert(out@ =~= head + grouped_records(data@, start as int, stride as int, h@, nb as int, 0));
    while k < total
        invariant
            0 < nb,
            total == h@.len(),
            len == data@.len(),
            (start + h@.len()) * stride <= len,
            order.groups(h@, nb as int),
            k <= total,
            out@ == head + grouped_records(
                data@,
                start as int,
                stride as int,
                h@,
                nb as int,
                k as int,
            ),
        decreases total - k,
    {
        proof {
            lemma_item_at(h@, nb as int, k as int);
        }
        let ghost item = order.new2old@[k as int] as int;
        assert(start + item + 1 <= (start + h@.len()));
        assert((start + item + 1) * stride <= (start + h@.len()) * stride) by (nonlinear_arith)
            requires
                start + item + 1 <= start + h@.len(),
        ;
        assert((start + item) * stride + stride == (start + item + 1) * stride) by (nonlinear_arith);
        assert(stride == 0 || start + item + 1 <= (start + item + 1) * stride) by (nonlinear_arith)
            requires
                start + item + 1 >= 0,
                stride >= 0,
        ;
        let ghost before = grouped_records(
            data@,
            start as int,
            stride as int,
            h@,
            nb as int,
            k as int,
        );
        if stride > 0 {
            let p: usize = start + order.new2old[k];
            out.extend_from_slice(&data[p * stride..p * stride + stride]);
        }
        let ghost part = data@.subrange((start + item) * stride, (start + item + 1) * stride);
        assert(out@ =~= (head + before) + part);
        assert((head + before) + part =~= head + (before + part));
        k += 1;
    }
    if stride > 0 {
        assert(start + h@.len() <= (start + h@.len()) * stride) by (nonlinear_arith)
            requires
                stride >= 1,
                start + h@.len() >= 0,
        ;
        out.extend_from_slice(&data[(start + total) * stride..len]);
    } else {
        out.extend_from_slice(&data[0..len]);
    }
    assert(out@ =~= grouped(data@, start as int, stride as int, h@, nb as int)) by {
        if stride == 0 {
            assert((start + h@.len()) * stride == 0) by (nonlinear_arith)
                requires
                    stride == 0,
            ;
        }
    }
    out
}

/// Renumber the symbol in a relocation's information.
fn renumber_info(
    class: Class,
    info: u64,
    start: usize,
    h: &Vec<u32>,
    nb: usize,
    order: &Grouping,
) -> (res: Result<u64>)
    requires
        start + h@.len() <= u32::MAX,
        order.groups(h@, nb as int),
        word_fits(class, info),
    ensures
        match res {
            Ok(new) => renumbered_info(class, start as int, h@, nb as int, info) == Outcome::Ok(new)
                && word_fits(class, new),
            Err(e) => renumbered_info(class, start as int, h@, nb as int, info) == Outcome::<
                u64,
            >::Err(e@),
        },
{
    let (unit, max): (u64, u64) = match class {
        Class::Elf64 => (0x1_0000_0000, 0xffff_ffff),
        Class::Elf32 => (0x100, 0xff_ffff),
    };
    let index: u64 = info / unit;
    if index >= start as u64 + h.len() as u64 {
        return Err(Error::Parse("relocation symbol index out of range".to_owned()));
    }
    let new: u64 = if index >= start as u64 {
        start as u64 + order.old2new[index as usize - start] as u64
    } else {
        index
    };
    assert(new == renumbered(start as int, h@, nb as int, index as int));
    if new > max {
        return Err(Error::Parse("relocation symbol index too large".to_owned()));
    }
    match class {
        Class::Elf64 => Ok(info % 0x1_0000_0000 + new * 0x1_0000_0000),
        Class::Elf32 => Ok(info % 0x100 + new * 0x100),
    }
}

/// Renumber the symbols in the relocations of one section.
fn renumber_relocs(
    enc: Encoding,
    data: &Vec<u8>,
    stride: usize,
    start: usize,
    h: &Vec<u32>,
    nb: usize,
    order: &Grouping,
) -> (res: Result<Vec<u8>>)
    requires
        2 * word(enc.class) <= stride,
        start + h@.len() <= u32::MAX,
        order.groups(h@, nb as int),
    ensures
        match res {
            Ok(out) => relocs_from(
                enc,
                data@,
                stride as int,
                start as int,
                h@,
                nb as int,
                0,
            ) == Outcome::Ok(out@),
            Err(e) => relocs_from(
                enc,
                data@,
                stride as int,
                start as int,
                h@,
                nb as int,
                0,
            ) == Outcome::<Seq<u8>>::Err(e@),
        },
{
    let w: usize = match enc.class {
        Class::Elf64 => 8,
        Class::Elf32 => 4,
    };
    let len = data.len();
    let ghost whole = relocs_from(enc, data@, stride as int, start as int, h@, nb as int, 0);
    let mut out: Vec<u8> = Vec::new();
    let mut o: usize = 0;
    assert(whole matches Ok(rest) ==> rest =~= out@ + rest);
    while len - o >= stride
        invariant
            2 * word(enc.class) <= stride,
            start + h@.len() <= u32::MAX,
            order.groups(h@, nb as int),
            w == word(enc.class),
            len == data@.len(),
            o <= len,
            whole == relocs_from(enc, data@, stride as int, start as int, h@, nb as int, 0),
            whole == (match relocs_from(
                enc,
                data@,
                stride as int,
                start as int,
                h@,
                nb as int,
                o as int,
            ) {
                Ok(rest) => Outcome::Ok(out@ + rest),
                Err(e) => Outcome::Err(e),
            }),
        decreases len - o,
    {
        let info: u64 = match enc.class {
            Class::Elf64 => enc.endian.read_u64(data.as_slice(), o + w),
            Class::Elf32 => enc.endian.read_u32(data.as_slice(), o + w) as u64,
        };
        let new: u64 = renumber_info(enc.class, info, start, h, nb, order)?;
        let ghost before = out@;
        let ghost rest = relocs_from(
            enc,
            data@,
            stride as int,
            start as int,
            h@,
            nb as int,
            o + stride,
        );
        let ghost a = data@.subrange(o as int, o + w);
        let ghost b = word_bytes(enc.class, enc.endian, new);
        let ghost c = data@.subrange(o + 2 * w, o + stride);
        out.extend_from_slice(&data[o..o + w]);
        push_word(enc, &mut out, new);
        out.extend_from_slice(&data[o + 2 * w..o + stride]);
        proof {
            assert(out@ == before + a + b + c);
            if let Ok(r) = rest {
                lemma_regroup_append(before, a, b, c, r);
            }
        }
        o += stride;
    }
    let ghost before = out@;
    out.extend_from_slice(&data[o..len]);
    assert(data@.subrange(o as int, len as int) =~= data@.skip(o as int));
    assert(out@ =~= before + data@.skip(o as int));
    Ok(out)
}

proof fn lemma_regroup_append(s: Seq<u8>, a: Seq<u8>, b: Seq<u8>, c: Seq<u8>, r: Seq<u8>)
    ensures
        s + (a + b + c + r) == s + a + b + c + r,
{
    assert(s + (a + b + c + r) =~= s + a + b + c + r);
}

/// Length of a relocation in a section of this type.
fn reloc_size(class: Class, sh_type: u32) -> (res: Option<usize>)
    ensures
        match res {
            Some(n) => reloc_len(class, sh_type) == Some(n as int) && 2 * word(class) <= n,
            None => reloc_len(class, sh_type) is None,
        },
{
    match (sh_type, class) {
        (sht::RELA, Class::Elf64) => Some(24),
        (sht::RELA, Class::Elf32) => Some(12),
        (sht::REL, Class::Elf64) => Some(16),
        (sht::REL, Class::Elf32) => Some(8),
        _ => None,
    }
}

proof fn lemma_relocs_err(v: ImageView, start: int, h: Seq<u32>, nb: int, i: int, n: int)
    requires
        i <= n,
        relocs_renumbered(v, start, h, nb, i) is Err,
    ensures
        relocs_renumbered(v, start, h, nb, n) == relocs_renumbered(v, start, h, nb, i),
    decreases n - i,
{
    if i < n {
        lemma_relocs_err(v, start, h, nb, i, n - 1);
    }
}

/// All sections, with the symbols in relocations renumbered.
fn remap_reloc_symbols(
    image: &ElfImage,
    start: usize,
    h: &Vec<u32>,
    nb: usize,
    order: &Grouping,
) -> (res: Result<Vec<Vec<u8>>>)
    requires
        image@.wf(),
        start + h@.len() <= u32::MAX,
        order.groups(h@, nb as int),
    ensures
        match res {
            Ok(out) => relocs_renumbered(
                image@,
                start as int,
                h@,
                nb as int,
                image@.sections.len() as int,
            ) == Outcome::Ok(contents(out@)) && out@.len() == image@.sections.len(),
            Err(e) => relocs_renumbered(
                image@,
                start as int,
                h@,
                nb as int,
                image@.sections.len() as int,
            ) == Outcome::<Seq<Seq<u8>>>::Err(e@),
        },
{
    let mut out: Vec<Vec<u8>> = Vec::new();
    let mut i: usize = 0;
    assert(contents(out@) =~= Seq::empty());
    while i < image.shdrs.len()
        invariant
            image@.wf(),
            start + h@.len() <= u32::MAX,
            order.groups(h@, nb as int),
            out@.len() == i <= image@.shdrs.len(),
            relocs_renumbered(image@, start as int, h@, nb as int, i as int) == Outcome::Ok(
                contents(out@),
            ),
        decreases image@.shdrs.len() - i,
    {
        let ghost before = contents(out@);
        assert(image@.sections[i as int] == image.section_data@[i as int]@);
        let b = match reloc_size(image.enc.class, image.shdrs[i].sh_type) {
            None => copy_bytes(image.section_data[i].as_slice()),
            Some(stride) => match renumber_relocs(
                image.enc,
                &image.section_data[i],
                stride,
                start,
                h,
                nb,
                order,
            ) {
                Ok(b) => b,
                Err(e) => {
                    proof {
                        lemma_relocs_err(
                            image@,
                            start as int,
                            h@,
                            nb as int,
                            i + 1,
                            image@.sections.len() as int,
                        );
                    }
                    return Err(e);
                },
            },
        };
        out.push(b);
        assert(contents(out@) =~= before.push(b@));
        i += 1;
    }
    Ok(out)
}

/// The hashes of all symbols, in the order of the symbol table.
fn symbol_hashes(enc: Encoding, dynsym: &Vec<u8>, dynstr: &Vec<u8>, Ghost(v): Ghost<ImageView>) -> (res: (
    Vec<u32>,
    Vec<u32>,
))
    requires
        enc == v.enc,
    ensures
        res.0@ == all_hashes(v, dynsym@, dynstr@, gnu_fn()),
        res.1@ == all_hashes(v, dynsym@, dynstr@, sysv_fn()),
{
    let count: usize = dynsym.len() / sym_size(enc.class);
    let mut gnu: Vec<u32> = Vec::new();
    let mut sysv: Vec<u32> = Vec::new();
    let mut i: usize = 0;
    while i < count
        invariant
            enc == v.enc,
            count == sym_count(v.enc.class, dynsym@),
            i <= count,
            gnu@.len() == i,
            sysv@.len() == i,
            forall|j: int|
                0 <= j < i ==> #[trigger] gnu@[j] == gnu_hash_of(
                    sym_bytes(v, dynsym@, dynstr@, j),
                ),
            forall|j: int|
                0 <= j < i ==> #[trigger] sysv@[j] == sysv_hash_of(
                    sym_bytes(v, dynsym@, dynstr@, j),
                ),
        decreases count - i,
    {
        let name = sym_name(enc, dynsym.as_slice(), dynstr.as_slice(), i, Ghost(v));
        gnu.push(gnu_hash(name));
        sysv.push(sysv_hash(name));
        i += 1;
    }
    assert(gnu@ =~= all_hashes(v, dynsym@, dynstr@, gnu_fn()));
    assert(sysv@ =~= all_hashes(v, dynsym@, dynstr@, sysv_fn()));
    (gnu, sysv)
}

/// A reorder in machine integers.
struct Moved {
    start: usize,
    order: Grouping,
}

/// Whether `m` is the reorder `r` of `count` symbols.
spec fn moved_is(m: Option<Moved>, r: Option<Reorder>, count: int) -> bool {
    match (m, r) {
        (None, None) => true,
        (Some(m), Some(r)) => {
            &&& m.start == r.start
            &&& r.start + r.hashes.len() == count
            &&& m.order.groups(r.hashes, r.num_buckets)
        },
        _ => false,
    }
}

/// Grouping records keeps the length of the table.
pub proof fn lemma_grouped_len(data: Seq<u8>, start: int, stride: int, h: Seq<u32>, nb: int)
    requires
        0 <= start,
        0 < stride,
        0 < nb,
        (start + h.len()) * stride <= data.len(),
    ensures
        grouped(data, start, stride, h, nb).len() == data.len(),
{
    lemma_grouped_records_len(data, start, stride, h, nb, h.len() as int);
    assert(start * stride + h.len() * stride == (start + h.len()) * stride) by (nonlinear_arith);
    assert(0 <= start * stride) by (nonlinear_arith)
        requires
            0 <= start,
            0 < stride,
    ;
    assert(0 <= h.len() * stride) by (nonlinear_arith)
        requires
            0 < stride,
    ;
}

pub proof fn lemma_grouped_records_len(
    data: Seq<u8>,
    start: int,
    stride: int,
    h: Seq<u32>,
    nb: int,
    n: int,
)
    requires
        0 <= start,
        0 < stride,
        0 < nb,
        0 <= n <= h.len(),
        (start + h.len()) * stride <= data.len(),
    ensures
        grouped_records(data, start, stride, h, nb, n).len() == n * stride,
    decreases n,
{
    if n > 0 {
        lemma_grouped_records_len(data, start, stride, h, nb, n - 1);
        lemma_item_at(h, nb, n - 1);
        let p = start + item_at(h, nb, n - 1);
        assert((p + 1) * stride <= (start + h.len()) * stride) by (nonlinear_arith)
            requires
                p + 1 <= start + h.len(),
                0 < stride,
        ;
        assert(0 <= p * stride && (p + 1) * stride == p * stride + stride) by (nonlinear_arith)
            requires
                0 <= p,
                0 < stride,
        ;
        assert((n - 1) * stride + stride == n * stride) by (nonlinear_arith);
    } else {
        assert(n * stride == 0) by (nonlinear_arith)
            requires
                n == 0,
        ;
    }
}

/// Renumbering keeps the length of a section.
proof fn lemma_relocs_from_len(
    enc: Encoding,
    data: Seq<u8>,
    stride: int,
    start: int,
    h: Seq<u32>,
    nb: int,
    o: int,
)
    requires
        2 * word(enc.class) <= stride,
        0 <= o <= data.len(),
    ensures
        relocs_from(enc, data, stride, start, h, nb, o) matches Ok(b) ==> b.len() == data.len() - o,
    decreases data.len() - o,
{
    if o + stride <= data.len() {
        lemma_relocs_from_len(enc, data, stride, start, h, nb, o + stride);
        crate::bytes::lemma_widths(enc.endian);
    }
}

proof fn lemma_relocs_len(v: ImageView, start: int, h: Seq<u32>, nb: int, n: int)
    requires
        0 <= n <= v.sections.len(),
    ensures
        relocs_renumbered(v, start, h, nb, n) matches Ok(t) ==> t.len() == n && forall|i: int|
            0 <= i < n ==> (#[trigger] t[i]).len() == v.sections[i].len(),
    decreases n,
{
    if n > 0 {
        lemma_relocs_len(v, start, h, nb, n - 1);
        if let Some(stride) = reloc_len(v.enc.class, v.shdrs[n - 1].sh_type) {
            lemma_relocs_from_len(v.enc, v.sections[n - 1], stride, start, h, nb, 0);
        }
    }
}

/// Whether `res` is the outcome `want` of rebuilding the GNU hash table, `image`
/// being the image after it.
spec fn gnu_outcome(
    res: Result<Option<Moved>>,
    image: ImageView,
    want: Outcome<(ImageView, Option<Reorder>)>,
    count: int,
) -> bool {
    match (res, want) {
        (Ok(m), Ok((w, r))) => image == w && moved_is(m, r, count),
        (Err(e), Err(x)) => e@ == x,
        _ => false,
    }
}

/// Put the symbol versions in the order of the symbols.
fn regroup_versions(
    image: &mut ElfImage,
    start: usize,
    h: &Vec<u32>,
    nb: usize,
    order: &Grouping,
) -> (res: Result<()>)
    requires
        old(image)@.wf(),
        0 < nb,
        start + h@.len() <= u32::MAX,
        order.groups(h@, nb as int),
    ensures
        final(image)@.wf(),
        edited(
            res,
            old(image)@,
            final(image)@,
            versions_grouped(old(image)@, start as int, h@, nb as int),
        ),
        final(image)@ == (ImageView { sections: final(image)@.sections, ..old(image)@ }),
        forall|i: int|
            0 <= i < old(image)@.sections.len() ==> (#[trigger] final(image)@.sections[i]).len()
                == old(image)@.sections[i].len(),
{
    let ghost v = image@;
    if let Some(k) = image.find_section(".gnu.version") {
        assert(v.sections[k as int] == image.section_data@[k as int]@);
        if image.section_data[k].len() / 2 < start + h.len() {
            return Err(Error::Parse("versym smaller than dynsym".to_owned()));
        }
        let versions = regroup(&image.section_data[k], start, 2, h, nb, order);
        proof {
            lemma_grouped_len(v.sections[k as int], start as int, 2, h@, nb as int);
        }
        image.section_data[k] = versions;
        assert(image@.sections =~= v.sections.update(k as int, versions@));
    }
    Ok(())
}

/// Group the symbols by bucket and refill the table `t`. A refusal leaves the
/// sections in an unspecified state.
fn regroup_symbols(
    image: &mut ElfImage,
    y: usize,
    t: usize,
    g: &GnuHeader,
    h: &Vec<u32>,
) -> (res: Result<Option<Moved>>)
    requires
        old(image)@.wf(),
        y < old(image)@.sections.len(),
        t < old(image)@.sections.len(),
        0 < g.num_buckets,
        gnu_wf(
            old(image)@.enc.class,
            old(image)@.sections[t as int],
            *g,
            g.symndx + h@.len(),
        ),
        g.symndx + h@.len() == sym_count(old(image)@.enc.class, old(image)@.sections[y as int]),
    ensures
        final(image)@.wf(),
        final(image)@ == (ImageView { sections: final(image)@.sections, ..old(image)@ }),
        gnu_outcome(
            res,
            final(image)@,
            gnu_regrouped(old(image)@, y as int, t as int, *g, h@),
            g.symndx + h@.len(),
        ),
{
    reveal(gnu_regrouped);
    let ghost v = image@;
    let class = image.enc.class;
    let start = g.symndx as usize;
    let nb: usize = g.num_buckets as usize;
    let order = group(h, nb);
    proof {
        let size = sym_len(class);
        let l = v.sections[y as int].len() as int;
        vstd::arithmetic::div_mod::lemma_fundamental_div_mod(l, size);
        vstd::arithmetic::div_mod::lemma_mod_bound(l, size);
        assert((start + h@.len()) * size <= l) by (nonlinear_arith)
            requires
                l == size * (l / size) + l % size,
                0 <= l % size,
                start + h@.len() == l / size,
        ;
        lemma_grouped_len(v.sections[y as int], start as int, size, h@, nb as int);
        assert(v.sections[y as int] == image.section_data@[y as int]@);
    }
    let syms = regroup(&image.section_data[y], start, sym_size(class), h, nb, &order);
    image.section_data[y] = syms;
    let ghost v1 = image@;
    assert(v1.sections =~= v.sections.update(y as int, syms@));
    regroup_versions(image, start, h, nb, &order)?;
    let ghost v2 = image@;
    let sections = remap_reloc_symbols(image, start, h, nb, &order)?;
    proof {
        lemma_relocs_len(v2, start as int, h@, nb as int, v2.sections.len() as int);
    }
    let ghost s2 = contents(sections@);
    image.section_data = sections;
    assert(s2[t as int] == image.section_data@[t as int]@);
    assert(s2[t as int].len() == v.sections[t as int].len());
    let table = refill(image.enc, &image.section_data[t], h, g, &order);
    image.section_data[t] = table;
    assert(image@.sections =~= s2.update(t as int, table@));
    Ok(Some(Moved { start, order }))
}

fn read_gnu_header(e: Endian, data: &[u8]) -> (g: GnuHeader)
    requires
        data@.len() >= 16,
    ensures
        g == gnu_header(e, data@),
{
    assert(data@.len() == data.len());
    GnuHeader {
        num_buckets: e.read_u32(data, 0),
        symndx: e.read_u32(data, 4),
        maskwords: e.read_u32(data, 8),
        shift2: e.read_u32(data, 12),
    }
}

fn chains_start(class: Class, g: &GnuHeader) -> (off: u64)
    ensures
        off == g.table_off(class),
{
    match class {
        Class::Elf64 => 16 + g.maskwords as u64 * 8 + g.num_buckets as u64 * 4,
        Class::Elf32 => 16 + g.maskwords as u64 * 4 + g.num_buckets as u64 * 4,
    }
}

/// Rebuild the GNU hash table. A refusal leaves the sections in an unspecified
/// state.
fn rebuild_gnu_hash(
    image: &mut ElfImage,
    y: usize,
    hashes: &Vec<u32>,
) -> (res: Result<Option<Moved>>)
    requires
        old(image)@.wf(),
        y < old(image)@.sections.len(),
        hashes@.len() == sym_count(old(image)@.enc.class, old(image)@.sections[y as int]),
    ensures
        final(image)@.wf(),
        final(image)@ == (ImageView { sections: final(image)@.sections, ..old(image)@ }),
        gnu_outcome(
            res,
            final(image)@,
            gnu_rebuilt(old(image)@, y as int, hashes@),
            hashes@.len() as int,
        ),
{
    let ghost v = image@;
    let t = match image.find_section(".gnu.hash") {
        Some(t) => t,
        None => {
            return Ok(None);
        },
    };
    assert(v.sections[t as int] == image.section_data@[t as int]@);
    let e = image.enc.endian;
    let class = image.enc.class;
    let len = image.section_data[t].len();
    if len < 16 {
        return Err(Error::Parse(".gnu.hash too small".to_owned()));
    }
    let g = read_gnu_header(e, image.section_data[t].as_slice());
    let table_off: u64 = chains_start(class, &g);
    if g.num_buckets == 0 || table_off > len as u64 {
        return Ok(None);
    }
    let nsyms = hashes.len();
    let start = g.symndx as usize;
    if nsyms as u64 > 0xffff_ffff || start > nsyms || (nsyms - start) as u64 * 4 > len as u64
        - table_off || (start < nsyms && (g.maskwords == 0 || g.shift2 >= 32)) {
        return Err(Error::Parse("malformed .gnu.hash".to_owned()));
    }
    let mut h: Vec<u32> = Vec::new();
    h.extend_from_slice(&hashes[start..nsyms]);
    assert(h@ =~= hashes@.skip(start as int));
    regroup_symbols(image, y, t, &g, &h)
}

/// The buckets of the symbols that a SysV hash table chains, in their new order.
fn sysv_buckets(
    hashes: &Vec<u32>,
    start: usize,
    nb: u32,
    moved: &Option<Moved>,
    Ghost(r): Ghost<Option<Reorder>>,
) -> (out: Vec<u32>)
    requires
        nb > 0,
        start <= hashes@.len(),
        moved_is(*moved, r, hashes@.len() as int),
    ensures
        out@ == Seq::new(
            (hashes@.len() - start) as nat,
            |i: int| (hashes@[old_index(r, start + i)] % nb) as u32,
        ),
{
    let total = hashes.len();
    let mut out: Vec<u32> = Vec::new();
    let mut i: usize = start;
    while i < total
        invariant
            nb > 0,
            total == hashes@.len(),
            moved_is(*moved, r, total as int),
            start <= i <= total,
            out@.len() == i - start,
            forall|j: int|
                0 <= j < out@.len() ==> #[trigger] out@[j] == hashes@[old_index(r, start + j)]
                    % nb,
        decreases total - i,
    {
        let index: usize = match moved {
            Some(m) => if i >= m.start {
                m.start + m.order.new2old[i - m.start]
            } else {
                i
            },
            None => i,
        };
        assert(index == old_index(r, i as int));
        assert(i == start + out@.len());
        out.push(hashes[index] % nb);
        i += 1;
    }
    assert(out@ =~= Seq::new(
        (hashes@.len() - start) as nat,
        |i: int| (hashes@[old_index(r, start + i)] % nb) as u32,
    ));
    out
}

pub proof fn lemma_last_place(buckets: Seq<u32>, b: int, n: int)
    requires
        0 <= n,
    ensures
        0 <= last_place(buckets, b, n),
        n > 0 ==> last_place(buckets, b, n) < n,
        n == 0 ==> last_place(buckets, b, n) == 0,
    decreases n,
{
    if n > 0 {
        lemma_last_place(buckets, b, n - 1);
    }
}

/// A SysV hash table refilled for the given buckets.
fn sysv_refill(e: Endian, data: &Vec<u8>, nb: u32, buckets: &Vec<u32>) -> (out: Vec<u8>)
    requires
        8 + (nb + buckets@.len()) * 4 <= data@.len(),
        buckets@.len() <= u32::MAX,
        forall|i: int| 0 <= i < buckets@.len() ==> #[trigger] buckets@[i] < nb,
    ensures
        out@ == data@.take(8) + sysv_heads(e, buckets@, nb as int) + sysv_chain(
            e,
            buckets@,
            buckets@.len() as int,
        ) + data@.skip(8 + (nb + buckets@.len()) * 4),
{
    let total = buckets.len();
    let mut heads: Vec<u32> = Vec::new();
    while heads.len() < nb as usize
        invariant
            heads@.len() <= nb,
            forall|b: int| 0 <= b < heads@.len() ==> #[trigger] heads@[b] == 0,
        decreases nb - heads@.len(),
    {
        heads.push(0);
    }
    let mut chain: Vec<u8> = Vec::new();
    let mut i: usize = 0;
    assert(chain@ =~= sysv_chain(e, buckets@, 0));
    while i < total
        invariant
            total == buckets@.len(),
            total <= u32::MAX,
            heads@.len() == nb,
            forall|j: int| 0 <= j < buckets@.len() ==> #[trigger] buckets@[j] < nb,
            i <= total,
            forall|b: int|
                0 <= b < nb ==> #[trigger] heads@[b] == last_place(buckets@, b, i as int),
            chain@ == sysv_chain(e, buckets@, i as int),
        decreases total - i,
    {
        assert(buckets@[i as int] < nb);
        let b: usize = buckets[i] as usize;
        push_u32(e, &mut chain, heads[b]);
        heads.set(b, i as u32);
        i += 1;
    }
    let mut out: Vec<u8> = Vec::new();
    out.extend_from_slice(&data[0..8]);
    let ghost head = out@;
    assert(head =~= data@.take(8));
    let mut b: usize = 0;
    assert(out@ =~= head + sysv_heads(e, buckets@, 0));
    while b < nb as usize
        invariant
            total == buckets@.len(),
            heads@.len() == nb,
            forall|j: int|
                0 <= j < nb ==> #[trigger] heads@[j] == last_place(buckets@, j, total as int),
            b <= nb,
            out@ == head + sysv_heads(e, buckets@, b as int),
        decreases nb - b,
    {
        let ghost before = sysv_heads(e, buckets@, b as int);
        let v = heads[b];
        push_u32(e, &mut out, v);
        assert((head + before) + u32_bytes(e, v) =~= head + (before + u32_bytes(e, v)));
        b += 1;
    }
    out.extend_from_slice(chain.as_slice());
    assert(data@.len() == data.len());
    let end: usize = 8 + (nb as usize + total) * 4;
    out.extend_from_slice(&data[end..data.len()]);
    assert(data@.subrange(end as int, data@.len() as int) =~= data@.skip(end as int));
    assert(out@ =~= data@.take(8) + sysv_heads(e, buckets@, nb as int) + sysv_chain(
        e,
        buckets@,
        total as int,
    ) + data@.skip(end as int));
    out
}

/// Rebuild the SysV hash table.
fn rebuild_sysv_hash(
    image: &mut ElfImage,
    hashes: &Vec<u32>,
    moved: &Option<Moved>,
    Ghost(r): Ghost<Option<Reorder>>,
) -> (res: Result<()>)
    requires
        old(image)@.wf(),
        moved_is(*moved, r, hashes@.len() as int),
    ensures
        final(image)@.wf(),
        final(image)@ == (ImageView { sections: final(image)@.sections, ..old(image)@ }),
        edited(res, old(image)@, final(image)@, sysv_rebuilt(old(image)@, hashes@, r)),
{
    let ghost v = image@;
    let k = match image.find_section(".hash") {
        Some(k) => k,
        None => {
            return Ok(());
        },
    };
    assert(v.sections[k as int] == image.section_data@[k as int]@);
    let e = image.enc.endian;
    let len = image.section_data[k].len();
    if len < 8 {
        return Ok(());
    }
    let nb: u32 = e.read_u32(image.section_data[k].as_slice(), 0);
    let nchain: u32 = e.read_u32(image.section_data[k].as_slice(), 4);
    if nb == 0 || 8 + (nb as u64 + nchain as u64) * 4 > len as u64 {
        return Ok(());
    }
    if nchain as usize > hashes.len() {
        return Err(Error::Parse("malformed .hash".to_owned()));
    }
    let start: usize = hashes.len() - nchain as usize;
    let buckets = sysv_buckets(hashes, start, nb, moved, Ghost(r));
    let table = sysv_refill(e, &image.section_data[k], nb, &buckets);
    image.section_data[k] = table;
    assert(image@.sections =~= v.sections.update(k as int, table@));
    Ok(())
}

/// Rebuild both hash tables. A refusal leaves the sections in an unspecified
/// state.
fn rebuild_tables(
    image: &mut ElfImage,
    y: usize,
    syms: &Vec<u8>,
    strs: &Vec<u8>,
) -> (res: Result<()>)
    requires
        old(image)@.wf(),
        y < old(image)@.sections.len(),
        old(image)@.sections[y as int].len() == syms@.len(),
    ensures
        final(image)@.wf(),
        final(image)@ == (ImageView { sections: final(image)@.sections, ..old(image)@ }),
        match res {
            Ok(_) => tables_rebuilt(old(image)@, y as int, syms@, strs@) == Outcome::Ok(
                final(image)@,
            ),
            Err(e) => tables_rebuilt(old(image)@, y as int, syms@, strs@) == Outcome::<
                ImageView,
            >::Err(e@),
        },
{
    let ghost v = image@;
    let (gnu, sysv) = symbol_hashes(image.enc, syms, strs, Ghost(v));
    let moved = rebuild_gnu_hash(image, y, &gnu)?;
    let ghost r = gnu_rebuilt(v, y as int, gnu@)->Ok_0.1;
    rebuild_sysv_hash(image, &sysv, &moved, Ghost(r))
}

/// A copy of every section.
fn copy_sections(sections: &Vec<Vec<u8>>) -> (out: Vec<Vec<u8>>)
    ensures
        contents(out@) == contents(sections@),
{
    let mut out: Vec<Vec<u8>> = Vec::new();
    let mut i: usize = 0;
    while i < sections.len()
        invariant
            out@.len() == i <= sections@.len(),
            forall|j: int| 0 <= j < i ==> (#[trigger] out@[j])@ == sections@[j]@,
        decreases sections@.len() - i,
    {
        out.push(copy_bytes(sections[i].as_slice()));
        i += 1;
    }
    assert(contents(out@) =~= contents(sections@));
    out
}

/// Rename the dynamic symbols by the map, whose last pair for a name counts.
pub fn rename_dynamic_symbols(
    image: &mut ElfImage,
    map: &Vec<(String, String)>,
) -> (res: Result<()>)
    requires
        old(image)@.wf(),
    ensures
        final(image)@.wf(),
        edited(
            res,
            old(image)@,
            final(image)@,
            symbols_renamed(old(image)@, pair_views(map@)),
        ),
{
    let y = require_section(image, ".dynsym")?;
    let s = require_section(image, ".dynstr")?;
    let ghost v = image@;
    assert(v.sections[y as int] == image.section_data@[y as int]@);
    assert(v.sections[s as int] == image.section_data@[s as int]@);
    let (syms, strs) = match rename_strings(
        image.enc,
        &image.section_data[y],
        &image.section_data[s],
        map,
        Ghost(v),
    ) {
        Ok(Some(tables)) => tables,
        Ok(None) => {
            return Ok(());
        },
        Err(e) => {
            return Err(e);
        },
    };
    let saved = copy_sections(&image.section_data);
    proof {
        lemma_renamed(
            v,
            v.sections[y as int],
            v.sections[s as int],
            pair_views(map@),
            sym_count(v.enc.class, v.sections[y as int]),
        );
        reveal_strlit(".dynsym");
        reveal_strlit(".dynstr");
        assert(".dynsym"@[4] == 's' && ".dynsym"@[5] == 'y');
        assert(".dynstr"@[5] == 't');
        assert(y != s);
    }
    image.section_data[y] = copy_bytes(syms.as_slice());
    image.section_data[s] = copy_bytes(strs.as_slice());
    assert(image@.sections =~= v.sections.update(y as int, syms@).update(s as int, strs@));
    match rebuild_tables(image, y, &syms, &strs) {
        Ok(_) => Ok(()),
        Err(e) => {
            image.section_data = saved;
            assert(image@ =~= v);
            Err(e)
        },
    }
}

/// `line` without a carriage return at its end.
pub open spec fn without_cr(line: Seq<char>) -> Seq<char> {
    if line.len() > 0 && line.last() == '\r' {
        line.drop_last()
    } else {
        line
    }
}

/// The pairs in the first `n` of the lines: of each the first two words. A line
/// without words has none, one with a single word is malformed. Of each line but
/// the last, a carriage return at its end belongs to the line's end.
pub open spec fn map_pairs(lines: Seq<Seq<char>>, n: int) -> Outcome<Seq<(Seq<char>, Seq<char>)>>
    decreases n,
{
    if n <= 0 {
        Ok(Seq::empty())
    } else {
        match map_pairs(lines, n - 1) {
            Err(e) => Err(e),
            Ok(t) => {
                let line = if n == lines.len() {
                    lines[n - 1]
                } else {
                    without_cr(lines[n - 1])
                };
                let w = words(line);
                if w.len() == 0 {
                    Ok(t)
                } else if w.len() == 1 {
                    Err(ErrorView::Cli("malformed symbol map line: "@ + debug_text(line)))
                } else {
                    Ok(t.push((w[0], w[1])))
                }
            },
        }
    }
}

/// The pairs of a rename map: words `old new`, one pair a line.
pub open spec fn symbol_map(text: Seq<char>) -> Outcome<Seq<(Seq<char>, Seq<char>)>> {
    let lines = split(text, '\n');
    map_pairs(lines, lines.len() as int)
}

proof fn lemma_map_pairs_err(lines: Seq<Seq<char>>, i: int, n: int)
    requires
        i <= n,
        map_pairs(lines, i) is Err,
    ensures
        map_pairs(lines, n) == map_pairs(lines, i),
    decreases n - i,
{
    if i < n {
        lemma_map_pairs_err(lines, i, n - 1);
    }
}

/// Parse a rename map.
pub fn parse_symbol_map(text: &str) -> (res: Result<Vec<(String, String)>>)
    ensures
        match res {
            Ok(v) => symbol_map(text@) == Outcome::Ok(pair_views(v@)),
            Err(e) => symbol_map(text@) == Outcome::<Seq<(Seq<char>, Seq<char>)>>::Err(e@),
        },
{
    let lines = split_text(text, '\n');
    let ghost all = texts(lines@);
    let mut out: Vec<(String, String)> = Vec::new();
    let mut i: usize = 0;
    assert(pair_views(out@) =~= Seq::empty());
    while i < lines.len()
        invariant
            all == texts(lines@),
            all == split(text@, '\n'),
            i <= lines@.len(),
            map_pairs(all, i as int) == Outcome::Ok(pair_views(out@)),
        decreases lines@.len() - i,
    {
        assert(all[i as int] == lines@[i as int]@);
        let chars = chars_of(lines[i].as_str());
        let mut end: usize = chars.len();
        if i + 1 < lines.len() && end > 0 && chars[end - 1] == '\r' {
            end -= 1;
        }
        let line = string_of(&chars, 0, end);
        assert(line@ =~= if i + 1 == all.len() {
            all[i as int]
        } else {
            without_cr(all[i as int])
        });
        let w = split_words(line.as_str());
        if w.len() == 1 {
            proof {
                lemma_map_pairs_err(all, i + 1, all.len() as int);
            }
            return Err(
                Error::Cli(
                    concat("malformed symbol map line: ", debug_str(line.as_str()).as_str()),
                ),
            );
        }
        if w.len() >= 2 {
            let ghost before = pair_views(out@);
            assert(words(line@)[0] == w@[0]@ && words(line@)[1] == w@[1]@);
            out.push((w[0].clone(), w[1].clone()));
            assert(pair_views(out@) =~= before.push((words(line@)[0], words(line@)[1])));
        }
        i += 1;
    }
    Ok(out)
}

} // verus!
