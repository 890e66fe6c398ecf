//! Renaming symbols keeps everything that belongs together together.
use vstd::prelude::*;
use vstd::utf8::encode_utf8;

use crate::bytes::{lemma_u32_decode, lemma_u64_decode, lemma_widths, u32_at, u32_bytes};
use crate::error::Outcome;
use crate::ir::{lemma_section_from, lemma_section_from_same, Encoding, ImageView};
use crate::laws::edits::{storable, terminated};
use crate::laws::naming::{law_records_follow, lemma_fields_apart, lemma_renamed_names};
use crate::ops::{sym_count, sym_len, sym_name_offset};
use crate::raw::{word, word_at, word_bytes};
use crate::seqs::splice;
use crate::symbols::{
    all_hashes, any_renamed, gnu_fn, gnu_header, gnu_rebuilt, gnu_regrouped, gnu_wf, grouped,
    info_unit, lemma_record, max_reloc_index, new_name, refilled, reloc_len, relocs_from,
    relocs_renumbered, renamed, renames, renumbered, renumbered_info, sym_bytes, symbols_renamed,
    sysv_fn, sysv_rebuilt, versions_grouped, Reorder,
};
use crate::text::{lemma_utf8_text, utf8_text};

verus! {

/// Whether the section of that name, if there is one, is neither the one with the
/// section names nor one of relocations.
pub open spec fn name_apart(v: ImageView, name: Seq<char>) -> bool {
    v.find_section(name) matches Some(k) ==> k != v.ehdr.shstrndx && v.shdrs[k].sh_type != 4
        && v.shdrs[k].sh_type != 9
}

/// Whether the tables that go by symbols are apart from the section names and the
/// relocations.
pub open spec fn tables_named(v: ImageView) -> bool {
    &&& v.wf()
    &&& v.ehdr.shstrndx < v.shdrs.len() ==> v.shdrs[v.ehdr.shstrndx as int].sh_type != 4
        && v.shdrs[v.ehdr.shstrndx as int].sh_type != 9
    &&& name_apart(v, ".dynsym"@)
    &&& name_apart(v, ".dynstr"@)
    &&& name_apart(v, ".gnu.version"@)
    &&& name_apart(v, ".gnu.hash"@)
    &&& name_apart(v, ".hash"@)
}

/// Whether `w` differs from `v` only in the contents of sections other than that with the
/// section names.
pub open spec fn same_names(v: ImageView, w: ImageView) -> bool {
    &&& w == (ImageView { sections: w.sections, ..v })
    &&& w.sections.len() == v.sections.len()
    &&& v.ehdr.shstrndx < v.sections.len() ==> w.sections[v.ehdr.shstrndx as int]
        == v.sections[v.ehdr.shstrndx as int]
}

pub proof fn lemma_same_names(v: ImageView, w: ImageView)
    requires
        same_names(v, w),
    ensures
        forall|name: Seq<char>| #[trigger] w.find_section(name) == v.find_section(name),
{
    assert forall|name: Seq<char>| #[trigger] w.find_section(name) == v.find_section(name) by {
        lemma_section_from_same(v, w, name, 0);
    }
}

/// Sections with different names are different.
pub proof fn lemma_apart(v: ImageView, a: Seq<char>, b: Seq<char>)
    requires
        a != b,
    ensures
        v.find_section(a) is Some && v.find_section(b) is Some ==> v.find_section(a)
            != v.find_section(b),
        v.find_section(a) matches Some(k) ==> 0 <= k < v.shdrs.len(),
        v.find_section(b) matches Some(k) ==> 0 <= k < v.shdrs.len(),
{
    lemma_section_from(v, a, 0);
    lemma_section_from(v, b, 0);
}

pub proof fn lemma_names_differ()
    ensures
        ".dynsym"@ != ".dynstr"@,
        ".dynsym"@ != ".gnu.version"@,
        ".dynsym"@ != ".gnu.hash"@,
        ".dynsym"@ != ".hash"@,
        ".dynstr"@ != ".gnu.version"@,
        ".dynstr"@ != ".gnu.hash"@,
        ".dynstr"@ != ".hash"@,
        ".gnu.version"@ != ".gnu.hash"@,
        ".gnu.version"@ != ".hash"@,
        ".gnu.hash"@ != ".hash"@,
{
    reveal_strlit(".dynsym");
    reveal_strlit(".dynstr");
    reveal_strlit(".gnu.version");
    reveal_strlit(".gnu.hash");
    reveal_strlit(".hash");
    assert(".dynsym"@[5] == 'y' && ".dynstr"@[5] == 't');
    assert(".dynsym"@.len() == 7 && ".gnu.version"@.len() == 12 && ".gnu.hash"@.len() == 9
        && ".hash"@.len() == 5 && ".dynstr"@.len() == 7);
}

/// Size of a relocation: with or without an addend.
pub open spec fn reloc_size(wide: bool, ty: u32) -> int {
    if ty == 4 {
        if wide {
            24
        } else {
            12
        }
    } else if wide {
        16
    } else {
        8
    }
}

/// Size of the fields of a relocation.
pub open spec fn reloc_word(wide: bool) -> int {
    if wide {
        8
    } else {
        4
    }
}

/// By how much the symbol stands above the type in a relocation's second field.
pub open spec fn symbol_unit(wide: bool) -> int {
    if wide {
        0x1_0000_0000
    } else {
        0x100
    }
}

/// Whether entry `e` of the relocations in section `i` is what it was, but that its symbol
/// has the index that it went to: place, type and addend are the same.
pub open spec fn relocation_follows(
    v: ImageView,
    w: ImageView,
    to: Seq<int>,
    i: int,
    e: int,
) -> bool {
    let wide = v.enc.class is Elf64;
    let n = reloc_size(wide, v.shdrs[i].sh_type);
    let f = reloc_word(wide);
    let o = e * n;
    let a = word_at(v.enc.class, v.enc.endian, v.sections[i], o + f) as int;
    let b = word_at(v.enc.class, v.enc.endian, w.sections[i], o + f) as int;
    let unit = symbol_unit(wide);
    &&& w.sections[i].subrange(o, o + f) == v.sections[i].subrange(o, o + f)
    &&& w.sections[i].subrange(o + 2 * f, o + n) == v.sections[i].subrange(o + 2 * f, o + n)
    &&& b % unit == a % unit
    &&& b / unit == if 0 <= a / unit < to.len() {
        to[a / unit]
    } else {
        a / unit
    }
}

/// One relocation after the symbols were renumbered.
proof fn lemma_reloc_entry(
    enc: Encoding,
    data: Seq<u8>,
    stride: int,
    start: int,
    h: Seq<u32>,
    nb: int,
    o: int,
    e: int,
)
    requires
        0 <= o <= data.len(),
        0 <= e,
        stride >= 2 * word(enc.class),
        0 <= start,
        0 < nb,
        relocs_from(enc, data, stride, start, h, nb, o) is Ok,
    ensures
        ({
            let b = relocs_from(enc, data, stride, start, h, nb, o)->Ok_0;
            let f = word(enc.class);
            let q = e * stride;
            let info = word_at(enc.class, enc.endian, data, o + q + f);
            &&& b.len() == data.len() - o
            &&& 0 <= q
            &&& o + q + stride <= data.len() ==> {
                &&& b.subrange(q, q + f) == data.subrange(o + q, o + q + f)
                &&& b.subrange(q + 2 * f, q + stride) == data.subrange(
                    o + q + 2 * f,
                    o + q + stride,
                )
                &&& renumbered_info(enc.class, start, h, nb, info) == Outcome::<u64>::Ok(
                    word_at(enc.class, enc.endian, b, q + f),
                )
            }
        }),
    decreases data.len() - o,
{
    let b = relocs_from(enc, data, stride, start, h, nb, o)->Ok_0;
    let f = word(enc.class);
    let q = e * stride;
    assert(0 <= q) by (nonlinear_arith)
        requires
            q == e * stride,
            0 <= e,
            stride >= 0,
    ;
    if o + stride <= data.len() {
        let info0 = word_at(enc.class, enc.endian, data, o + f);
        let new = renumbered_info(enc.class, start, h, nb, info0)->Ok_0;
        let rest = relocs_from(enc, data, stride, start, h, nb, o + stride)->Ok_0;
        let head = data.subrange(o, o + f);
        let mid = word_bytes(enc.class, enc.endian, new);
        let tail = data.subrange(o + 2 * f, o + stride);
        lemma_widths(enc.endian);
        assert(mid.len() == f);
        assert(b == head + mid + tail + rest);
        if e == 0 {
            assert(q == 0) by (nonlinear_arith)
                requires
                    q == e * stride,
                    e == 0,
            ;
            lemma_reloc_entry(enc, data, stride, start, h, nb, o + stride, 0);
            assert(b.subrange(0, f) =~= head);
            assert(b.subrange(2 * f, stride) =~= tail);
            assert(b.subrange(f, 2 * f) =~= mid);
            lemma_info_fits(enc, start, h, nb, info0);
            match enc.class {
                crate::ir::Class::Elf64 => lemma_u64_decode(enc.endian, new, b, f),
                crate::ir::Class::Elf32 => lemma_u32_decode(enc.endian, new as u32, b, f),
            }
        } else {
            lemma_reloc_entry(enc, data, stride, start, h, nb, o + stride, e - 1);
            let p = (e - 1) * stride;
            assert(q == p + stride) by (nonlinear_arith)
                requires
                    q == e * stride,
                    p == (e - 1) * stride,
            ;
            if o + q + stride <= data.len() {
                assert(b.subrange(q, q + f) =~= rest.subrange(p, p + f));
                assert(b.subrange(q + 2 * f, q + stride) =~= rest.subrange(p + 2 * f, p + stride));
                assert(b.subrange(q + f, q + 2 * f) =~= rest.subrange(p + f, p + 2 * f));
                lemma_word_same(enc, b, q + f, rest, p + f);
            }
        }
    } else {
        assert(q >= stride || e == 0) by (nonlinear_arith)
            requires
                q == e * stride,
                0 <= e,
                stride >= 0,
        ;
    }
}

/// A word is what its bytes are.
proof fn lemma_word_same(enc: Encoding, a: Seq<u8>, p: int, b: Seq<u8>, q: int)
    requires
        0 <= p,
        0 <= q,
        p + word(enc.class) <= a.len(),
        q + word(enc.class) <= b.len(),
        a.subrange(p, p + word(enc.class)) == b.subrange(q, q + word(enc.class)),
    ensures
        word_at(enc.class, enc.endian, a, p) == word_at(enc.class, enc.endian, b, q),
{
    reveal(u32_at);
    reveal(crate::bytes::u64_at);
    let x = a.subrange(p, p + word(enc.class));
    let y = b.subrange(q, q + word(enc.class));
    assert(x[0] == a[p] && x[1] == a[p + 1] && x[2] == a[p + 2] && x[3] == a[p + 3]);
    assert(y[0] == b[q] && y[1] == b[q + 1] && y[2] == b[q + 2] && y[3] == b[q + 3]);
    if enc.class is Elf64 {
        assert(x[4] == a[p + 4] && x[5] == a[p + 5] && x[6] == a[p + 6] && x[7] == a[p + 7]);
        assert(y[4] == b[q + 4] && y[5] == b[q + 5] && y[6] == b[q + 6] && y[7] == b[q + 7]);
    }
}

/// The information of a relocation fits in its field, and holds its parts.
proof fn lemma_info_fits(enc: Encoding, start: int, h: Seq<u32>, nb: int, info: u64)
    requires
        0 <= start,
        0 < nb,
    ensures
        renumbered_info(enc.class, start, h, nb, info) matches Ok(new) ==> {
            let unit = info_unit(enc.class);
            let index = info as int / unit;
            &&& 0 <= index < start + h.len()
            &&& new as int % unit == info as int % unit
            &&& new as int / unit == renumbered(start, h, nb, index)
            &&& enc.class is Elf32 ==> new <= u32::MAX
        },
{
    let unit = info_unit(enc.class);
    let index = info as int / unit;
    if let Ok(new) = renumbered_info(enc.class, start, h, nb, info) {
        let k = renumbered(start, h, nb, index);
        vstd::arithmetic::div_mod::lemma_mod_bound(info as int, unit);
        vstd::arithmetic::div_mod::lemma_div_pos_is_pos(info as int, unit);
        if index >= start {
            crate::buckets::lemma_rank(h, nb, index - start);
        }
        let r = info as int % unit;
        let x = r + k * unit;
        assert(0 <= k * unit <= max_reloc_index(enc.class) * unit) by (nonlinear_arith)
            requires
                0 <= k <= max_reloc_index(enc.class),
                unit > 0,
        ;
        assert(x <= u64::MAX);
        vstd::arithmetic::div_mod::lemma_fundamental_div_mod_converse(x, unit, k, r);
    }
}

/// What becomes of each section when relocations are renumbered.
proof fn lemma_relocs_each(v: ImageView, start: int, h: Seq<u32>, nb: int, n: int, i: int)
    requires
        0 <= i < n <= v.sections.len(),
        relocs_renumbered(v, start, h, nb, n) is Ok,
    ensures
        relocs_renumbered(v, start, h, nb, n)->Ok_0.len() == n,
        match reloc_len(v.enc.class, v.shdrs[i].sh_type) {
            None => relocs_renumbered(v, start, h, nb, n)->Ok_0[i] == v.sections[i],
            Some(stride) => relocs_from(v.enc, v.sections[i], stride, start, h, nb, 0)
                == Outcome::<Seq<u8>>::Ok(relocs_renumbered(v, start, h, nb, n)->Ok_0[i]),
        },
    decreases n,
{
    if n - 1 > i {
        lemma_relocs_each(v, start, h, nb, n - 1, i);
    } else {
        lemma_relocs_len(v, start, h, nb, n - 1);
    }
}

proof fn lemma_relocs_len(v: ImageView, start: int, h: Seq<u32>, nb: int, n: int)
    requires
        0 <= n <= v.sections.len(),
        relocs_renumbered(v, start, h, nb, n) is Ok,
    ensures
        relocs_renumbered(v, start, h, nb, n)->Ok_0.len() == n,
    decreases n,
{
    if n > 0 {
        lemma_relocs_len(v, start, h, nb, n - 1);
    }
}

/// Renaming leaves the records of the symbols, but for the name.
proof fn lemma_renamed_rest(
    v: ImageView,
    dynsym: Seq<u8>,
    dynstr: Seq<u8>,
    map: Seq<(Seq<char>, Seq<char>)>,
    n: int,
    j: int,
)
    requires
        0 <= n <= sym_count(v.enc.class, dynsym),
        0 <= j < sym_count(v.enc.class, dynsym),
        renamed(v, dynsym, dynstr, map, n) is Ok,
    ensures
        ({
            let syms = renamed(v, dynsym, dynstr, map, n)->Ok_0.0;
            let size = sym_len(v.enc.class);
            &&& syms.len() == dynsym.len()
            &&& syms.subrange(j * size + 4, (j + 1) * size) == dynsym.subrange(
                j * size + 4,
                (j + 1) * size,
            )
        }),
    decreases n,
{
    let size = sym_len(v.enc.class);
    lemma_record(dynsym.len() as int, size, j);
    if n > 0 {
        lemma_renamed_rest(v, dynsym, dynstr, map, n - 1, j);
        let (syms, strs) = renamed(v, dynsym, dynstr, map, n - 1)->Ok_0;
        if renames(v, dynsym, dynstr, map, n - 1) is Some {
            let b = u32_bytes(v.enc.endian, strs.len() as u32);
            lemma_widths(v.enc.endian);
            let after = splice(syms, (n - 1) * size, b);
            lemma_record(dynsym.len() as int, size, n - 1);
            let count = sym_count(v.enc.class, dynsym);
            if j < n - 1 {
                assert((j + 1) * size <= (n - 1) * size) by (nonlinear_arith)
                    requires
                        j + 1 <= n - 1,
                        0 <= size,
                ;
            } else if n - 1 < j {
                lemma_fields_apart(count, size, n - 1, j);
            }
            assert(after.subrange(j * size + 4, (j + 1) * size) =~= syms.subrange(
                j * size + 4,
                (j + 1) * size,
            ));
        }
    }
}

/// Where a symbol goes.
pub open spec fn place(reorder: Option<Reorder>, j: int) -> int {
    match reorder {
        None => j,
        Some(r) => renumbered(r.start, r.hashes, r.num_buckets, j),
    }
}

/// Whether a symbol's new name is what the map says of the old one: that of the last pair
/// for it, else the same.
pub open spec fn name_by_map(
    map: Seq<(Seq<char>, Seq<char>)>,
    before: Seq<u8>,
    after: Seq<u8>,
) -> bool {
    ||| (exists|m: int|
        0 <= m < map.len() && encode_utf8((#[trigger] map[m]).0) == before && after == encode_utf8(
            map[m].1,
        ) && forall|k: int| m < k < map.len() ==> encode_utf8((#[trigger] map[k]).0) != before)
    ||| (after == before && forall|m: int|
        0 <= m < map.len() ==> encode_utf8((#[trigger] map[m]).0) != before)
}

proof fn lemma_name_by_map(map: Seq<(Seq<char>, Seq<char>)>, before: Seq<u8>, n: int)
    requires
        0 <= n <= map.len(),
        forall|k: int| n <= k < map.len() ==> encode_utf8((#[trigger] map[k]).0) != before,
    ensures
        ({
            let after = match utf8_text(before) {
                Some(name) => match new_name(map, name, n) {
                    Some(t) => encode_utf8(t),
                    None => before,
                },
                None => before,
            };
            name_by_map(map, before, after)
        }),
    decreases n,
{
    match utf8_text(before) {
        Some(name) => {
            lemma_utf8_text(before, name);
            if n > 0 {
                if map[n - 1].0 == name {
                    assert(encode_utf8(map[n - 1].0) == before);
                } else {
                    lemma_utf8_text(before, map[n - 1].0);
                    lemma_name_by_map(map, before, n - 1);
                }
            }
        },
        None => {
            assert forall|m: int| 0 <= m < map.len() implies encode_utf8((#[trigger] map[m]).0)
                != before by {
                lemma_utf8_text(before, map[m].0);
            }
        },
    }
}

/// What the order of the symbols does to each section.
pub proof fn lemma_regrouped(v: ImageView, y: int, hashes: Seq<u32>)
    requires
        tables_named(v),
        v.find_section(".dynsym"@) == Some(y),
        hashes.len() == sym_count(v.enc.class, v.sections[y]),
    ensures
        gnu_rebuilt(v, y, hashes) matches Ok((w, reorder)) ==> {
            let n = hashes.len() as int;
            &&& same_names(v, w)
            &&& reorder matches Some(r) ==> 0 <= r.start && r.start + r.hashes.len() == n
                && r.num_buckets > 0
            &&& reorder is None ==> w == v
            &&& v.find_section(".gnu.hash"@) matches Some(t) ==> {
                let g = gnu_header(v.enc.endian, v.sections[t]);
                &&& v.sections[t].len() >= 16 && g.num_buckets > 0 && g.table_off(v.enc.class)
                    <= v.sections[t].len() ==> reorder is Some && gnu_wf(
                    v.enc.class,
                    v.sections[t],
                    g,
                    n,
                )
                &&& reorder matches Some(r) ==> r.start == g.symndx && r.num_buckets
                    == g.num_buckets && r.hashes == hashes.skip(g.symndx as int) && w.sections[t]
                    == refilled(v.enc, v.sections[t], r.hashes, g)
            }
            &&& reorder matches Some(r) ==> {
                &&& w.sections[y] == grouped(
                    v.sections[y],
                    r.start,
                    sym_len(v.enc.class),
                    r.hashes,
                    r.num_buckets,
                )
                &&& v.find_section(".gnu.version"@) matches Some(k) ==> v.sections[k].len() >= n * 2
                    && w.sections[k] == grouped(
                    v.sections[k],
                    r.start,
                    2,
                    r.hashes,
                    r.num_buckets,
                )
                &&& forall|i: int|
                    0 <= i < v.sections.len() && i != y && v.find_section(".gnu.version"@) != Some(
                        i,
                    ) && v.find_section(".gnu.hash"@) != Some(i) ==> match reloc_len(
                        v.enc.class,
                        v.shdrs[i].sh_type,
                    ) {
                        None => #[trigger] w.sections[i] == v.sections[i],
                        Some(stride) => relocs_from(
                            v.enc,
                            v.sections[i],
                            stride,
                            r.start,
                            r.hashes,
                            r.num_buckets,
                            0,
                        ) == Outcome::<Seq<u8>>::Ok(w.sections[i]),
                    }
            }
        },
{
    lemma_names_differ();
    lemma_apart(v, ".dynsym"@, ".gnu.version"@);
    lemma_apart(v, ".dynsym"@, ".gnu.hash"@);
    lemma_apart(v, ".gnu.version"@, ".gnu.hash"@);
    reveal(gnu_regrouped);
    if let Ok((w, reorder)) = gnu_rebuilt(v, y, hashes) {
        assert(reorder is None ==> w == v);
        if let Some(r) = reorder {
            let t = v.find_section(".gnu.hash"@)->Some_0;
            let g = gnu_header(v.enc.endian, v.sections[t]);
            let h = hashes.skip(g.symndx as int);
            let start = g.symndx as int;
            let nb = g.num_buckets as int;
            let v1 = ImageView {
                sections: v.sections.update(
                    y,
                    grouped(v.sections[y], start, sym_len(v.enc.class), h, nb),
                ),
                ..v
            };
            assert(same_names(v, v1));
            lemma_same_names(v, v1);
            let v2 = versions_grouped(v1, start, h, nb)->Ok_0;
            assert(same_names(v, v2));
            let n = v2.sections.len() as int;
            assert forall|i: int| 0 <= i < n implies match reloc_len(
                v.enc.class,
                v.shdrs[i].sh_type,
            ) {
                None => relocs_renumbered(v2, start, h, nb, n)->Ok_0[i] == v2.sections[i],
                Some(stride) => relocs_from(v.enc, v2.sections[i], stride, start, h, nb, 0)
                    == Outcome::<Seq<u8>>::Ok(#[trigger] relocs_renumbered(v2, start, h, nb, n)->Ok_0[i]),
            } && relocs_renumbered(v2, start, h, nb, n)->Ok_0.len() == n by {
                lemma_relocs_each(v2, start, h, nb, n, i);
            }
            lemma_relocs_len(v2, start, h, nb, n);
            let done = relocs_renumbered(v2, start, h, nb, n)->Ok_0;
            if v.ehdr.shstrndx < v.sections.len() {
                let s = v.ehdr.shstrndx as int;
                assert(done[s] == v2.sections[s]);
            }
            assert(done[y] == v2.sections[y]);
            if let Some(k) = v.find_section(".gnu.version"@) {
                assert(done[k] == v2.sections[k]);
            }
            assert forall|i: int|
                0 <= i < v.sections.len() && i != y && v.find_section(".gnu.version"@) != Some(i)
                    && v.find_section(".gnu.hash"@) != Some(i) implies match reloc_len(
                v.enc.class,
                v.shdrs[i].sh_type,
            ) {
                None => #[trigger] w.sections[i] == v.sections[i],
                Some(stride) => relocs_from(
                    v.enc,
                    v.sections[i],
                    stride,
                    r.start,
                    r.hashes,
                    r.num_buckets,
                    0,
                ) == Outcome::<Seq<u8>>::Ok(w.sections[i]),
            } by {
                assert(w.sections[i] == done[i]);
                assert(v2.sections[i] == v.sections[i]);
            }
            assert(done[t] == v2.sections[t]);
            assert(same_names(v, w));
            assert(r.start == start && r.hashes == h && r.num_buckets == nb);
            assert(w.sections[y] == v1.sections[y]);
        }
    }
}

/// Whether the record of symbol `j` of `v` is at the place `k` of `w`, but for its name.
pub open spec fn symbol_at(v: ImageView, w: ImageView, y: int, j: int, k: int) -> bool {
    let n: int = if v.enc.class is Elf64 {
        24
    } else {
        16
    };
    w.sections[y].subrange(k * n + 4, (k + 1) * n) == v.sections[y].subrange(j * n + 4, (j + 1) * n)
}

/// Renaming symbols puts them in another order, in which everything that goes by the place
/// of a symbol follows it: its record, its name, its version, and every relocation in
/// every section of relocations. No section changes but these, the strings and the hash
/// tables. Gives the new places.
pub proof fn law_rename_keeps_together(
    v: ImageView,
    map: Seq<(Seq<char>, Seq<char>)>,
) -> (to: Seq<int>)
    requires
        tables_named(v),
        symbols_renamed(v, map) is Ok,
    ensures
        ({
            let w = symbols_renamed(v, map)->Ok_0;
            let y = v.find_section(".dynsym"@)->Some_0;
            let s = v.find_section(".dynstr"@)->Some_0;
            let n = v.sections[y].len() as int / (if v.enc.class is Elf64 {
                24int
            } else {
                16
            });
            &&& w == (ImageView { sections: w.sections, ..v })
            &&& w.sections.len() == v.sections.len()
            &&& to.len() == n
            &&& forall|j: int| 0 <= j < n ==> 0 <= #[trigger] to[j] < n
            &&& forall|i: int, j: int| 0 <= i < j < n ==> #[trigger] to[i] != #[trigger] to[j]
            &&& w.sections[y].len() == v.sections[y].len()
            &&& forall|j: int| 0 <= j < n ==> symbol_at(v, w, y, j, #[trigger] to[j])
            &&& terminated(v.sections[s]) && (forall|m: int|
                0 <= m < map.len() ==> storable((#[trigger] map[m]).1)) ==> forall|j: int|
                0 <= j < n && sym_name_offset(v, v.sections[y], j) < v.sections[s].len()
                    ==> name_by_map(
                    map,
                    sym_bytes(v, v.sections[y], v.sections[s], j),
                    sym_bytes(v, w.sections[y], w.sections[s], #[trigger] to[j]),
                )
            &&& v.find_section(".gnu.version"@) matches Some(k) ==> v.sections[k].len() >= 2 * n
                ==> w.sections[k].len() == v.sections[k].len() && forall|j: int|
                0 <= j < n ==> w.sections[k].subrange(2 * #[trigger] to[j], 2 * to[j] + 2)
                    == v.sections[k].subrange(2 * j, 2 * j + 2)
            &&& forall|i: int, e: int|
                0 <= i < v.sections.len() && (v.shdrs[i].sh_type == 4 || v.shdrs[i].sh_type == 9)
                    && 0 <= e && (e + 1) * reloc_size(v.enc.class is Elf64, v.shdrs[i].sh_type)
                    <= v.sections[i].len() ==> #[trigger] relocation_follows(v, w, to, i, e)
            &&& forall|i: int|
                0 <= i < v.sections.len() && v.shdrs[i].sh_type != 4 && v.shdrs[i].sh_type != 9 && i
                    != y && i != s && v.find_section(".gnu.version"@) != Some(i) && v.find_section(
                    ".gnu.hash"@,
                ) != Some(i) && v.find_section(".hash"@) != Some(i) ==> #[trigger] w.sections[i]
                    == v.sections[i]
        }),
{
    let w = symbols_renamed(v, map)->Ok_0;
    let y = v.find_section(".dynsym"@)->Some_0;
    let s = v.find_section(".dynstr"@)->Some_0;
    let n = sym_count(v.enc.class, v.sections[y]);
    lemma_names_differ();
    lemma_apart(v, ".dynsym"@, ".dynstr"@);
    lemma_apart(v, ".dynsym"@, ".hash"@);
    lemma_apart(v, ".dynsym"@, ".gnu.version"@);
    lemma_apart(v, ".dynstr"@, ".hash"@);
    lemma_apart(v, ".dynstr"@, ".gnu.version"@);
    lemma_apart(v, ".dynstr"@, ".gnu.hash"@);
    lemma_apart(v, ".gnu.version"@, ".hash"@);
    vstd::arithmetic::div_mod::lemma_div_pos_is_pos(
        v.sections[y].len() as int,
        sym_len(v.enc.class),
    );
    if any_renamed(v, v.sections[y], v.sections[s], map, n) {
        let (syms, strs) = renamed(v, v.sections[y], v.sections[s], map, n)->Ok_0;
        let v1 = ImageView { sections: v.sections.update(y, syms).update(s, strs), ..v };
        assert(same_names(v, v1));
        lemma_same_names(v, v1);
        lemma_symbols_len(v, v.sections[y], v.sections[s], map, n);
        assert(v1.sections[y] == syms);
        assert(tables_named(v1));
        let hashes = all_hashes(v1, syms, strs, gnu_fn());
        let (v2, reorder) = gnu_rebuilt(v1, y, hashes)->Ok_0;
        lemma_regrouped(v1, y, hashes);
        lemma_same_names(v1, v2);
        let to = Seq::new(n as nat, |j: int| place(reorder, j));
        lemma_places(reorder, n);
        lemma_only_hash(v2, all_hashes(v1, syms, strs, sysv_fn()), reorder);
        assert(v2.sections[s] == v1.sections[s]);
        assert(w.sections[y] == v2.sections[y]);
        assert(w.sections[s] == v2.sections[s]);
        lemma_together_symbols(v, map, v1, v2, w, reorder);
        lemma_together_versions(v, v1, v2, w, reorder, n);
        assert forall|i: int, e: int|
            0 <= i < v.sections.len() && (v.shdrs[i].sh_type == 4 || v.shdrs[i].sh_type == 9) && 0
                <= e && (e + 1) * reloc_size(v.enc.class is Elf64, v.shdrs[i].sh_type)
                <= v.sections[i].len() implies #[trigger] relocation_follows(v, w, to, i, e) by {
            lemma_together_relocs(v, v1, v2, w, reorder, n, to, i, e);
        }
        to
    } else {
        let to = Seq::new(n as nat, |j: int| j);
        assert forall|j: int| 0 <= j < n implies name_by_map(
            map,
            sym_bytes(v, v.sections[y], v.sections[s], j),
            sym_bytes(v, w.sections[y], w.sections[s], #[trigger] to[j]),
        ) by {
            assert(renames(v, v.sections[y], v.sections[s], map, j) is None);
            lemma_name_by_map(
                map,
                sym_bytes(v, v.sections[y], v.sections[s], j),
                map.len() as int,
            );
        }
        to
    }
}

pub proof fn lemma_symbols_len(
    v: ImageView,
    dynsym: Seq<u8>,
    dynstr: Seq<u8>,
    map: Seq<(Seq<char>, Seq<char>)>,
    n: int,
)
    requires
        renamed(v, dynsym, dynstr, map, n) is Ok,
    ensures
        renamed(v, dynsym, dynstr, map, n)->Ok_0.0.len() == dynsym.len(),
    decreases n,
{
    if n > 0 {
        lemma_symbols_len(v, dynsym, dynstr, map, n - 1);
    }
}

/// The new places are places, and different ones.
pub proof fn lemma_places(reorder: Option<Reorder>, n: int)
    requires
        0 <= n,
        reorder matches Some(r) ==> 0 <= r.start && r.start + r.hashes.len() == n && r.num_buckets
            > 0,
    ensures
        forall|j: int| 0 <= j < n ==> 0 <= #[trigger] place(reorder, j) < n,
        forall|i: int, j: int|
            0 <= i < j < n ==> #[trigger] place(reorder, i) != #[trigger] place(reorder, j),
{
    if let Some(r) = reorder {
        assert forall|j: int| 0 <= j < n implies 0 <= #[trigger] place(reorder, j) < n by {
            if j >= r.start {
                crate::buckets::lemma_rank(r.hashes, r.num_buckets, j - r.start);
            }
        }
        assert forall|i: int, j: int| 0 <= i < j < n implies #[trigger] place(reorder, i)
            != #[trigger] place(reorder, j) by {
            if i >= r.start {
                crate::laws::naming::law_grouping(
                    r.hashes,
                    r.num_buckets,
                    i - r.start,
                    j - r.start,
                );
            } else if j >= r.start {
                crate::buckets::lemma_rank(r.hashes, r.num_buckets, j - r.start);
            }
        }
    }
}

/// The older hash table is rebuilt and nothing else.
pub proof fn lemma_only_hash(v: ImageView, hashes: Seq<u32>, reorder: Option<Reorder>)
    requires
        v.wf(),
    ensures
        sysv_rebuilt(v, hashes, reorder) matches Ok(w) ==> w == (ImageView {
            sections: w.sections,
            ..v
        }) && w.sections.len() == v.sections.len() && forall|i: int|
            0 <= i < v.sections.len() && v.find_section(".hash"@) != Some(i)
                ==> #[trigger] w.sections[i] == v.sections[i],
{
    lemma_section_from(v, ".hash"@, 0);
}

/// The symbols and their names.
pub proof fn lemma_together_symbols(
    v: ImageView,
    map: Seq<(Seq<char>, Seq<char>)>,
    v1: ImageView,
    v2: ImageView,
    w: ImageView,
    reorder: Option<Reorder>,
)
    requires
        tables_named(v),
        v.find_section(".dynsym"@) is Some,
        v.find_section(".dynstr"@) is Some,
        ({
            let y = v.find_section(".dynsym"@)->Some_0;
            let s = v.find_section(".dynstr"@)->Some_0;
            let n = sym_count(v.enc.class, v.sections[y]);
            let all = renamed(v, v.sections[y], v.sections[s], map, n);
            &&& all is Ok
            &&& v1.sections == v.sections.update(y, all->Ok_0.0).update(s, all->Ok_0.1)
            &&& v1 == (ImageView { sections: v1.sections, ..v })
            &&& reorder is None ==> v2 == v1
            &&& reorder matches Some(r) ==> 0 <= r.start && r.start + r.hashes.len() == n
                && r.num_buckets > 0 && v2.sections[y] == grouped(
                v1.sections[y],
                r.start,
                sym_len(v.enc.class),
                r.hashes,
                r.num_buckets,
            ) && v2.sections[s] == v1.sections[s]
            &&& w.sections[y] == v2.sections[y]
            &&& w.sections[s] == v2.sections[s]
        }),
    ensures
        ({
            let y = v.find_section(".dynsym"@)->Some_0;
            let s = v.find_section(".dynstr"@)->Some_0;
            let n = sym_count(v.enc.class, v.sections[y]);
            &&& w.sections[y].len() == v.sections[y].len()
            &&& forall|j: int| 0 <= j < n ==> symbol_at(v, w, y, j, #[trigger] place(reorder, j))
            &&& forall|j: int|
                0 <= j < n ==> sym_bytes(
                    v,
                    w.sections[y],
                    w.sections[s],
                    #[trigger] place(reorder, j),
                ) == sym_bytes(v, v1.sections[y], v1.sections[s], j)
            &&& terminated(v.sections[s]) && (forall|m: int|
                0 <= m < map.len() ==> storable((#[trigger] map[m]).1)) ==> forall|j: int|
                0 <= j < n && sym_name_offset(v, v.sections[y], j) < v.sections[s].len()
                    ==> name_by_map(
                    map,
                    sym_bytes(v, v.sections[y], v.sections[s], j),
                    sym_bytes(v, w.sections[y], w.sections[s], #[trigger] place(reorder, j)),
                )
        }),
{
    let y = v.find_section(".dynsym"@)->Some_0;
    let s = v.find_section(".dynstr"@)->Some_0;
    let size = sym_len(v.enc.class);
    let n = sym_count(v.enc.class, v.sections[y]);
    let (syms, strs) = renamed(v, v.sections[y], v.sections[s], map, n)->Ok_0;
    lemma_names_differ();
    lemma_apart(v, ".dynsym"@, ".dynstr"@);
    lemma_symbols_len(v, v.sections[y], v.sections[s], map, n);
    if let Some(r) = reorder {
        lemma_count(syms.len() as int, size, n);
        crate::symbols::lemma_grouped_len(syms, r.start, size, r.hashes, r.num_buckets);
    }
    assert forall|j: int| 0 <= j < n implies #[trigger] w.sections[y].subrange(
        place(reorder, j) * size,
        (place(reorder, j) + 1) * size,
    ) == syms.subrange(j * size, (j + 1) * size) by {
        if let Some(r) = reorder {
            lemma_count(syms.len() as int, size, n);
            law_records_follow(syms, r.start, size, r.hashes, r.num_buckets, j);
        }
    }
    lemma_places(reorder, n);
    assert forall|j: int| 0 <= j < n implies symbol_at(v, w, y, j, #[trigger] place(reorder, j)) by {
        let k = place(reorder, j);
        lemma_renamed_rest(v, v.sections[y], v.sections[s], map, n, j);
        lemma_record(syms.len() as int, size, j);
        lemma_record(syms.len() as int, size, k);
        let a = w.sections[y].subrange(k * size, (k + 1) * size);
        let b = syms.subrange(j * size, (j + 1) * size);
        assert(a == b);
        assert(w.sections[y].subrange(k * size + 4, (k + 1) * size) =~= a.subrange(4, size));
        assert(syms.subrange(j * size + 4, (j + 1) * size) =~= b.subrange(4, size));
    }
    assert forall|j: int| 0 <= j < n implies sym_bytes(
        v,
        w.sections[y],
        w.sections[s],
        #[trigger] place(reorder, j),
    ) == sym_bytes(v, syms, strs, j) by {
        let k = place(reorder, j);
        lemma_record(syms.len() as int, size, j);
        lemma_record(syms.len() as int, size, k);
        let a = w.sections[y].subrange(k * size, (k + 1) * size);
        let b = syms.subrange(j * size, (j + 1) * size);
        assert(a == b);
        reveal(u32_at);
        assert(a[0] == w.sections[y][k * size] && a[1] == w.sections[y][k * size + 1] && a[2]
            == w.sections[y][k * size + 2] && a[3] == w.sections[y][k * size + 3]);
        assert(b[0] == syms[j * size] && b[1] == syms[j * size + 1] && b[2] == syms[j * size + 2]
            && b[3] == syms[j * size + 3]);
        assert(sym_name_offset(v, w.sections[y], k) == sym_name_offset(v, syms, j));
    }
    if terminated(v.sections[s]) && (forall|m: int|
        0 <= m < map.len() ==> storable((#[trigger] map[m]).1)) {
        assert forall|j: int|
            0 <= j < n && sym_name_offset(v, v.sections[y], j)
                < v.sections[s].len() implies name_by_map(
            map,
            sym_bytes(v, v.sections[y], v.sections[s], j),
            sym_bytes(v, w.sections[y], w.sections[s], #[trigger] place(reorder, j)),
        ) by {
            lemma_renamed_names(v, v.sections[y], v.sections[s], map, n, j);
            lemma_name_by_map(
                map,
                sym_bytes(v, v.sections[y], v.sections[s], j),
                map.len() as int,
            );
        }
    }
}

/// As many records as fit take no more than there is.
proof fn lemma_count(len: int, size: int, n: int)
    requires
        0 < size,
        0 <= len,
        n == len / size,
    ensures
        n * size <= len,
{
    vstd::arithmetic::div_mod::lemma_fundamental_div_mod(len, size);
    vstd::arithmetic::div_mod::lemma_mod_bound(len, size);
    assert(n * size == size * (len / size)) by (nonlinear_arith)
        requires
            n == len / size,
    ;
}

/// The versions.
proof fn lemma_together_versions(
    v: ImageView,
    v1: ImageView,
    v2: ImageView,
    w: ImageView,
    reorder: Option<Reorder>,
    n: int,
)
    requires
        0 <= n,
        v.find_section(".gnu.version"@) matches Some(k) ==> {
            &&& v1.sections[k] == v.sections[k]
            &&& w.sections[k] == v2.sections[k]
            &&& reorder is None ==> v2 == v1
            &&& reorder matches Some(r) ==> 0 <= r.start && r.start + r.hashes.len() == n
                && r.num_buckets > 0 && v2.sections[k] == grouped(
                v1.sections[k],
                r.start,
                2,
                r.hashes,
                r.num_buckets,
            )
        },
    ensures
        v.find_section(".gnu.version"@) matches Some(k) ==> v.sections[k].len() >= 2 * n
            ==> w.sections[k].len() == v.sections[k].len() && forall|j: int|
            0 <= j < n ==> w.sections[k].subrange(
                2 * #[trigger] place(reorder, j),
                2 * place(reorder, j) + 2,
            ) == v.sections[k].subrange(2 * j, 2 * j + 2),
{
    if let Some(k) = v.find_section(".gnu.version"@) {
        if v.sections[k].len() >= 2 * n {
            let data = v.sections[k];
            if let Some(r) = reorder {
                crate::symbols::lemma_grouped_len(data, r.start, 2, r.hashes, r.num_buckets);
                assert forall|j: int| 0 <= j < n implies w.sections[k].subrange(
                    2 * #[trigger] place(reorder, j),
                    2 * place(reorder, j) + 2,
                ) == data.subrange(2 * j, 2 * j + 2) by {
                    law_records_follow(data, r.start, 2, r.hashes, r.num_buckets, j);
                }
            }
        }
    }
}

/// One relocation.
proof fn lemma_together_relocs(
    v: ImageView,
    v1: ImageView,
    v2: ImageView,
    w: ImageView,
    reorder: Option<Reorder>,
    n: int,
    to: Seq<int>,
    i: int,
    e: int,
)
    requires
        0 <= i < v.sections.len(),
        v.shdrs[i].sh_type == 4 || v.shdrs[i].sh_type == 9,
        0 <= e,
        (e + 1) * reloc_size(v.enc.class is Elf64, v.shdrs[i].sh_type) <= v.sections[i].len(),
        v1.sections[i] == v.sections[i],
        w.sections[i] == v2.sections[i],
        0 <= n,
        to == Seq::new(n as nat, |j: int| place(reorder, j)),
        reorder is None ==> v2 == v1,
        reorder matches Some(r) ==> 0 <= r.start && r.start + r.hashes.len() == n && r.num_buckets
            > 0 && relocs_from(
            v.enc,
            v1.sections[i],
            reloc_size(v.enc.class is Elf64, v.shdrs[i].sh_type),
            r.start,
            r.hashes,
            r.num_buckets,
            0,
        ) == Outcome::<Seq<u8>>::Ok(v2.sections[i]),
    ensures
        relocation_follows(v, w, to, i, e),
{
    let wide = v.enc.class is Elf64;
    let size = reloc_size(wide, v.shdrs[i].sh_type);
    let f = reloc_word(wide);
    let unit = symbol_unit(wide);
    let data = v.sections[i];
    assert((e + 1) * size == e * size + size) by (nonlinear_arith);
    let info = word_at(v.enc.class, v.enc.endian, data, e * size + f);
    vstd::arithmetic::div_mod::lemma_div_pos_is_pos(info as int, unit);
    if let Some(r) = reorder {
        lemma_reloc_entry(v.enc, data, size, r.start, r.hashes, r.num_buckets, 0, e);
        lemma_info_fits(v.enc, r.start, r.hashes, r.num_buckets, info);
        assert(0 + e * size == e * size);
    } else if info as int / unit < n {
        assert(to[info as int / unit] == info as int / unit);
    }
}

} // verus!
