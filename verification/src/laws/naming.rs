//! Renamed symbols have their new names and are found by them.
use vstd::prelude::*;
use vstd::utf8::encode_utf8;

use crate::buckets::{
    below, bucket, item_at, lemma_below, lemma_item_at, lemma_item_at_rank, lemma_rank,
    lemma_rank_order, rank,
};
use crate::bytes::{lemma_u32_decode, u32_at, u32_bytes};
use crate::ir::{lemma_str_end, lemma_str_end_is, str_end, Class, ImageView};
use crate::laws::edits::{storable, terminated};
use crate::ops::{sym_count, sym_len, sym_name_offset, with_string};
use crate::seqs::splice;
use crate::symbols::{
    bloom_bit, bloom_word, bucket_head, chain_word, grouped, grouped_records, last_place,
    lemma_record, renamed, renames, renumbered, sym_bytes, word_bits, GnuHeader,
};

verus! {

/// Whether two names do not lie in the way of each other: symbol `i` has a field
/// of its own.
pub proof fn lemma_fields_apart(n: int, size: int, i: int, j: int)
    requires
        0 <= i < j < n,
        4 <= size,
    ensures
        i * size + 4 <= j * size,
{
    assert((i + 1) * size <= j * size) by (nonlinear_arith)
        requires
            i + 1 <= j,
            4 <= size,
    ;
    assert((i + 1) * size == i * size + size) by (nonlinear_arith);
}

/// Writing one name offset changes that one and no other.
proof fn lemma_offset_written(v: ImageView, syms: Seq<u8>, i: int, off: u32, j: int)
    requires
        0 <= i < sym_count(v.enc.class, syms),
        0 <= j < sym_count(v.enc.class, syms),
    ensures
        ({
            let after = splice(
                syms,
                i * sym_len(v.enc.class),
                u32_bytes(v.enc.endian, off),
            );
            &&& after.len() == syms.len()
            &&& i == j ==> sym_name_offset(v, after, j) == off
            &&& i != j ==> sym_name_offset(v, after, j) == sym_name_offset(v, syms, j)
        }),
{
    let size = sym_len(v.enc.class);
    let e = v.enc.endian;
    let b = u32_bytes(e, off);
    crate::bytes::lemma_widths(e);
    let after = splice(syms, i * size, b);
    lemma_record(syms.len() as int, size, i);
    lemma_record(syms.len() as int, size, j);
    if i == j {
        assert(after.subrange(i * size, i * size + 4) =~= b);
        lemma_u32_decode(e, off, after, i * size);
    } else {
        if i < j {
            lemma_fields_apart(sym_count(v.enc.class, syms), size, i, j);
        } else {
            lemma_fields_apart(sym_count(v.enc.class, syms), size, j, i);
        }
        let o = j * size;
        reveal(u32_at);
        assert(after[o] == syms[o] && after[o + 1] == syms[o + 1] && after[o + 2] == syms[o + 2]
            && after[o + 3] == syms[o + 3]);
    }
}

/// A name in a terminated string table stays when more strings follow.
proof fn lemma_name_grows(tab: Seq<u8>, more: Seq<u8>, off: int)
    requires
        terminated(tab),
        0 <= off < tab.len(),
    ensures
        str_end(tab + more, off) == str_end(tab, off),
        (tab + more).subrange(off, str_end(tab, off)) == tab.subrange(off, str_end(tab, off)),
        str_end(tab, off) < tab.len(),
{
    lemma_str_end(tab, off);
    let e = str_end(tab, off);
    if e == tab.len() {
        assert(tab[tab.len() - 1] != 0);
    }
    assert forall|j: int| off <= j < e implies #[trigger] (tab + more)[j] != 0 by {
        assert(tab[j] != 0);
    }
    assert((tab + more)[e] == tab[e]);
    lemma_str_end_is(tab + more, off, e);
    assert((tab + more).subrange(off, e) =~= tab.subrange(off, e));
}

/// What the first `n` renames leave: a terminated string table that only grew, and
/// symbols whose names are in it.
pub proof fn lemma_renamed_names(
    v: ImageView,
    dynsym: Seq<u8>,
    dynstr: Seq<u8>,
    map: Seq<(Seq<char>, Seq<char>)>,
    n: int,
    j: int,
)
    requires
        0 <= n <= sym_count(v.enc.class, dynsym),
        0 <= j < sym_count(v.enc.class, dynsym),
        terminated(dynstr),
        sym_name_offset(v, dynsym, j) < dynstr.len(),
        forall|i: int| 0 <= i < map.len() ==> storable((#[trigger] map[i]).1),
        renamed(v, dynsym, dynstr, map, n) is Ok,
    ensures
        ({
            let (syms, strs) = renamed(v, dynsym, dynstr, map, n)->Ok_0;
            &&& syms.len() == dynsym.len()
            &&& terminated(strs)
            &&& sym_name_offset(v, syms, j) < strs.len()
            &&& sym_bytes(v, syms, strs, j) == if j < n && renames(
                v,
                dynsym,
                dynstr,
                map,
                j,
            ) is Some {
                encode_utf8(renames(v, dynsym, dynstr, map, j)->Some_0)
            } else {
                sym_bytes(v, dynsym, dynstr, j)
            }
        }),
    decreases n,
{
    if n > 0 {
        lemma_renamed_names(v, dynsym, dynstr, map, n - 1, j);
        let (syms, strs) = renamed(v, dynsym, dynstr, map, n - 1)->Ok_0;
        if let Some(new) = renames(v, dynsym, dynstr, map, n - 1) {
            let off = strs.len() as u32;
            lemma_offset_written(v, syms, n - 1, off, j);
            let more = encode_utf8(new) + seq![0u8];
            let all = with_string(strs, new);
            assert(all =~= strs + more);
            if j == n - 1 {
                lemma_new_name_storable(map, v, dynsym, dynstr, j);
                let e = (strs.len() + encode_utf8(new).len()) as int;
                assert forall|i: int| strs.len() <= i < e implies #[trigger] all[i] != 0 by {
                    assert(all[i] == encode_utf8(new)[i - strs.len()]);
                }
                lemma_str_end_is(all, strs.len() as int, e);
                assert(all.subrange(strs.len() as int, e) =~= encode_utf8(new));
            } else {
                lemma_name_grows(strs, more, sym_name_offset(v, syms, j) as int);
            }
        }
    }
}

proof fn lemma_new_name_storable(
    map: Seq<(Seq<char>, Seq<char>)>,
    v: ImageView,
    dynsym: Seq<u8>,
    dynstr: Seq<u8>,
    j: int,
)
    requires
        forall|i: int| 0 <= i < map.len() ==> storable((#[trigger] map[i]).1),
    ensures
        renames(v, dynsym, dynstr, map, j) matches Some(new) ==> storable(new),
{
    if let Some(t) = crate::text::utf8_text(sym_bytes(v, dynsym, dynstr, j)) {
        lemma_new_name(map, t, map.len() as int);
    }
}

proof fn lemma_new_name(map: Seq<(Seq<char>, Seq<char>)>, name: Seq<char>, n: int)
    requires
        0 <= n <= map.len(),
        forall|i: int| 0 <= i < map.len() ==> storable((#[trigger] map[i]).1),
    ensures
        crate::symbols::new_name(map, name, n) matches Some(t) ==> storable(t),
    decreases n,
{
    if n > 0 {
        lemma_new_name(map, name, n - 1);
        assert(storable(map[n - 1].1));
    }
}

/// A symbol that is renamed has its new name, and any other the one that it had.
pub proof fn law_renamed(
    v: ImageView,
    dynsym: Seq<u8>,
    dynstr: Seq<u8>,
    map: Seq<(Seq<char>, Seq<char>)>,
    j: int,
)
    requires
        0 <= j < sym_count(v.enc.class, dynsym),
        terminated(dynstr),
        sym_name_offset(v, dynsym, j) < dynstr.len(),
        forall|i: int| 0 <= i < map.len() ==> storable((#[trigger] map[i]).1),
    ensures
        renamed(v, dynsym, dynstr, map, sym_count(v.enc.class, dynsym)) matches Ok((syms, strs))
            ==> sym_bytes(v, syms, strs, j) == match renames(v, dynsym, dynstr, map, j) {
            Some(new) => encode_utf8(new),
            None => sym_bytes(v, dynsym, dynstr, j),
        },
{
    if renamed(v, dynsym, dynstr, map, sym_count(v.enc.class, dynsym)) is Ok {
        lemma_renamed_names(v, dynsym, dynstr, map, sym_count(v.enc.class, dynsym), j);
    }
}

/// Grouping by bucket is a permutation that keeps the order within a bucket and
/// puts earlier buckets first.
pub proof fn law_grouping(h: Seq<u32>, nb: int, p: int, q: int)
    requires
        0 < nb,
        0 <= p < h.len(),
        0 <= q < h.len(),
    ensures
        0 <= rank(h, nb, p) < h.len(),
        item_at(h, nb, rank(h, nb, p)) == p,
        rank(h, nb, item_at(h, nb, q)) == q,
        p != q ==> rank(h, nb, p) != rank(h, nb, q),
        bucket(h, nb, p) < bucket(h, nb, q) ==> rank(h, nb, p) < rank(h, nb, q),
        bucket(h, nb, p) == bucket(h, nb, q) && p < q ==> rank(h, nb, p) < rank(h, nb, q),
{
    lemma_rank(h, nb, p);
    lemma_item_at_rank(h, nb, p);
    lemma_item_at_rank(h, nb, q);
    lemma_item_at(h, nb, q);
    if bucket(h, nb, p) < bucket(h, nb, q) || bucket(h, nb, p) == bucket(h, nb, q) && p < q {
        lemma_rank_order(h, nb, p, q);
    }
}

/// Where the record of a table goes.
proof fn lemma_grouped_record(
    data: Seq<u8>,
    start: int,
    stride: int,
    h: Seq<u32>,
    nb: int,
    n: int,
    k: int,
)
    requires
        0 <= start,
        0 < stride,
        0 < nb,
        0 <= k < n <= h.len(),
        (start + h.len()) * stride <= data.len(),
    ensures
        grouped_records(data, start, stride, h, nb, n).len() == n * stride,
        grouped_records(data, start, stride, h, nb, n).subrange(k * stride, (k + 1) * stride)
            == data.subrange(
            (start + item_at(h, nb, k)) * stride,
            (start + item_at(h, nb, k) + 1) * stride,
        ),
    decreases n,
{
    crate::symbols::lemma_grouped_records_len(data, start, stride, h, nb, n);
    crate::symbols::lemma_grouped_records_len(data, start, stride, h, nb, n - 1);
    let before = grouped_records(data, start, stride, h, nb, n - 1);
    let all = grouped_records(data, start, stride, h, nb, n);
    assert(0 <= k * stride && (k + 1) * stride == k * stride + stride) by (nonlinear_arith)
        requires
            0 <= k,
            0 < stride,
    ;
    if k < n - 1 {
        lemma_grouped_record(data, start, stride, h, nb, n - 1, k);
        assert((k + 1) * stride <= (n - 1) * stride) by (nonlinear_arith)
            requires
                k + 1 <= n - 1,
                0 < stride,
        ;
        assert(all.subrange(k * stride, (k + 1) * stride) =~= before.subrange(
            k * stride,
            (k + 1) * stride,
        ));
    } else {
        let p = start + item_at(h, nb, n - 1);
        lemma_item_at(h, nb, n - 1);
        assert((p + 1) * stride <= (start + h.len()) * stride) by (nonlinear_arith)
            requires
                p + 1 <= start + h.len(),
                0 < stride,
        ;
        assert(0 <= p * stride && (p + 1) * stride == p * stride + stride) by (nonlinear_arith)
            requires
                0 <= p,
                0 < stride,
        ;
        assert(all.subrange(k * stride, (k + 1) * stride) =~= data.subrange(
            p * stride,
            (p + 1) * stride,
        ));
    }
}

/// After symbols are put in another order, the record at a symbol's new index is
/// the one that was at its old index: symbols, their versions and the relocations
/// that refer to them stay together.
pub proof fn law_records_follow(
    data: Seq<u8>,
    start: int,
    stride: int,
    h: Seq<u32>,
    nb: int,
    index: int,
)
    requires
        0 <= start,
        0 < stride,
        0 < nb,
        0 <= index < start + h.len(),
        (start + h.len()) * stride <= data.len(),
    ensures
        0 <= renumbered(start, h, nb, index) < start + h.len(),
        grouped(data, start, stride, h, nb).len() == data.len(),
        grouped(data, start, stride, h, nb).subrange(
            renumbered(start, h, nb, index) * stride,
            (renumbered(start, h, nb, index) + 1) * stride,
        ) == data.subrange(index * stride, (index + 1) * stride),
{
    crate::symbols::lemma_grouped_len(data, start, stride, h, nb);
    crate::symbols::lemma_grouped_records_len(data, start, stride, h, nb, h.len() as int);
    let all = grouped(data, start, stride, h, nb);
    let mid = grouped_records(data, start, stride, h, nb, h.len() as int);
    let new = renumbered(start, h, nb, index);
    assert(0 <= start * stride) by (nonlinear_arith)
        requires
            0 <= start,
            0 < stride,
    ;
    assert(start * stride + h.len() * stride == (start + h.len()) * stride) by (nonlinear_arith);
    assert(0 <= h.len() * stride) by (nonlinear_arith)
        requires
            0 < stride,
    ;
    assert(0 <= index * stride && (index + 1) * stride == index * stride + stride)
        by (nonlinear_arith)
        requires
            0 <= index,
            0 < stride,
    ;
    if index < start {
        assert((index + 1) * stride <= start * stride) by (nonlinear_arith)
            requires
                index + 1 <= start,
                0 < stride,
        ;
        assert(all.subrange(index * stride, (index + 1) * stride) =~= data.subrange(
            index * stride,
            (index + 1) * stride,
        ));
    } else {
        let k = rank(h, nb, index - start);
        lemma_rank(h, nb, index - start);
        lemma_item_at_rank(h, nb, index - start);
        lemma_grouped_record(data, start, stride, h, nb, h.len() as int, k);
        assert(new * stride == start * stride + k * stride) by (nonlinear_arith)
            requires
                new == start + k,
        ;
        assert((new + 1) * stride == start * stride + (k + 1) * stride) by (nonlinear_arith)
            requires
                new == start + k,
        ;
        assert((k + 1) * stride <= h.len() * stride) by (nonlinear_arith)
            requires
                k + 1 <= h.len(),
                0 < stride,
        ;
        assert(0 <= k * stride && (k + 1) * stride == k * stride + stride) by (nonlinear_arith)
            requires
                0 <= k,
                0 < stride,
        ;
        assert(all.subrange(new * stride, (new + 1) * stride) =~= mid.subrange(
            k * stride,
            (k + 1) * stride,
        ));
    }
}

/// The bits of a word stay when more hashes follow.
proof fn lemma_bloom_grows(
    class: Class,
    h: Seq<u32>,
    g: GnuHeader,
    w: int,
    bit: u64,
    i: int,
    n: int,
)
    requires
        0 <= i <= n,
        bloom_word(class, h, g, w, i) & bit == bit,
    ensures
        bloom_word(class, h, g, w, n) & bit == bit,
    decreases n,
{
    if i < n {
        lemma_bloom_grows(class, h, g, w, bit, i, n - 1);
        let before = bloom_word(class, h, g, w, n - 1);
        let a = bloom_bit(class, h[n - 1]);
        let b = bloom_bit(class, h[n - 1] >> g.shift2);
        assert((before | a | b) & bit == bit) by (bit_vector)
            requires
                before & bit == bit,
        ;
    }
}

/// The bloom filter passes every symbol that is hashed: both its bits are set in
/// the word that its hash selects.
pub proof fn law_bloom_passes(class: Class, h: Seq<u32>, g: GnuHeader, p: int)
    requires
        0 <= p < h.len(),
        g.maskwords > 0,
    ensures
        ({
            let w = (h[p] / word_bits(class)) as int % g.maskwords as int;
            let word = bloom_word(class, h, g, w, h.len() as int);
            &&& word & bloom_bit(class, h[p]) == bloom_bit(class, h[p])
            &&& word & bloom_bit(class, h[p] >> g.shift2) == bloom_bit(class, h[p] >> g.shift2)
        }),
{
    let w = (h[p] / word_bits(class)) as int % g.maskwords as int;
    let before = bloom_word(class, h, g, w, p);
    let a = bloom_bit(class, h[p]);
    let b = bloom_bit(class, h[p] >> g.shift2);
    assert((before | a | b) & a == a) by (bit_vector);
    assert((before | a | b) & b == b) by (bit_vector);
    lemma_bloom_grows(class, h, g, w, a, p + 1, h.len() as int);
    lemma_bloom_grows(class, h, g, w, b, p + 1, h.len() as int);
}

/// A lookup in a GNU hash table reaches every symbol that is hashed: its bucket
/// names the first symbol of the bucket, the chain does not end before the symbol
/// is reached, and the word there is its hash.
pub proof fn law_chain_reaches(h: Seq<u32>, g: GnuHeader, p: int)
    requires
        0 <= p < h.len(),
        g.num_buckets > 0,
        g.symndx > 0,
    ensures
        ({
            let nb = g.num_buckets as int;
            let b = bucket(h, nb, p);
            let from = bucket_head(h, g, b) - g.symndx;
            &&& 0 <= from <= rank(h, nb, p)
            &&& forall|k: int|
                from <= k < rank(h, nb, p) ==> #[trigger] chain_word(h, nb, k) & 1u32 == 0
            &&& chain_word(h, nb, rank(h, nb, p)) | 1u32 == h[p] | 1u32
        }),
{
    let nb = g.num_buckets as int;
    let b = bucket(h, nb, p);
    let n = h.len() as int;
    lemma_rank(h, nb, p);
    lemma_item_at_rank(h, nb, p);
    lemma_below(h, nb, b, b + 1, n);
    let from = below(h, nb, b, n);
    assert(bucket_head(h, g, b) == g.symndx + from);
    let r = rank(h, nb, p);
    let x = h[p];
    assert((x | 1u32) | 1u32 == x | 1u32) by (bit_vector);
    assert((x & !1u32) | 1u32 == x | 1u32) by (bit_vector);
    assert forall|k: int| from <= k < r implies #[trigger] chain_word(h, nb, k) & 1u32 == 0 by {
        lemma_in_group(h, nb, b, k);
        lemma_in_group(h, nb, b, k + 1);
        let y = h[item_at(h, nb, k)];
        assert((y & !1u32) & 1u32 == 0) by (bit_vector);
    }
}

/// The items at the places of a bucket's group are in that bucket.
proof fn lemma_in_group(h: Seq<u32>, nb: int, b: int, k: int)
    requires
        0 < nb,
        0 <= b < nb,
        below(h, nb, b, h.len() as int) <= k < below(h, nb, b + 1, h.len() as int),
        below(h, nb, b + 1, h.len() as int) <= h.len(),
    ensures
        0 <= k < h.len(),
        bucket(h, nb, item_at(h, nb, k)) == b,
{
    let n = h.len() as int;
    lemma_below(h, nb, 0, b, n);
    lemma_item_at(h, nb, k);
    let p = item_at(h, nb, k);
    lemma_rank(h, nb, p);
    let c = bucket(h, nb, p);
    if c < b {
        lemma_below(h, nb, c + 1, b, n);
    } else if b < c {
        lemma_below(h, nb, b + 1, c, n);
    }
}

/// Whether a walk of a SysV bucket from before place `n` comes to place `i`: it
/// goes from one place with the bucket to the one before, and ends at zero.
pub open spec fn walk_reaches(buckets: Seq<u32>, b: int, n: int, i: int) -> bool
    decreases n,
    when 0 <= n
    via walk_decreases
{
    let k = last_place(buckets, b, n);
    k != 0 && (k == i || walk_reaches(buckets, b, k, i))
}

#[via_fn]
proof fn walk_decreases(buckets: Seq<u32>, b: int, n: int, i: int) {
    crate::symbols::lemma_last_place(buckets, b, n);
}

/// A lookup in a SysV hash table reaches every place of a bucket but the one that
/// ends all chains.
pub proof fn law_sysv_reaches(buckets: Seq<u32>, b: int, n: int, i: int)
    requires
        0 < i < n <= buckets.len(),
        buckets[i] == b,
    ensures
        walk_reaches(buckets, b, n, i),
    decreases n,
{
    let k = last_place(buckets, b, n);
    lemma_last_is(buckets, b, n, i);
    crate::symbols::lemma_last_place(buckets, b, n);
    if k != i {
        law_sysv_reaches(buckets, b, k, i);
    }
}

/// The last place with a bucket is not before any place with it.
proof fn lemma_last_is(buckets: Seq<u32>, b: int, n: int, i: int)
    requires
        0 <= i < n <= buckets.len(),
        buckets[i] == b,
    ensures
        i <= last_place(buckets, b, n) < n,
    decreases n,
{
    if buckets[n - 1] != b {
        lemma_last_is(buckets, b, n - 1, i);
    }
}

} // verus!
