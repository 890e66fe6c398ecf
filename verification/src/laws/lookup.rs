//! Renamed symbols are found through both hash tables, as a loader reads them.
use vstd::prelude::*;

use crate::buckets::{bucket, item_at, lemma_item_at, lemma_rank, rank};
use crate::bytes::{lemma_u32_decode, lemma_u64_decode, lemma_widths, u32_at, u32_bytes};
use crate::ir::{Class, Encoding, Endian, ImageView};
use crate::laws::naming::{law_bloom_passes, law_chain_reaches};
use crate::laws::renaming::{
    lemma_apart, lemma_names_differ, lemma_only_hash, lemma_regrouped, lemma_same_names,
    lemma_symbols_len, lemma_together_symbols, place, same_names, tables_named,
};
use crate::ops::sym_count;
use crate::raw::{word, word_at, word_bytes};
use crate::symbols::{
    all_hashes, any_renamed, bloom_bytes, bloom_word, bucket_bytes, bucket_head, chain_bytes,
    chain_word, gnu_fn, gnu_hash_of, gnu_header, gnu_rebuilt, last_place, lemma_last_place,
    old_index, refilled, renamed, sym_bytes, symbols_renamed, sysv_chain, sysv_fn, sysv_hash_of,
    sysv_heads, word_bits, GnuHeader,
};

verus! {

/// Whether a loader that looks a symbol with the hash `x` up in the GNU hash table `d` comes
/// to symbol `k` and takes it for one with that hash: the filter lets the hash through, the
/// bucket of the hash names a symbol not behind `k`, no chain ends before `k`, and the word
/// there is the hash but for its lowest bit.
pub open spec fn gnu_finds(enc: Encoding, d: Seq<u8>, x: u32, k: int) -> bool {
    let e = enc.endian;
    let f: int = if enc.class is Elf64 {
        8
    } else {
        4
    };
    let bits: u32 = if enc.class is Elf64 {
        64
    } else {
        32
    };
    let buckets = u32_at(e, d, 0) as int;
    let from = u32_at(e, d, 4) as int;
    let words = u32_at(e, d, 8) as int;
    let shift = u32_at(e, d, 12);
    let filter = word_at(enc.class, e, d, 16 + ((x / bits) as int % words) * f);
    let at = 16 + words * f;
    let chains = at + buckets * 4;
    let head = u32_at(e, d, at + (x as int % buckets) * 4) as int;
    &&& filter & (1u64 << ((x % bits) as u64)) != 0
    &&& filter & (1u64 << (((x >> shift) % bits) as u64)) != 0
    &&& from <= head <= k
    &&& forall|j: int|
        head <= j < k ==> #[trigger] u32_at(e, d, chains + (j - from) * 4) & 1u32 == 0
    &&& u32_at(e, d, chains + (k - from) * 4) | 1u32 == x | 1u32
}

/// A list of equal pieces with one more.
proof fn lemma_piece(a: Seq<u8>, unit: Seq<u8>, size: int, n: int, k: int)
    requires
        0 < size,
        unit.len() == size,
        0 <= k < n,
        a.len() == (n - 1) * size,
    ensures
        (a + unit).len() == n * size,
        0 <= k * size,
        (k + 1) * size == k * size + size,
        (k + 1) * size <= n * size,
        k == n - 1 ==> (a + unit).subrange(k * size, (k + 1) * size) == unit,
        k < n - 1 ==> (k + 1) * size <= a.len() && (a + unit).subrange(k * size, (k + 1) * size)
            == a.subrange(k * size, (k + 1) * size),
{
    assert(n * size == (n - 1) * size + size) by (nonlinear_arith);
    assert((k + 1) * size == k * size + size) by (nonlinear_arith);
    assert(0 <= k * size) by (nonlinear_arith)
        requires
            0 <= k,
            0 < size,
    ;
    if k < n - 1 {
        assert((k + 1) * size <= (n - 1) * size) by (nonlinear_arith)
            requires
                k + 1 <= n - 1,
                0 < size,
        ;
        assert((a + unit).subrange(k * size, (k + 1) * size) =~= a.subrange(
            k * size,
            (k + 1) * size,
        ));
    } else {
        assert((a + unit).subrange(k * size, (k + 1) * size) =~= unit);
    }
}

proof fn lemma_zero(size: int)
    ensures
        0 * size == 0,
{
}

proof fn lemma_bloom_len(enc: Encoding, h: Seq<u32>, g: GnuHeader, n: int)
    requires
        0 <= n,
    ensures
        bloom_bytes(enc, h, g, n).len() == n * word(enc.class),
    decreases n,
{
    lemma_widths(enc.endian);
    lemma_zero(word(enc.class));
    if n > 0 {
        lemma_bloom_len(enc, h, g, n - 1);
        let unit = word_bytes(
            enc.class,
            enc.endian,
            bloom_word(enc.class, h, g, n - 1, h.len() as int),
        );
        lemma_piece(bloom_bytes(enc, h, g, n - 1), unit, word(enc.class), n, n - 1);
    }
}

proof fn lemma_bloom_at(enc: Encoding, h: Seq<u32>, g: GnuHeader, n: int, k: int)
    requires
        0 <= k < n,
    ensures
        bloom_bytes(enc, h, g, n).len() == n * word(enc.class),
        0 <= k * word(enc.class),
        (k + 1) * word(enc.class) == k * word(enc.class) + word(enc.class),
        (k + 1) * word(enc.class) <= n * word(enc.class),
        bloom_bytes(enc, h, g, n).subrange(k * word(enc.class), (k + 1) * word(enc.class))
            == word_bytes(
            enc.class,
            enc.endian,
            bloom_word(enc.class, h, g, k, h.len() as int),
        ),
    decreases n,
{
    lemma_widths(enc.endian);
    lemma_bloom_len(enc, h, g, n - 1);
    let unit = word_bytes(
        enc.class,
        enc.endian,
        bloom_word(enc.class, h, g, n - 1, h.len() as int),
    );
    lemma_piece(bloom_bytes(enc, h, g, n - 1), unit, word(enc.class), n, k);
    if k < n - 1 {
        lemma_bloom_at(enc, h, g, n - 1, k);
    }
}

proof fn lemma_buckets_len(e: Endian, h: Seq<u32>, g: GnuHeader, n: int)
    requires
        0 <= n,
    ensures
        bucket_bytes(e, h, g, n).len() == n * 4,
    decreases n,
{
    lemma_widths(e);
    if n > 0 {
        lemma_buckets_len(e, h, g, n - 1);
    }
}

proof fn lemma_bucket_at(e: Endian, h: Seq<u32>, g: GnuHeader, n: int, k: int)
    requires
        0 <= k < n,
    ensures
        bucket_bytes(e, h, g, n).len() == n * 4,
        bucket_bytes(e, h, g, n).subrange(k * 4, (k + 1) * 4) == u32_bytes(
            e,
            bucket_head(h, g, k) as u32,
        ),
    decreases n,
{
    lemma_widths(e);
    lemma_buckets_len(e, h, g, n - 1);
    lemma_piece(bucket_bytes(e, h, g, n - 1), u32_bytes(e, bucket_head(h, g, n - 1) as u32), 4, n, k);
    if k < n - 1 {
        lemma_bucket_at(e, h, g, n - 1, k);
    }
}

proof fn lemma_chains_len(e: Endian, h: Seq<u32>, nb: int, n: int)
    requires
        0 <= n,
    ensures
        chain_bytes(e, h, nb, n).len() == n * 4,
    decreases n,
{
    lemma_widths(e);
    if n > 0 {
        lemma_chains_len(e, h, nb, n - 1);
    }
}

proof fn lemma_chain_at(e: Endian, h: Seq<u32>, nb: int, n: int, k: int)
    requires
        0 <= k < n,
    ensures
        chain_bytes(e, h, nb, n).len() == n * 4,
        chain_bytes(e, h, nb, n).subrange(k * 4, (k + 1) * 4) == u32_bytes(e, chain_word(h, nb, k)),
    decreases n,
{
    lemma_widths(e);
    lemma_chains_len(e, h, nb, n - 1);
    lemma_piece(chain_bytes(e, h, nb, n - 1), u32_bytes(e, chain_word(h, nb, n - 1)), 4, n, k);
    if k < n - 1 {
        lemma_chain_at(e, h, nb, n - 1, k);
    }
}

/// A word of the filter fits in its field.
proof fn lemma_bloom_fits(h: Seq<u32>, g: GnuHeader, w: int, n: int)
    ensures
        bloom_word(Class::Elf32, h, g, w, n) <= 0xffff_ffff,
    decreases n,
{
    if n > 0 {
        lemma_bloom_fits(h, g, w, n - 1);
        let before = bloom_word(Class::Elf32, h, g, w, n - 1);
        let x = h[n - 1];
        let a = (x % 32) as u64;
        let b = ((x >> g.shift2) % 32) as u64;
        assert((before | (1u64 << a) | (1u64 << b)) <= 0xffff_ffff) by (bit_vector)
            requires
                before <= 0xffff_ffff,
                a < 32,
                b < 32,
        ;
    }
}

/// The parts of a GNU hash table that was filled.
proof fn lemma_refilled_at(enc: Encoding, data: Seq<u8>, h: Seq<u32>, g: GnuHeader, p: int)
    requires
        0 <= p < h.len(),
        data.len() >= 16,
        g == gnu_header(enc.endian, data),
        g.num_buckets > 0,
        g.maskwords > 0,
        g.table_off(enc.class) + h.len() * 4 <= data.len(),
    ensures
        ({
            let d = refilled(enc, data, h, g);
            let e = enc.endian;
            let f = word(enc.class);
            let nb = g.num_buckets as int;
            let w = (h[p] / word_bits(enc.class)) as int % g.maskwords as int;
            &&& gnu_header(e, d) == g
            &&& word_at(enc.class, e, d, 16 + w * f) == bloom_word(
                enc.class,
                h,
                g,
                w,
                h.len() as int,
            )
            &&& u32_at(e, d, g.buckets_off(enc.class) + bucket(h, nb, p) * 4) == bucket_head(
                h,
                g,
                bucket(h, nb, p),
            ) as u32
            &&& forall|k: int|
                0 <= k < h.len() ==> #[trigger] u32_at(e, d, g.table_off(enc.class) + k * 4)
                    == chain_word(h, nb, k)
        }),
{
    let d = refilled(enc, data, h, g);
    let e = enc.endian;
    let f = word(enc.class);
    let nb = g.num_buckets as int;
    let mw = g.maskwords as int;
    let n = h.len() as int;
    let w = (h[p] / word_bits(enc.class)) as int % mw;
    vstd::arithmetic::div_mod::lemma_mod_bound((h[p] / word_bits(enc.class)) as int, mw);
    lemma_rank(h, nb, p);
    lemma_bloom_at(enc, h, g, mw, w);
    lemma_bucket_at(e, h, g, nb, bucket(h, nb, p));
    lemma_chains_len(e, h, nb, n);
    let bloom = bloom_bytes(enc, h, g, mw);
    let heads = bucket_bytes(e, h, g, nb);
    let chain = chain_bytes(e, h, nb, n);
    let tail = data.skip(g.table_off(enc.class) + n * 4);
    let off = g.buckets_off(enc.class);
    assert(d == data.take(16) + bloom + heads + chain + tail);
    assert(off == 16 + bloom.len());
    reveal(u32_at);
    assert forall|i: int| 0 <= i < 16 implies d[i] == data[i] by {}
    assert(gnu_header(e, d) == g);
    let word_val = bloom_word(enc.class, h, g, w, n);
    assert(d.subrange(16 + w * f, 16 + (w + 1) * f) =~= bloom.subrange(w * f, (w + 1) * f));
    match enc.class {
        Class::Elf64 => {
            lemma_u64_decode(e, word_val, d, 16 + w * f);
        },
        Class::Elf32 => {
            lemma_bloom_fits(h, g, w, n);
            lemma_u32_decode(e, word_val as u32, d, 16 + w * f);
        },
    }
    let b = bucket(h, nb, p);
    assert(d.subrange(off + b * 4, off + (b + 1) * 4) =~= heads.subrange(b * 4, (b + 1) * 4));
    lemma_u32_decode(e, bucket_head(h, g, b) as u32, d, off + b * 4);
    let t = g.table_off(enc.class);
    assert forall|k: int| 0 <= k < n implies #[trigger] u32_at(e, d, t + k * 4) == chain_word(
        h,
        nb,
        k,
    ) by {
        lemma_chain_at(e, h, nb, n, k);
        assert(d.subrange(t + k * 4, t + (k + 1) * 4) =~= chain.subrange(k * 4, (k + 1) * 4));
        lemma_u32_decode(e, chain_word(h, nb, k), d, t + k * 4);
    }
}

/// A GNU hash table that was filled finds every hash that it was filled with.
proof fn lemma_finds(enc: Encoding, data: Seq<u8>, h: Seq<u32>, g: GnuHeader, p: int)
    requires
        0 <= p < h.len(),
        data.len() >= 16,
        g == gnu_header(enc.endian, data),
        g.num_buckets > 0,
        g.maskwords > 0,
        g.symndx > 0,
        g.symndx + h.len() <= u32::MAX,
        g.table_off(enc.class) + h.len() * 4 <= data.len(),
    ensures
        gnu_finds(
            enc,
            refilled(enc, data, h, g),
            h[p],
            g.symndx + rank(h, g.num_buckets as int, p),
        ),
{
    let d = refilled(enc, data, h, g);
    let e = enc.endian;
    let nb = g.num_buckets as int;
    let x = h[p];
    lemma_refilled_at(enc, data, h, g, p);
    law_bloom_passes(enc.class, h, g, p);
    law_chain_reaches(h, g, p);
    lemma_rank(h, nb, p);
    let r = rank(h, nb, p);
    let b = bucket(h, nb, p);
    let bits = word_bits(enc.class);
    let w = (x / bits) as int % g.maskwords as int;
    let filter = bloom_word(enc.class, h, g, w, h.len() as int);
    let s1 = (x % bits) as u64;
    let s2 = ((x >> g.shift2) % bits) as u64;
    assert(filter & (1u64 << s1) != 0) by (bit_vector)
        requires
            filter & (1u64 << s1) == 1u64 << s1,
            s1 < 64,
    ;
    assert(filter & (1u64 << s2) != 0) by (bit_vector)
        requires
            filter & (1u64 << s2) == 1u64 << s2,
            s2 < 64,
    ;
    let head = bucket_head(h, g, b);
    assert(0 <= head <= u32::MAX);
    assert(head as u32 == head);
    let from = g.symndx as int;
    let chains = g.table_off(enc.class);
    assert forall|j: int| head <= j < from + r implies #[trigger] u32_at(
        e,
        d,
        chains + (j - from) * 4,
    ) & 1u32 == 0 by {
        assert(u32_at(e, d, chains + (j - from) * 4) == chain_word(h, nb, j - from));
    }
    assert(u32_at(e, d, chains + r * 4) == chain_word(h, nb, r));
    assert((from + r - from) * 4 == r * 4);
}

/// After symbols were renamed, a loader that looks a hashed symbol up by its name in the GNU
/// hash table comes to it.
pub proof fn law_renamed_found_by_gnu_hash(
    v: ImageView,
    map: Seq<(Seq<char>, Seq<char>)>,
    k: int,
)
    requires
        tables_named(v),
        symbols_renamed(v, map) matches Ok(w) && w != v,
        v.find_section(".gnu.hash"@) matches Some(t) && {
            let d = v.sections[t];
            let f = if v.enc.class is Elf64 {
                8int
            } else {
                4
            };
            let y = v.find_section(".dynsym"@)->Some_0;
            let n = v.sections[y].len() as int / (if v.enc.class is Elf64 {
                24int
            } else {
                16
            });
            &&& d.len() >= 16
            &&& u32_at(v.enc.endian, d, 0) > 0
            &&& 16 + u32_at(v.enc.endian, d, 8) * f + u32_at(v.enc.endian, d, 0) * 4 <= d.len()
            &&& 0 < u32_at(v.enc.endian, d, 4) <= k < n
        },
    ensures
        ({
            let w = symbols_renamed(v, map)->Ok_0;
            let t = v.find_section(".gnu.hash"@)->Some_0;
            let y = v.find_section(".dynsym"@)->Some_0;
            let s = v.find_section(".dynstr"@)->Some_0;
            gnu_finds(
                v.enc,
                w.sections[t],
                gnu_hash_of(sym_bytes(v, w.sections[y], w.sections[s], k)),
                k,
            )
        }),
{
    let w = symbols_renamed(v, map)->Ok_0;
    let t = v.find_section(".gnu.hash"@)->Some_0;
    let y = v.find_section(".dynsym"@)->Some_0;
    let s = v.find_section(".dynstr"@)->Some_0;
    let n = sym_count(v.enc.class, v.sections[y]);
    lemma_names_differ();
    lemma_apart(v, ".dynsym"@, ".dynstr"@);
    lemma_apart(v, ".dynsym"@, ".gnu.hash"@);
    lemma_apart(v, ".dynstr"@, ".gnu.hash"@);
    lemma_apart(v, ".gnu.hash"@, ".hash"@);
    lemma_apart(v, ".dynsym"@, ".hash"@);
    lemma_apart(v, ".dynstr"@, ".hash"@);
    lemma_apart(v, ".dynstr"@, ".gnu.version"@);
    assert(any_renamed(v, v.sections[y], v.sections[s], map, n));
    let (syms, strs) = renamed(v, v.sections[y], v.sections[s], map, n)->Ok_0;
    let v1 = ImageView { sections: v.sections.update(y, syms).update(s, strs), ..v };
    assert(same_names(v, v1));
    lemma_same_names(v, v1);
    lemma_symbols_len(v, v.sections[y], v.sections[s], map, n);
    assert(v1.sections[y] == syms);
    assert(v1.sections[t] == v.sections[t]);
    assert(tables_named(v1));
    let hashes = all_hashes(v1, syms, strs, gnu_fn());
    let (v2, reorder) = gnu_rebuilt(v1, y, hashes)->Ok_0;
    lemma_regrouped(v1, y, hashes);
    lemma_same_names(v1, v2);
    lemma_only_hash(v2, all_hashes(v1, syms, strs, sysv_fn()), reorder);
    assert(v2.sections[s] == v1.sections[s]);
    assert(w.sections[y] == v2.sections[y]);
    assert(w.sections[s] == v2.sections[s]);
    assert(w.sections[t] == v2.sections[t]);
    lemma_together_symbols(v, map, v1, v2, w, reorder);
    let r = reorder->Some_0;
    let h = r.hashes;
    let g = gnu_header(v.enc.endian, v.sections[t]);
    let nb = r.num_buckets;
    lemma_item_at(h, nb, k - r.start);
    let p = item_at(h, nb, k - r.start);
    let j = r.start + p;
    assert(place(reorder, j) == k);
    assert(h[p] == hashes[j]);
    assert(sym_bytes(v, w.sections[y], w.sections[s], place(reorder, j)) == sym_bytes(
        v,
        syms,
        strs,
        j,
    ));
    assert(h[p] == gnu_hash_of(sym_bytes(v1, syms, strs, j)));
    assert(sym_bytes(v1, syms, strs, j) == sym_bytes(v, syms, strs, j));
    lemma_finds(v.enc, v.sections[t], h, g, p);
}

/// Whether a loader that goes through a chain of the older hash table `d` from symbol `i` on
/// comes to symbol `k` within `steps` steps. The chains are behind the `nb` buckets, and
/// zero ends them.
pub open spec fn chain_comes_to(e: Endian, d: Seq<u8>, nb: int, i: int, k: int, steps: nat) -> bool
    decreases steps,
{
    i != 0 && (i == k || (steps > 0 && chain_comes_to(
        e,
        d,
        nb,
        u32_at(e, d, 8 + nb * 4 + i * 4) as int,
        k,
        (steps - 1) as nat,
    )))
}

proof fn lemma_heads_len(e: Endian, buckets: Seq<u32>, n: int)
    requires
        0 <= n,
    ensures
        sysv_heads(e, buckets, n).len() == n * 4,
        sysv_chain(e, buckets, n).len() == n * 4,
    decreases n,
{
    lemma_widths(e);
    if n > 0 {
        lemma_heads_len(e, buckets, n - 1);
    }
}

proof fn lemma_head_at(e: Endian, buckets: Seq<u32>, n: int, k: int)
    requires
        0 <= k < n,
    ensures
        sysv_heads(e, buckets, n).subrange(k * 4, (k + 1) * 4) == u32_bytes(
            e,
            last_place(buckets, k, buckets.len() as int) as u32,
        ),
        sysv_chain(e, buckets, n).subrange(k * 4, (k + 1) * 4) == u32_bytes(
            e,
            last_place(buckets, buckets[k] as int, k) as u32,
        ),
    decreases n,
{
    lemma_widths(e);
    lemma_heads_len(e, buckets, n - 1);
    lemma_piece(
        sysv_heads(e, buckets, n - 1),
        u32_bytes(e, last_place(buckets, n - 1, buckets.len() as int) as u32),
        4,
        n,
        k,
    );
    lemma_piece(
        sysv_chain(e, buckets, n - 1),
        u32_bytes(e, last_place(buckets, buckets[n - 1] as int, n - 1) as u32),
        4,
        n,
        k,
    );
    if k < n - 1 {
        lemma_head_at(e, buckets, n - 1, k);
    }
}

/// A chain of the older hash table comes to each of its symbols.
proof fn lemma_chain_comes(
    e: Endian,
    d: Seq<u8>,
    nb: int,
    buckets: Seq<u32>,
    n: int,
    k: int,
)
    requires
        0 < k < n <= buckets.len(),
        buckets.len() <= u32::MAX,
        forall|i: int|
            0 <= i < buckets.len() ==> #[trigger] u32_at(e, d, 8 + nb * 4 + i * 4) == last_place(
                buckets,
                buckets[i] as int,
                i,
            ),
    ensures
        chain_comes_to(e, d, nb, last_place(buckets, buckets[k] as int, n), k, n as nat),
    decreases n,
{
    let b = buckets[k] as int;
    let i = last_place(buckets, b, n);
    lemma_last_place(buckets, b, n);
    lemma_last_reaches(buckets, b, n, k);
    if i != k {
        lemma_chain_comes(e, d, nb, buckets, i, k);
        lemma_more_steps(e, d, nb, last_place(buckets, b, i), k, i as nat, (n - 1) as nat);
        assert(u32_at(e, d, 8 + nb * 4 + i * 4) == last_place(buckets, b, i));
    }
}

proof fn lemma_last_reaches(buckets: Seq<u32>, b: int, n: int, k: int)
    requires
        0 <= k < n <= buckets.len(),
        buckets[k] == b,
    ensures
        k <= last_place(buckets, b, n) < n,
        buckets[last_place(buckets, b, n)] == b,
    decreases n,
{
    if buckets[n - 1] != b {
        lemma_last_reaches(buckets, b, n - 1, k);
    }
}

proof fn lemma_more_steps(e: Endian, d: Seq<u8>, nb: int, i: int, k: int, a: nat, b: nat)
    requires
        a <= b,
        chain_comes_to(e, d, nb, i, k, a),
    ensures
        chain_comes_to(e, d, nb, i, k, b),
    decreases a,
{
    if i != k {
        lemma_more_steps(
            e,
            d,
            nb,
            u32_at(e, d, 8 + nb * 4 + i * 4) as int,
            k,
            (a - 1) as nat,
            (b - 1) as nat,
        );
    }
}

/// After symbols were renamed, a loader that looks a symbol up by its name in the older hash
/// table comes to it.
pub proof fn law_renamed_found_by_sysv_hash(
    v: ImageView,
    map: Seq<(Seq<char>, Seq<char>)>,
    k: int,
)
    requires
        tables_named(v),
        symbols_renamed(v, map) matches Ok(w) && w != v,
        v.find_section(".hash"@) matches Some(t) && {
            let d = v.sections[t];
            let y = v.find_section(".dynsym"@)->Some_0;
            let n = v.sections[y].len() as int / (if v.enc.class is Elf64 {
                24int
            } else {
                16
            });
            &&& d.len() >= 8
            &&& u32_at(v.enc.endian, d, 0) > 0
            &&& u32_at(v.enc.endian, d, 4) == n
            &&& 8 + (u32_at(v.enc.endian, d, 0) + n) * 4 <= d.len()
            &&& 0 < k < n
        },
    ensures
        ({
            let w = symbols_renamed(v, map)->Ok_0;
            let t = v.find_section(".hash"@)->Some_0;
            let y = v.find_section(".dynsym"@)->Some_0;
            let s = v.find_section(".dynstr"@)->Some_0;
            let e = v.enc.endian;
            let d = w.sections[t];
            let nb = u32_at(e, d, 0) as int;
            let x = sysv_hash_of(sym_bytes(v, w.sections[y], w.sections[s], k)) as int;
            chain_comes_to(
                e,
                d,
                nb,
                u32_at(e, d, 8 + (x % nb) * 4) as int,
                k,
                u32_at(e, d, 4) as nat,
            )
        }),
{
    let w = symbols_renamed(v, map)->Ok_0;
    let t = v.find_section(".hash"@)->Some_0;
    let y = v.find_section(".dynsym"@)->Some_0;
    let s = v.find_section(".dynstr"@)->Some_0;
    let e = v.enc.endian;
    let n = sym_count(v.enc.class, v.sections[y]);
    lemma_names_differ();
    lemma_apart(v, ".dynsym"@, ".dynstr"@);
    lemma_apart(v, ".gnu.hash"@, ".hash"@);
    lemma_apart(v, ".gnu.version"@, ".hash"@);
    lemma_apart(v, ".dynsym"@, ".hash"@);
    lemma_apart(v, ".dynstr"@, ".hash"@);
    lemma_apart(v, ".dynstr"@, ".gnu.version"@);
    lemma_apart(v, ".dynstr"@, ".gnu.hash"@);
    assert(any_renamed(v, v.sections[y], v.sections[s], map, n));
    let (syms, strs) = renamed(v, v.sections[y], v.sections[s], map, n)->Ok_0;
    let v1 = ImageView { sections: v.sections.update(y, syms).update(s, strs), ..v };
    assert(same_names(v, v1));
    lemma_same_names(v, v1);
    lemma_symbols_len(v, v.sections[y], v.sections[s], map, n);
    assert(v1.sections[y] == syms);
    assert(tables_named(v1));
    let hashes = all_hashes(v1, syms, strs, gnu_fn());
    let (v2, reorder) = gnu_rebuilt(v1, y, hashes)->Ok_0;
    lemma_regrouped(v1, y, hashes);
    lemma_same_names(v1, v2);
    let old = all_hashes(v1, syms, strs, sysv_fn());
    lemma_only_hash(v2, old, reorder);
    assert(v2.sections[s] == v1.sections[s]);
    assert(w.sections[y] == v2.sections[y]);
    assert(w.sections[s] == v2.sections[s]);
    lemma_together_symbols(v, map, v1, v2, w, reorder);
    let data = v.sections[t];
    assert(v1.sections[t] == data);
    assert(v2.sections[t] == data);
    let nb = u32_at(e, data, 0);
    let buckets = Seq::new(n as nat, |i: int| (old[old_index(reorder, 0 + i)] % nb) as u32);
    let end = 8 + (nb + n) * 4;
    let d = w.sections[t];
    let heads = sysv_heads(e, buckets, nb as int);
    let chain = sysv_chain(e, buckets, n);
    lemma_heads_len(e, buckets, nb as int);
    lemma_heads_len(e, buckets, n);
    assert(old.len() - n == 0);
    assert(d == data.take(8) + heads + chain + data.skip(end));
    assert(u32_at(e, d, 0) == nb && u32_at(e, d, 4) == n) by {
        reveal(u32_at);
        assert forall|i: int| 0 <= i < 8 implies d[i] == data[i] by {}
    }
    assert forall|i: int| 0 <= i < n implies #[trigger] u32_at(e, d, 8 + nb * 4 + i * 4)
        == last_place(buckets, buckets[i] as int, i) by {
        lemma_head_at(e, buckets, n, i);
        let o = 8 + nb * 4 + i * 4;
        assert(d.subrange(o, o + 4) =~= chain.subrange(i * 4, (i + 1) * 4));
        lemma_last_place(buckets, buckets[i] as int, i);
        lemma_u32_decode(e, last_place(buckets, buckets[i] as int, i) as u32, d, o);
    }
    let j = old_index(reorder, k);
    if let Some(r) = reorder {
        if k >= r.start {
            lemma_item_at(r.hashes, r.num_buckets, k - r.start);
        }
    }
    assert(0 <= j < n && place(reorder, j) == k);
    assert(sym_bytes(v, w.sections[y], w.sections[s], place(reorder, j)) == sym_bytes(
        v,
        syms,
        strs,
        j,
    ));
    let x = sysv_hash_of(sym_bytes(v, w.sections[y], w.sections[s], k));
    assert(sym_bytes(v1, syms, strs, j) == sym_bytes(v, syms, strs, j));
    assert(old[j] == x);
    let b = x as int % nb as int;
    assert(buckets[k] == b);
    lemma_head_at(e, buckets, nb as int, b);
    let o = 8 + b * 4;
    assert(d.subrange(o, o + 4) =~= heads.subrange(b * 4, (b + 1) * 4));
    lemma_last_place(buckets, b, n);
    lemma_u32_decode(e, last_place(buckets, b, n) as u32, d, o);
    lemma_chain_comes(e, d, nb as int, buckets, n, k);
}

} // verus!
