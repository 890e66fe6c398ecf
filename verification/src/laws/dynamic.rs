//! The dynamic array reads back from its section.
use vstd::prelude::*;

use crate::codec::{dyn_at, dyn_bytes, dyn_out};
use crate::error::Outcome;
use crate::ir::{dt, DynEntry, Encoding, ImageView};
use crate::layout::{dyns_out, padded, synced};
use crate::parser::dyn_entries;
use crate::raw::{dyn_len, word_fits};
use crate::roundtrip::{law_dyn_reads_back, law_dyn_writes_back};

verus! {

/// Whether a dynamic array has its terminating entry at the end, and only there.
pub open spec fn ended(d: Seq<DynEntry>) -> bool {
    &&& d.len() > 0
    &&& d.last().tag == dt::NULL
    &&& forall|i: int| 0 <= i < d.len() - 1 ==> (#[trigger] d[i]).tag != dt::NULL
}

/// Whether the tags fit in the tag fields.
pub open spec fn tags_fit(enc: Encoding, d: Seq<DynEntry>) -> bool {
    enc.class is Elf32 ==> forall|i: int|
        0 <= i < d.len() ==> i32::MIN <= (#[trigger] d[i]).tag <= i32::MAX
}

/// Encoded entries take the room of their number, and each is where it should be.
pub proof fn lemma_dyns_out(enc: Encoding, d: Seq<DynEntry>, n: int)
    requires
        0 <= n <= d.len(),
        dyns_out(enc, d, n) is Ok,
    ensures
        dyns_out(enc, d, n)->Ok_0.len() == n * dyn_len(enc.class),
        n > 0 ==> dyn_out(enc, d[n - 1]) is Ok && word_fits(enc.class, d[n - 1].val),
    decreases n,
{
    if n > 0 {
        lemma_dyns_out(enc, d, n - 1);
        let size = dyn_len(enc.class);
        assert((n - 1) * size + size == n * size) by (nonlinear_arith);
        lemma_dyn_out_len(enc, d[n - 1]);
    } else {
        assert(n * dyn_len(enc.class) == 0) by (nonlinear_arith)
            requires
                n == 0,
        ;
    }
}

/// An encoded entry takes the room of an entry.
proof fn lemma_dyn_out_len(enc: Encoding, d: DynEntry)
    requires
        dyn_out(enc, d) is Ok,
    ensures
        dyn_out(enc, d)->Ok_0.len() == dyn_len(enc.class),
        word_fits(enc.class, d.val),
{
    reveal(dyn_bytes);
    crate::bytes::lemma_widths(enc.endian);
}

/// Encoding an array is encoding its first entry and then the others.
proof fn lemma_dyns_front(enc: Encoding, d: Seq<DynEntry>, n: int)
    requires
        0 < n <= d.len(),
        dyns_out(enc, d, n) is Ok,
    ensures
        dyn_out(enc, d[0]) is Ok,
        dyns_out(enc, d.skip(1), n - 1) is Ok,
        dyns_out(enc, d, n)->Ok_0 == dyn_out(enc, d[0])->Ok_0 + dyns_out(
            enc,
            d.skip(1),
            n - 1,
        )->Ok_0,
    decreases n,
{
    let first = dyn_out(enc, d[0]);
    if n == 1 {
        assert(dyns_out(enc, d, 0) == Outcome::<Seq<u8>>::Ok(Seq::empty()));
        assert(Seq::empty() + first->Ok_0 =~= first->Ok_0 + Seq::empty());
    } else {
        lemma_dyns_front(enc, d, n - 1);
        assert(d.skip(1)[n - 2] == d[n - 1]);
        let a = dyns_out(enc, d.skip(1), n - 2)->Ok_0;
        let b = dyn_out(enc, d[n - 1])->Ok_0;
        assert(first->Ok_0 + a + b =~= first->Ok_0 + (a + b));
    }
}

/// An encoded array reads back up to its terminating entry, whatever follows.
pub proof fn law_dynamic_reads_back(enc: Encoding, d: Seq<DynEntry>, tail: Seq<u8>)
    requires
        ended(d),
        tags_fit(enc, d),
    ensures
        dyns_out(enc, d, d.len() as int) matches Ok(b) ==> dyn_entries(enc, b + tail) == d,
    decreases d.len(),
{
    if let Ok(b) = dyns_out(enc, d, d.len() as int) {
        let n = dyn_len(enc.class);
        lemma_dyns_front(enc, d, d.len() as int);
        let f = dyn_out(enc, d[0])->Ok_0;
        let r = dyns_out(enc, d.skip(1), d.len() - 1)->Ok_0;
        lemma_dyn_out_len(enc, d[0]);
        law_dyn_reads_back(enc, d[0]);
        let all = b + tail;
        assert(all.take(n) =~= f);
        assert(all.skip(n) =~= r + tail);
        if d.len() == 1 {
            assert(d =~= seq![d[0]]);
        } else {
            let rest = d.skip(1);
            assert(rest.last() == d.last());
            assert forall|i: int| 0 <= i < rest.len() - 1 implies (#[trigger] rest[i]).tag
                != dt::NULL by {
                assert(rest[i] == d[i + 1]);
            }
            if enc.class is Elf32 {
                assert forall|i: int| 0 <= i < rest.len() implies i32::MIN <= (
                #[trigger] rest[i]).tag <= i32::MAX by {
                    assert(rest[i] == d[i + 1]);
                }
            }
            law_dynamic_reads_back(enc, rest, tail);
            assert(d[0].tag != dt::NULL);
            assert(seq![d[0]] + rest =~= d);
        }
    }
}

/// An array that was read writes back the bytes that it was read from.
pub proof fn lemma_entries_write_back(enc: Encoding, b: Seq<u8>)
    ensures
        ({
            let d = dyn_entries(enc, b);
            let n = d.len() as int;
            &&& n * dyn_len(enc.class) <= b.len()
            &&& dyns_out(enc, d, n) == Outcome::<Seq<u8>>::Ok(b.take(n * dyn_len(enc.class)))
        }),
    decreases b.len(),
{
    let size = dyn_len(enc.class);
    let d = dyn_entries(enc, b);
    if b.len() < size {
        assert(0 * size == 0) by (nonlinear_arith);
        assert(b.take(0) =~= Seq::empty());
    } else {
        let x = dyn_at(enc.class, enc.endian, b.take(size));
        law_dyn_writes_back(enc, b.take(size));
        if x.tag == dt::NULL {
            assert(dyns_out(enc, d, 0) == Outcome::<Seq<u8>>::Ok(Seq::empty()));
            assert(dyns_out(enc, d, 1)->Ok_0 =~= b.take(size));
            assert(1 * size == size) by (nonlinear_arith);
        } else {
            let rest = dyn_entries(enc, b.skip(size));
            lemma_entries_write_back(enc, b.skip(size));
            let m = rest.len() as int;
            lemma_dyns_push_front(enc, x, rest, m);
            assert((m + 1) * size == m * size + size) by (nonlinear_arith);
            assert(0 <= m * size) by (nonlinear_arith)
                requires
                    0 <= m,
                    0 <= size,
            ;
            assert(b.take(size) + b.skip(size).take(m * size) =~= b.take((m + 1) * size));
        }
    }
}

/// Encoding an array with one more entry in front.
proof fn lemma_dyns_push_front(enc: Encoding, x: DynEntry, d: Seq<DynEntry>, n: int)
    requires
        0 <= n <= d.len(),
        dyn_out(enc, x) is Ok,
        dyns_out(enc, d, n) is Ok,
    ensures
        dyns_out(enc, seq![x] + d, n + 1) == Outcome::<Seq<u8>>::Ok(
            dyn_out(enc, x)->Ok_0 + dyns_out(enc, d, n)->Ok_0,
        ),
    decreases n,
{
    let all = seq![x] + d;
    let f = dyn_out(enc, x)->Ok_0;
    if n == 0 {
        assert(dyns_out(enc, all, 0) == Outcome::<Seq<u8>>::Ok(Seq::empty()));
        assert(all[0] == x);
        assert(dyns_out(enc, all, 1)->Ok_0 =~= f + Seq::empty());
    } else {
        lemma_dyns_push_front(enc, x, d, n - 1);
        assert(all[n] == d[n - 1]);
        let a = dyns_out(enc, d, n - 1)->Ok_0;
        let b = dyn_out(enc, d[n - 1])->Ok_0;
        assert(f + a + b =~= f + (a + b));
    }
}

/// Whether the bytes behind the dynamic array in its section are zero.
pub open spec fn tail_clear(enc: Encoding, b: Seq<u8>) -> bool {
    let n = dyn_entries(enc, b).len() * dyn_len(enc.class);
    forall|i: int| n <= i < b.len() ==> #[trigger] b[i] == 0
}

/// An array that was read and not changed leaves its section as it was, where
/// nothing but zeros stands behind it.
pub proof fn law_sync_unchanged(v: ImageView)
    requires
        v.wf(),
        v.dyn_idx() matches Some(k) ==> {
            &&& 0 <= k < v.shdrs.len()
            &&& v.sections[k].len() == v.shdrs[k].size
            &&& v.dynamic == dyn_entries(v.enc, v.sections[k])
            &&& tail_clear(v.enc, v.sections[k])
        },
    ensures
        synced(v) == Outcome::<ImageView>::Ok(v),
{
    if let Some(k) = v.dyn_idx() {
        let b = v.sections[k];
        lemma_entries_write_back(v.enc, b);
        let n = v.dynamic.len() * dyn_len(v.enc.class);
        let t = b.take(n);
        assert(padded(t, b.len() as int) =~= b) by {
            assert forall|i: int| 0 <= i < b.len() implies padded(t, b.len() as int)[i] == b[i] by {
                if i >= n {
                    assert(b[i] == 0);
                }
            }
        }
        assert(v.sections.update(k, b) =~= v.sections);
    }
}

} // verus!
