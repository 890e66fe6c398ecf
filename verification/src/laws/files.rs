//! Reading a file and writing it undo each other.
use vstd::prelude::*;

use crate::codec::{counts, ehdr_at, ehdr_out, record_of, PN_XNUM, SHN_LORESERVE};
use crate::error::Outcome;
use crate::ir::{sht, Encoding, ImageView, Phdr, Shdr};
use crate::parser::{
    bytes_at, dynamic_of, lemma_section_bytes_len, parsed, phdr_table, resolved, section_bytes,
    shdr_table,
};
use crate::raw::{header_at, header_len, phdr_len, shdr_len};
use crate::roundtrip::{
    law_phdr_writes_back, law_shdr_writes_back, lemma_adjacent, lemma_header_writes_back,
};
use crate::seqs::lemma_first_none;
use crate::serialize::{
    byte_at, covers, insert_span, phdrs_out, rendered, shdrs_out, sort_spans, spans_of, with_part,
    with_sections, written, SpanView,
};

verus! {

/// Whether the counts in a file's header are those that writing it again would
/// give: they escape to section 0 where they have to, and only there.
pub open spec fn canonical(data: Seq<u8>) -> bool {
    match (ehdr_at(data), parsed(data)) {
        (Ok((raw, _, phnum, shnum)), Ok(v)) => counts(
            v.ehdr.shstrndx,
            v.phdrs.len() as int,
            v.shdrs.len() as int,
        ) == (phnum, shnum, raw.shstrndx as u16),
        _ => false,
    }
}

/// A table of program headers that was read writes back the bytes that it was
/// read from.
pub proof fn lemma_phdrs_write_back(data: Seq<u8>, enc: Encoding, off: int, n: int)
    requires
        0 <= off,
        0 <= n,
        phdr_table(data, enc, off, n) is Ok,
    ensures
        phdr_table(data, enc, off, n)->Ok_0.len() == n,
        n > 0 ==> off + n * phdr_len(enc.class) <= data.len(),
        phdrs_out(enc, phdr_table(data, enc, off, n)->Ok_0, n) == Outcome::<Seq<u8>>::Ok(
            if n == 0 {
                Seq::empty()
            } else {
                data.subrange(off, off + n * phdr_len(enc.class))
            },
        ),
    decreases n,
{
    if n > 0 {
        let size = phdr_len(enc.class);
        lemma_phdrs_write_back(data, enc, off, n - 1);
        let t = phdr_table(data, enc, off, n - 1)->Ok_0;
        let all = phdr_table(data, enc, off, n)->Ok_0;
        let at = off + (n - 1) * size;
        assert(n * size == (n - 1) * size + size) by (nonlinear_arith);
        assert(0 <= (n - 1) * size) by (nonlinear_arith)
            requires
                n >= 1,
                size >= 0,
        ;
        let b = data.subrange(at, at + size);
        law_phdr_writes_back(enc, b);
        lemma_phdrs_out_same(enc, t, all, n - 1);
        if n > 1 {
            lemma_adjacent(data, off, at, at + size);
        } else {
            assert((n - 1) * size == 0) by (nonlinear_arith)
                requires
                    n == 1,
            ;
            assert(Seq::empty() + b =~= b);
        }
    }
}

proof fn lemma_phdrs_out_same(enc: Encoding, a: Seq<Phdr>, b: Seq<Phdr>, n: int)
    requires
        n <= a.len(),
        n <= b.len(),
        forall|i: int| 0 <= i < n ==> #[trigger] a[i] == b[i],
    ensures
        phdrs_out(enc, a, n) == phdrs_out(enc, b, n),
    decreases n,
{
    if n > 0 {
        lemma_phdrs_out_same(enc, a, b, n - 1);
        assert(a[n - 1] == b[n - 1]);
    }
}

/// A table of section headers that was read writes back the bytes that it was
/// read from.
pub proof fn lemma_shdrs_write_back(data: Seq<u8>, enc: Encoding, off: int, n: int)
    requires
        0 <= off,
        0 <= n,
        shdr_table(data, enc, off, n) is Ok,
    ensures
        shdr_table(data, enc, off, n)->Ok_0.len() == n,
        n > 0 ==> off + n * shdr_len(enc.class) <= data.len(),
        shdrs_out(enc, shdr_table(data, enc, off, n)->Ok_0, n) == Outcome::<Seq<u8>>::Ok(
            if n == 0 {
                Seq::empty()
            } else {
                data.subrange(off, off + n * shdr_len(enc.class))
            },
        ),
    decreases n,
{
    if n > 0 {
        let size = shdr_len(enc.class);
        lemma_shdrs_write_back(data, enc, off, n - 1);
        let t = shdr_table(data, enc, off, n - 1)->Ok_0;
        let all = shdr_table(data, enc, off, n)->Ok_0;
        let at = off + (n - 1) * size;
        assert(n * size == (n - 1) * size + size) by (nonlinear_arith);
        assert(0 <= (n - 1) * size) by (nonlinear_arith)
            requires
                n >= 1,
                size >= 0,
        ;
        let b = data.subrange(at, at + size);
        law_shdr_writes_back(enc, b);
        lemma_shdrs_out_same(enc, t, all, n - 1);
        if n > 1 {
            lemma_adjacent(data, off, at, at + size);
        } else {
            assert((n - 1) * size == 0) by (nonlinear_arith)
                requires
                    n == 1,
            ;
            assert(Seq::empty() + b =~= b);
        }
    }
}

proof fn lemma_shdrs_out_same(enc: Encoding, a: Seq<Shdr>, b: Seq<Shdr>, n: int)
    requires
        n <= a.len(),
        n <= b.len(),
        forall|i: int| 0 <= i < n ==> #[trigger] a[i] == b[i],
    ensures
        shdrs_out(enc, a, n) == shdrs_out(enc, b, n),
    decreases n,
{
    if n > 0 {
        lemma_shdrs_out_same(enc, a, b, n - 1);
        assert(a[n - 1] == b[n - 1]);
    }
}

/// Whether `b` is what was read of a section.
pub open spec fn section_read(data: Seq<u8>, s: Shdr, b: Seq<u8>) -> bool {
    if s.sh_type == sht::NOBITS {
        b == Seq::<u8>::empty()
    } else {
        bytes_at(data, s.offset as int, s.size as int, "section"@) == Outcome::Ok(b)
    }
}

/// What the sections that were read hold.
pub proof fn lemma_sections_read(data: Seq<u8>, shdrs: Seq<Shdr>, n: int)
    requires
        0 <= n <= shdrs.len(),
        section_bytes(data, shdrs, n) is Ok,
    ensures
        section_bytes(data, shdrs, n)->Ok_0.len() == n,
        forall|i: int|
            0 <= i < n ==> section_read(data, shdrs[i], #[trigger] section_bytes(
                data,
                shdrs,
                n,
            )->Ok_0[i]),
    decreases n,
{
    if n > 0 {
        lemma_sections_read(data, shdrs, n - 1);
    }
}

/// Whether section `i` of `v` is as the file has it at its place.
pub open spec fn in_place(v: ImageView, data: Seq<u8>, i: int) -> bool {
    v.shdrs[i].sh_type != sht::NOBITS ==> v.shdrs[i].offset + v.shdrs[i].size <= data.len()
        && v.sections[i] == data.subrange(
        v.shdrs[i].offset as int,
        v.shdrs[i].offset + v.shdrs[i].size,
    )
}

/// Sections that are as in the file are no change to it.
proof fn lemma_no_sections(v: ImageView, data: Seq<u8>, n: int)
    requires
        v.wf(),
        0 <= n <= v.shdrs.len(),
        forall|i: int| 0 <= i < v.shdrs.len() ==> #[trigger] in_place(v, data, i),
    ensures
        with_sections(Seq::empty(), v, data, n) == Outcome::<Seq<SpanView>>::Ok(Seq::empty()),
    decreases n,
{
    if n > 0 {
        lemma_no_sections(v, data, n - 1);
        assert(in_place(v, data, n - 1));
    }
}

/// A file that was read and not changed writes back as it was, byte for byte.
pub proof fn law_identity(data: Seq<u8>)
    requires
        canonical(data),
        data.len() <= u64::MAX,
    ensures
        parsed(data) matches Ok(v) && written(v, data, data.len() as u64) == Outcome::<
            Seq<u8>,
        >::Ok(data),
{
    let v = parsed(data)->Ok_0;
    lemma_no_spans(data);
    assert(sort_spans(Seq::<SpanView>::empty()) =~= Seq::empty());
    assert forall|i: int| 0 <= i < data.len() implies byte_at(Seq::empty(), data, i) == data[i] by {
        lemma_first_none(Seq::<SpanView>::empty(), covers(i), 0);
    }
    assert(rendered(Seq::empty(), data, data.len() as int) =~= data);
}

/// The counts in a header that uses no escape are those that writing it again would
/// give.
pub proof fn law_plain_counts(data: Seq<u8>)
    requires
        parsed(data) is Ok,
        ehdr_at(data) matches Ok((raw, _, phnum, shnum)) && {
            &&& phnum < PN_XNUM
            &&& raw.shstrndx < SHN_LORESERVE
            &&& 0 < shnum < SHN_LORESERVE || (shnum == 0 && raw.shoff == 0)
        },
    ensures
        canonical(data),
{
    lemma_parsed(data);
}

/// What reading a file established.
pub proof fn lemma_parsed(data: Seq<u8>)
    requires
        parsed(data) is Ok,
    ensures
        ({
            let v = parsed(data)->Ok_0;
            let (raw, enc, p, s) = ehdr_at(data)->Ok_0;
            &&& ehdr_at(data) is Ok
            &&& v.enc == enc
            &&& resolved(data, enc, raw, p, s) == Outcome::Ok(
                (v.ehdr, v.phdrs.len() as u64, v.shdrs.len() as u64),
            )
            &&& v.phdrs.len() <= u64::MAX
            &&& v.shdrs.len() <= u64::MAX
            &&& phdr_table(data, enc, v.ehdr.phoff as int, v.phdrs.len() as int) == Outcome::Ok(
                v.phdrs,
            )
            &&& shdr_table(data, enc, v.ehdr.shoff as int, v.shdrs.len() as int) == Outcome::Ok(
                v.shdrs,
            )
            &&& section_bytes(data, v.shdrs, v.shdrs.len() as int) == Outcome::Ok(v.sections)
            &&& dynamic_of(data, enc, v.shdrs, v.phdrs) == Outcome::Ok(v.dynamic)
            &&& v.wf()
        }),
{
    let v = parsed(data)->Ok_0;
    let (raw, enc, p, s) = ehdr_at(data)->Ok_0;
    let (ehdr, phnum, shnum) = resolved(data, enc, raw, p, s)->Ok_0;
    lemma_phdrs_write_back(data, enc, ehdr.phoff as int, phnum as int);
    lemma_shdrs_write_back(data, enc, ehdr.shoff as int, shnum as int);
    lemma_section_bytes_len(data, v.shdrs, v.shdrs.len() as int);
}

/// The header of a file that was read writes back its bytes.
proof fn lemma_ehdr_same(data: Seq<u8>)
    requires
        canonical(data),
    ensures
        ({
            let v = parsed(data)->Ok_0;
            &&& header_len(v.enc.class) <= data.len()
            &&& ehdr_out(v.enc, v.ehdr, v.phdrs.len() as int, v.shdrs.len() as int) == Outcome::<
                Seq<u8>,
            >::Ok(data.subrange(0, header_len(v.enc.class)))
        }),
{
    let v = parsed(data)->Ok_0;
    let (raw, enc, p, s) = ehdr_at(data)->Ok_0;
    lemma_parsed(data);
    let c = enc.class;
    let e = enc.endian;
    lemma_header_writes_back(c, e, data);
    let n = v.phdrs.len() as int;
    let m = v.shdrs.len() as int;
    assert(record_of(v.ehdr, n, m) == header_at(c, e, data));
    assert(data.take(16) + data.subrange(16, header_len(c)) =~= data.subrange(0, header_len(c)));
}

/// A file that was read and not changed has nothing to write.
proof fn lemma_no_spans(data: Seq<u8>)
    requires
        canonical(data),
    ensures
        spans_of(parsed(data)->Ok_0, data) == Outcome::<Seq<SpanView>>::Ok(Seq::empty()),
{
    let v = parsed(data)->Ok_0;
    lemma_parsed(data);
    lemma_ehdr_same(data);
    let c = v.enc.class;
    let n = v.phdrs.len() as int;
    let m = v.shdrs.len() as int;
    lemma_phdrs_write_back(data, v.enc, v.ehdr.phoff as int, n);
    lemma_shdrs_write_back(data, v.enc, v.ehdr.shoff as int, m);
    lemma_sections_read(data, v.shdrs, m);
    assert(n > 0 ==> 0 <= n * phdr_len(c)) by (nonlinear_arith)
        requires
            phdr_len(c) >= 0,
    ;
    assert(m > 0 ==> 0 <= m * shdr_len(c)) by (nonlinear_arith)
        requires
            shdr_len(c) >= 0,
    ;
    assert forall|i: int| 0 <= i < v.shdrs.len() implies #[trigger] in_place(v, data, i) by {
        let b = v.sections[i];
        assert(b == section_bytes(data, v.shdrs, m)->Ok_0[i]);
    }
    lemma_no_sections(v, data, m);
    assert(with_part(Seq::empty(), data, 0, data.subrange(0, header_len(c))) == Seq::<
        SpanView,
    >::empty());
}

/// A byte that nothing which is written covers is that of the input, and zero
/// past its end.
pub proof fn law_untouched(v: ImageView, original: Seq<u8>, total: u64, i: int)
    requires
        0 <= i < total,
        spans_of(v, original) matches Ok(spans) && forall|k: int|
            0 <= k < spans.len() ==> !covers(i)(#[trigger] spans[k]),
    ensures
        written(v, original, total) matches Ok(out) ==> out.len() == total && out[i] == (if i
            < original.len() {
            original[i]
        } else {
            0
        }),
{
    if let Ok(out) = written(v, original, total) {
        let spans = spans_of(v, original)->Ok_0;
        let sorted = sort_spans(spans);
        assert forall|k: int| 0 <= k < sorted.len() implies !covers(i)(#[trigger] sorted[k]) by {
            lemma_sort_contains(spans, sorted[k]);
            assert(sorted.contains(sorted[k]));
            let j = choose|j: int| 0 <= j < spans.len() && spans[j] == sorted[k];
            assert(!covers(i)(spans[j]));
        }
        lemma_first_none(sorted, covers(i), 0);
    }
}

proof fn lemma_insert_contains(s: Seq<SpanView>, x: SpanView, y: SpanView)
    ensures
        insert_span(s, x).contains(y) <==> s.contains(y) || x == y,
    decreases s.len(),
{
    if s.len() == 0 || s.last().at <= x.at {
        assert(s.push(x).last() == x);
        assert(forall|i: int| 0 <= i < s.len() ==> s.push(x)[i] == s[i]);
        if s.contains(y) {
            let i = choose|i: int| 0 <= i < s.len() && s[i] == y;
            assert(s.push(x)[i] == y);
        }
        if x == y {
            assert(s.push(x)[s.len() as int] == y);
        }
    } else {
        let t = s.drop_last();
        lemma_insert_contains(t, x, y);
        let u = insert_span(t, x);
        let all = u.push(s.last());
        if all.contains(y) {
            let i = choose|i: int| 0 <= i < all.len() && all[i] == y;
            if i < u.len() {
                assert(u[i] == y);
                if t.contains(y) {
                    let j = choose|j: int| 0 <= j < t.len() && t[j] == y;
                    assert(s[j] == y);
                }
            } else {
                assert(s[s.len() - 1] == y);
            }
        }
        if s.contains(y) || x == y {
            if s.contains(y) {
                let j = choose|j: int| 0 <= j < s.len() && s[j] == y;
                if j < t.len() {
                    assert(t[j] == y);
                } else {
                    assert(all[u.len() as int] == y);
                }
            }
            if u.contains(y) {
                let i = choose|i: int| 0 <= i < u.len() && u[i] == y;
                assert(all[i] == y);
            }
        }
    }
}

/// Sorting keeps what there is.
pub proof fn lemma_sort_contains(s: Seq<SpanView>, y: SpanView)
    ensures
        sort_spans(s).contains(y) <==> s.contains(y),
    decreases s.len(),
{
    if s.len() > 0 {
        let t = s.drop_last();
        lemma_sort_contains(t, y);
        lemma_insert_contains(sort_spans(t), s.last(), y);
        if s.contains(y) {
            let j = choose|j: int| 0 <= j < s.len() && s[j] == y;
            if j < t.len() {
                assert(t[j] == y);
            }
        }
        if t.contains(y) {
            let j = choose|j: int| 0 <= j < t.len() && t[j] == y;
            assert(s[j] == y);
        }
        if s.last() == y {
            assert(s[s.len() - 1] == y);
        }
    }
}

} // verus!
