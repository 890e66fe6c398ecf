//! A file that was written reads back as what it was written from.
use vstd::prelude::*;

use crate::codec::{
    counts, ehdr_at, ehdr_out, phdr_out, record_of, shdr_in, shdr_out, PN_XNUM, SHN_LORESERVE,
};
use crate::error::Outcome;
use crate::ir::{
    pt, section_type, segment_type, sht, DynEntry, EhdrView, Encoding, ImageView, Phdr, Shdr,
};
use crate::laws::files::{law_untouched, lemma_sort_contains};
use crate::parser::{
    bytes_at, dyn_array, dyn_entries, dynstr_of, interp_of, parsed, phdr_table, resolved,
    section_bytes, shdr_table,
};
use crate::raw::{dyn_len, header_len, phdr_fits, phdr_len, shdr_fits, shdr_len};
use crate::roundtrip::{
    ident_wf, law_ehdr_reads_back, law_phdr_reads_back, law_shdr_reads_back, lemma_header_len,
};
use crate::seqs::{first, lemma_first_from};
use crate::serialize::{
    covers, phdrs_out, shdrs_out, sort_spans, spans_of, with_part, with_sections, written, SpanView,
};

verus! {

/// Part `k` of what is written: the file header, the two header tables, then the
/// sections. A section without file bytes is an empty part.
pub open spec fn part(w: ImageView, k: int) -> SpanView {
    if k == 0 {
        SpanView {
            at: 0,
            bytes: ehdr_out(w.enc, w.ehdr, w.phdrs.len() as int, w.shdrs.len() as int)->Ok_0,
        }
    } else if k == 1 {
        SpanView {
            at: w.ehdr.phoff,
            bytes: phdrs_out(w.enc, w.phdrs, w.phdrs.len() as int)->Ok_0,
        }
    } else if k == 2 {
        SpanView {
            at: w.ehdr.shoff,
            bytes: shdrs_out(w.enc, w.shdrs, w.shdrs.len() as int)->Ok_0,
        }
    } else {
        SpanView {
            at: w.shdrs[k - 3].offset,
            bytes: if w.shdrs[k - 3].sh_type == sht::NOBITS {
                Seq::empty()
            } else {
                w.sections[k - 3]
            },
        }
    }
}

/// Number of parts.
pub open spec fn part_count(w: ImageView) -> int {
    w.shdrs.len() as int + 3
}

/// Whether two parts share no position; an empty part shares none.
pub open spec fn parts_apart(a: SpanView, b: SpanView) -> bool {
    a.bytes.len() == 0 || b.bytes.len() == 0 || a.end() <= b.at || b.end() <= a.at
}

/// Whether part `k` is a table without entries or a section without file bytes,
/// whose place does not matter.
pub open spec fn placeless(w: ImageView, k: int) -> bool {
    if k < 3 {
        part(w, k).bytes.len() == 0
    } else {
        w.shdrs[k - 3].sh_type == sht::NOBITS
    }
}

/// Whether every part lies within `total` bytes and apart from the others.
pub open spec fn placed(w: ImageView, total: int) -> bool {
    &&& forall|k: int|
        0 <= k < part_count(w) ==> (#[trigger] part(w, k)).end() <= total || placeless(w, k)
    &&& forall|j: int, k: int|
        0 <= j < k < part_count(w) ==> parts_apart(#[trigger] part(w, j), #[trigger] part(w, k))
}

/// Whether the input has a part in its place.
pub open spec fn has_part(original: Seq<u8>, p: SpanView) -> bool {
    p.end() <= original.len() && original.subrange(p.at as int, p.end()) == p.bytes
}

/// Whether every part lies within `total` bytes, and the file header and the two
/// tables apart from each other and from all sections that are not as the input has
/// them.
pub open spec fn tables_placed(w: ImageView, original: Seq<u8>, total: int) -> bool {
    &&& forall|k: int|
        0 <= k < part_count(w) ==> (#[trigger] part(w, k)).end() <= total || placeless(w, k)
    &&& forall|j: int, k: int|
        0 <= j < 3 && 0 <= k < part_count(w) && j != k ==> parts_apart(
            #[trigger] part(w, j),
            #[trigger] part(w, k),
        ) || (k >= 3 && has_part(original, part(w, k)))
}

/// What a list of spans has to do with the first `n` parts: its spans are among
/// them, not empty and not in the input, and what it lacks of them is empty or in
/// the input.
pub open spec fn spans_are(spans: Seq<SpanView>, w: ImageView, original: Seq<u8>, n: int) -> bool {
    &&& forall|j: int|
        0 <= j < spans.len() ==> (#[trigger] spans[j]).bytes.len() > 0 && !has_part(
            original,
            spans[j],
        ) && exists|k: int| 0 <= k < n && #[trigger] part(w, k) == spans[j]
    &&& forall|k: int|
        0 <= k < n && (#[trigger] part(w, k)).bytes.len() > 0 ==> spans.contains(part(w, k))
            || has_part(original, part(w, k))
}

proof fn lemma_with_part(spans: Seq<SpanView>, w: ImageView, original: Seq<u8>, n: int)
    requires
        0 <= n,
        spans_are(spans, w, original, n),
    ensures
        spans_are(
            with_part(spans, original, part(w, n).at, part(w, n).bytes),
            w,
            original,
            n + 1,
        ),
{
    let p = part(w, n);
    let all = with_part(spans, original, p.at, p.bytes);
    let pushed = spans.push(SpanView { at: p.at, bytes: p.bytes });
    assert(SpanView { at: p.at, bytes: p.bytes } == p);
    assert forall|j: int| 0 <= j < all.len() implies (#[trigger] all[j]).bytes.len() > 0
        && !has_part(original, all[j]) && exists|k: int|
        0 <= k < n + 1 && #[trigger] part(w, k) == all[j] by {
        if j < spans.len() {
            assert(all[j] == spans[j]);
            let k = choose|k: int| 0 <= k < n && #[trigger] part(w, k) == spans[j];
            assert(part(w, k) == all[j]);
        } else {
            assert(part(w, n) == all[j]);
        }
    }
    assert forall|k: int|
        0 <= k < n + 1 && (#[trigger] part(w, k)).bytes.len() > 0 implies all.contains(part(w, k))
        || has_part(original, part(w, k)) by {
        if k < n {
            if spans.contains(part(w, k)) {
                let j = choose|j: int| 0 <= j < spans.len() && spans[j] == part(w, k);
                assert(all[j] == part(w, k));
            }
        } else if all == pushed {
            assert(all[spans.len() as int] == p);
        }
    }
}

proof fn lemma_with_sections(
    spans: Seq<SpanView>,
    w: ImageView,
    original: Seq<u8>,
    n: int,
)
    requires
        0 <= n <= w.shdrs.len(),
        w.wf(),
        spans_are(spans, w, original, 3),
        with_sections(spans, w, original, n) is Ok,
    ensures
        spans_are(with_sections(spans, w, original, n)->Ok_0, w, original, 3 + n),
        forall|i: int|
            0 <= i < n && (#[trigger] w.shdrs[i]).sh_type != sht::NOBITS ==> w.sections[i].len()
                == w.shdrs[i].size,
    decreases n,
{
    if n > 0 {
        lemma_with_sections(spans, w, original, n - 1);
        let before = with_sections(spans, w, original, n - 1)->Ok_0;
        lemma_with_part(before, w, original, 2 + n);
    }
}

/// What is written are the parts.
pub proof fn lemma_spans_are(w: ImageView, original: Seq<u8>)
    requires
        w.wf(),
        spans_of(w, original) is Ok,
    ensures
        spans_are(spans_of(w, original)->Ok_0, w, original, part_count(w)),
        ehdr_out(w.enc, w.ehdr, w.phdrs.len() as int, w.shdrs.len() as int) is Ok,
        phdrs_out(w.enc, w.phdrs, w.phdrs.len() as int) is Ok,
        shdrs_out(w.enc, w.shdrs, w.shdrs.len() as int) is Ok,
        forall|i: int|
            0 <= i < w.shdrs.len() && (#[trigger] w.shdrs[i]).sh_type != sht::NOBITS
                ==> w.sections[i].len() == w.shdrs[i].size,
{
    let s0 = Seq::<SpanView>::empty();
    assert(spans_are(s0, w, original, 0));
    lemma_with_part(s0, w, original, 0);
    let s1 = with_part(s0, original, 0, part(w, 0).bytes);
    lemma_with_part(s1, w, original, 1);
    let s2 = with_part(s1, original, w.ehdr.phoff, part(w, 1).bytes);
    lemma_with_part(s2, w, original, 2);
    let s3 = with_part(s2, original, w.ehdr.shoff, part(w, 2).bytes);
    lemma_with_sections(s3, w, original, w.shdrs.len() as int);
}

/// Every part is in the output in its place.
pub proof fn law_parts_written(w: ImageView, original: Seq<u8>, total: u64, k: int)
    requires
        w.wf(),
        placed(w, total as int),
        0 <= k < part_count(w),
        part(w, k).bytes.len() > 0,
    ensures
        written(w, original, total) matches Ok(out) ==> out.len() == total && part(w, k).end()
            <= total && out.subrange(part(w, k).at as int, part(w, k).end()) == part(w, k).bytes,
{
    lemma_part_written(w, original, total, k);
}

/// A part that is apart from what is changed is in the output in its place.
proof fn lemma_part_written(w: ImageView, original: Seq<u8>, total: u64, k: int)
    requires
        w.wf(),
        0 <= k < part_count(w),
        part(w, k).bytes.len() > 0,
        part(w, k).end() <= total || placeless(w, k),
        forall|b: int|
            0 <= b < part_count(w) && b != k ==> parts_apart(#[trigger] part(w, b), part(w, k))
                || has_part(original, part(w, b)),
    ensures
        written(w, original, total) matches Ok(out) ==> out.len() == total && part(w, k).end()
            <= total && out.subrange(part(w, k).at as int, part(w, k).end()) == part(w, k).bytes,
{
    if let Ok(out) = written(w, original, total) {
        let spans = spans_of(w, original)->Ok_0;
        let sorted = sort_spans(spans);
        let p = part(w, k);
        lemma_spans_are(w, original);
        assert forall|i: int| p.at <= i < p.end() implies #[trigger] out[i] == p.bytes[i - p.at] by {
            assert forall|j: int| 0 <= j < sorted.len() && covers(i)(#[trigger] sorted[j]) implies sorted[j]
                == p by {
                lemma_sort_contains(spans, sorted[j]);
                assert(sorted.contains(sorted[j]));
                let a = choose|a: int| 0 <= a < spans.len() && spans[a] == sorted[j];
                let b = choose|b: int| 0 <= b < part_count(w) && #[trigger] part(w, b) == spans[a];
                if b != k {
                    assert(parts_apart(part(w, b), part(w, k)));
                }
            }
            if spans.contains(p) {
                lemma_sort_contains(spans, p);
                let j = choose|j: int| 0 <= j < sorted.len() && sorted[j] == p;
                assert(covers(i)(sorted[j]));
                lemma_first_from(sorted, covers(i), 0);
                assert(first(sorted, covers(i)) is Some);
            } else {
                assert(has_part(original, p));
                assert(original.subrange(p.at as int, p.end())[i - p.at] == original[i]);
                lemma_first_from(sorted, covers(i), 0);
                if let Some(j) = first(sorted, covers(i)) {
                    lemma_sort_contains(spans, sorted[j]);
                    assert(sorted.contains(sorted[j]));
                    assert(sorted[j] == p);
                }
            }
        }
        assert(out.subrange(p.at as int, p.end()) =~= p.bytes);
    }
}

/// Entry `i` of an encoded table of program headers.
pub proof fn lemma_phdrs_out(enc: Encoding, phdrs: Seq<Phdr>, n: int)
    requires
        0 <= n <= phdrs.len(),
        phdrs_out(enc, phdrs, n) is Ok,
    ensures
        phdrs_out(enc, phdrs, n)->Ok_0.len() == n * phdr_len(enc.class),
        forall|i: int|
            0 <= i < n ==> phdr_out(enc, #[trigger] phdrs[i]) == Outcome::Ok(
                phdrs_out(enc, phdrs, n)->Ok_0.subrange(
                    i * phdr_len(enc.class),
                    (i + 1) * phdr_len(enc.class),
                ),
            ) && phdr_fits(enc.class, phdrs[i]),
    decreases n,
{
    let size = phdr_len(enc.class);
    if n > 0 {
        lemma_phdrs_out(enc, phdrs, n - 1);
        let before = phdrs_out(enc, phdrs, n - 1)->Ok_0;
        let b = phdr_out(enc, phdrs[n - 1])->Ok_0;
        law_phdr_reads_back(enc, phdrs[n - 1]);
        let all = before + b;
        assert((n - 1) * size + size == n * size) by (nonlinear_arith);
        assert forall|i: int| 0 <= i < n implies phdr_out(enc, #[trigger] phdrs[i]) == Outcome::Ok(
            all.subrange(i * size, (i + 1) * size),
        ) && phdr_fits(enc.class, phdrs[i]) by {
            assert(0 <= i * size && (i + 1) * size == i * size + size) by (nonlinear_arith)
                requires
                    0 <= i,
                    0 <= size,
            ;
            if i < n - 1 {
                assert((i + 1) * size <= (n - 1) * size) by (nonlinear_arith)
                    requires
                        i + 1 <= n - 1,
                        0 <= size,
                ;
                assert(all.subrange(i * size, (i + 1) * size) =~= before.subrange(
                    i * size,
                    (i + 1) * size,
                ));
            } else {
                assert(all.subrange(i * size, (i + 1) * size) =~= b);
            }
        }
    } else {
        assert(n * size == 0) by (nonlinear_arith)
            requires
                n == 0,
        ;
    }
}

/// Entry `i` of an encoded table of section headers.
pub proof fn lemma_shdrs_out(enc: Encoding, shdrs: Seq<Shdr>, n: int)
    requires
        0 <= n <= shdrs.len(),
        shdrs_out(enc, shdrs, n) is Ok,
    ensures
        shdrs_out(enc, shdrs, n)->Ok_0.len() == n * shdr_len(enc.class),
        forall|i: int|
            0 <= i < n ==> shdr_out(enc, #[trigger] shdrs[i]) == Outcome::Ok(
                shdrs_out(enc, shdrs, n)->Ok_0.subrange(
                    i * shdr_len(enc.class),
                    (i + 1) * shdr_len(enc.class),
                ),
            ) && shdr_fits(enc.class, shdrs[i]),
    decreases n,
{
    let size = shdr_len(enc.class);
    if n > 0 {
        lemma_shdrs_out(enc, shdrs, n - 1);
        let before = shdrs_out(enc, shdrs, n - 1)->Ok_0;
        let b = shdr_out(enc, shdrs[n - 1])->Ok_0;
        law_shdr_reads_back(enc, shdrs[n - 1]);
        let all = before + b;
        assert((n - 1) * size + size == n * size) by (nonlinear_arith);
        assert forall|i: int| 0 <= i < n implies shdr_out(enc, #[trigger] shdrs[i]) == Outcome::Ok(
            all.subrange(i * size, (i + 1) * size),
        ) && shdr_fits(enc.class, shdrs[i]) by {
            assert(0 <= i * size && (i + 1) * size == i * size + size) by (nonlinear_arith)
                requires
                    0 <= i,
                    0 <= size,
            ;
            if i < n - 1 {
                assert((i + 1) * size <= (n - 1) * size) by (nonlinear_arith)
                    requires
                        i + 1 <= n - 1,
                        0 <= size,
                ;
                assert(all.subrange(i * size, (i + 1) * size) =~= before.subrange(
                    i * size,
                    (i + 1) * size,
                ));
            } else {
                assert(all.subrange(i * size, (i + 1) * size) =~= b);
            }
        }
    } else {
        assert(n * size == 0) by (nonlinear_arith)
            requires
                n == 0,
        ;
    }
}

/// An encoded table of program headers reads back from where it stands.
proof fn lemma_phdr_table(out: Seq<u8>, enc: Encoding, off: int, phdrs: Seq<Phdr>, n: int)
    requires
        0 <= off,
        0 <= n <= phdrs.len(),
        out.len() <= usize::MAX,
        phdrs_out(enc, phdrs, phdrs.len() as int) matches Ok(b) && off + b.len() <= out.len()
            && out.subrange(off, (off + b.len()) as int) == b,
    ensures
        phdr_table(out, enc, off, n) == Outcome::<Seq<Phdr>>::Ok(phdrs.take(n)),
    decreases n,
{
    let size = phdr_len(enc.class);
    if n > 0 {
        lemma_phdr_table(out, enc, off, phdrs, n - 1);
        lemma_phdrs_out(enc, phdrs, phdrs.len() as int);
        let b = phdrs_out(enc, phdrs, phdrs.len() as int)->Ok_0;
        let i = n - 1;
        assert(0 <= i * size && (i + 1) * size == i * size + size) by (nonlinear_arith)
            requires
                0 <= i,
                0 <= size,
        ;
        assert((i + 1) * size <= phdrs.len() * size) by (nonlinear_arith)
            requires
                i + 1 <= phdrs.len(),
                0 <= size,
        ;
        let p = phdrs[i];
        law_phdr_reads_back(enc, p);
        assert(out.subrange(off + i * size, off + i * size + size) =~= b.subrange(
            i * size,
            (i + 1) * size,
        ));
        assert(phdrs.take(n - 1).push(p) =~= phdrs.take(n));
    } else {
        assert(phdrs.take(0) =~= Seq::empty());
    }
}

/// An encoded table of section headers reads back from where it stands.
proof fn lemma_shdr_table(out: Seq<u8>, enc: Encoding, off: int, shdrs: Seq<Shdr>, n: int)
    requires
        0 <= off,
        0 <= n <= shdrs.len(),
        out.len() <= usize::MAX,
        shdrs_out(enc, shdrs, shdrs.len() as int) matches Ok(b) && off + b.len() <= out.len()
            && out.subrange(off, (off + b.len()) as int) == b,
    ensures
        shdr_table(out, enc, off, n) == Outcome::<Seq<Shdr>>::Ok(shdrs.take(n)),
    decreases n,
{
    let size = shdr_len(enc.class);
    if n > 0 {
        lemma_shdr_table(out, enc, off, shdrs, n - 1);
        lemma_shdrs_out(enc, shdrs, shdrs.len() as int);
        let b = shdrs_out(enc, shdrs, shdrs.len() as int)->Ok_0;
        let i = n - 1;
        assert(0 <= i * size && (i + 1) * size == i * size + size) by (nonlinear_arith)
            requires
                0 <= i,
                0 <= size,
        ;
        assert((i + 1) * size <= shdrs.len() * size) by (nonlinear_arith)
            requires
                i + 1 <= shdrs.len(),
                0 <= size,
        ;
        let s = shdrs[i];
        law_shdr_reads_back(enc, s);
        assert(out.subrange(off + i * size, off + i * size + size) =~= b.subrange(
            i * size,
            (i + 1) * size,
        ));
        assert(shdrs.take(n - 1).push(s) =~= shdrs.take(n));
    } else {
        assert(shdrs.take(0) =~= Seq::empty());
    }
}

/// Whether the sections without file bytes have no contents, and those with have
/// as many as their headers say.
pub open spec fn contents_wf(w: ImageView) -> bool {
    forall|i: int|
        0 <= i < w.shdrs.len() ==> (#[trigger] w.sections[i]).len() == if w.shdrs[i].sh_type
            == sht::NOBITS {
            0
        } else {
            w.shdrs[i].size as int
        }
}

/// The end of the whole entries in a segment that holds the dynamic array.
pub open spec fn entries_end(enc: Encoding, p: Phdr) -> int {
    p.offset + (p.filesz as int - p.filesz as int % dyn_len(enc.class))
}

/// Whether the dynamic array can be read: it fills its section, or, without a
/// section, what its segment holds lies within the output.
pub open spec fn dynamic_wf(w: ImageView, total: int) -> bool {
    match w.dyn_idx() {
        Some(k) => w.shdrs[k].size as int % dyn_len(w.enc.class) == 0,
        None => match first(w.phdrs, segment_type(pt::DYNAMIC)) {
            Some(k) => entries_end(w.enc, w.phdrs[k]) <= total,
            None => true,
        },
    }
}

/// Whether the counts of the tables, and the index of the section names, fit in
/// the fields of the header.
pub open spec fn counts_wf(w: ImageView) -> bool {
    &&& w.phdrs.len() < PN_XNUM
    &&& w.shdrs.len() < SHN_LORESERVE
    &&& w.ehdr.shstrndx < SHN_LORESERVE
    &&& w.shdrs.len() > 0 || w.ehdr.shoff == 0
}

/// Whether the counts of the tables, and the index of the section names, are in the
/// fields of the header, or, where they do not fit, in section 0.
pub open spec fn counts_held(w: ImageView) -> bool {
    let long_phdrs = w.phdrs.len() >= PN_XNUM;
    let long_shdrs = w.shdrs.len() >= SHN_LORESERVE;
    let long_index = w.ehdr.shstrndx >= SHN_LORESERVE;
    &&& long_phdrs ==> w.shdrs.len() > 0 && w.shdrs[0].info == w.phdrs.len()
    &&& long_shdrs ==> w.shdrs[0].size == w.shdrs.len()
    &&& long_index ==> w.shdrs.len() > 0 && w.shdrs[0].link == w.ehdr.shstrndx
    &&& long_phdrs || long_shdrs || long_index ==> w.ehdr.shoff != 0
}

/// Whether a reader finds no section headers in a file of `total` bytes for an image
/// without them: the header says so, or the input has an empty section 0 where the
/// header says that they are, and nothing is written over it.
pub open spec fn absence_told(w: ImageView, original: Seq<u8>, total: int) -> bool {
    w.shdrs.len() > 0 || w.ehdr.shoff == 0 || {
        &&& original.len() <= total
        &&& bytes_at(
            original,
            w.ehdr.shoff as int,
            shdr_len(w.enc.class),
            "shdr0"@,
        ) matches Ok(b) && {
            &&& shdr_in(w.enc, b) matches Ok(s) && s.size == 0
            &&& forall|k: int|
                0 <= k < 2 ==> parts_apart(
                    #[trigger] part(w, k),
                    SpanView { at: w.ehdr.shoff, bytes: b },
                ) || has_part(original, part(w, k))
        }
    }
}

/// Where the input has an empty section 0, the output has it too.
proof fn lemma_absence_stays(w: ImageView, original: Seq<u8>, total: u64)
    requires
        w.wf(),
        w.shdrs.len() == 0,
        w.ehdr.shoff != 0,
        absence_told(w, original, total as int),
        total <= usize::MAX,
        written(w, original, total) is Ok,
    ensures
        bytes_at(
            written(w, original, total)->Ok_0,
            w.ehdr.shoff as int,
            shdr_len(w.enc.class),
            "shdr0"@,
        ) == bytes_at(original, w.ehdr.shoff as int, shdr_len(w.enc.class), "shdr0"@),
{
    let out = written(w, original, total)->Ok_0;
    let at = w.ehdr.shoff as int;
    let n = shdr_len(w.enc.class);
    let b = bytes_at(original, at, n, "shdr0"@)->Ok_0;
    let spans = spans_of(w, original)->Ok_0;
    lemma_spans_are(w, original);
    lemma_shdrs_out(w.enc, w.shdrs, 0);
    assert forall|i: int| at <= i < at + n implies out.len() == total && #[trigger] out[i]
        == original[i] by {
        assert forall|k: int| 0 <= k < spans.len() implies !covers(i)(#[trigger] spans[k]) by {
            let j = choose|j: int| 0 <= j < part_count(w) && #[trigger] part(w, j) == spans[k];
            assert(part(w, 2).bytes.len() == 0) by {
                assert(0 * shdr_len(w.enc.class) == 0);
            }
            assert(parts_apart(part(w, j), SpanView { at: w.ehdr.shoff, bytes: b }));
        }
        law_untouched(w, original, total, i);
    }
    assert(out[at] == original[at]);
    assert(out.subrange(at, at + n) =~= original.subrange(at, at + n));
}

/// The counts that were written are found again.
proof fn lemma_counts_back(w: ImageView, original: Seq<u8>, total: u64)
    requires
        w.wf(),
        counts_held(w),
        absence_told(w, original, total as int),
        tables_placed(w, original, total as int),
        total <= usize::MAX,
        written(w, original, total) is Ok,
    ensures
        ({
            let out = written(w, original, total)->Ok_0;
            let c = counts(w.ehdr.shstrndx, w.phdrs.len() as int, w.shdrs.len() as int);
            resolved(out, w.enc, EhdrView { shstrndx: c.2 as u32, ..w.ehdr }, c.0, c.1) == Outcome::<
                (EhdrView, u64, u64),
            >::Ok((w.ehdr, w.phdrs.len() as u64, w.shdrs.len() as u64))
        }),
{
    let out = written(w, original, total)->Ok_0;
    let c = counts(w.ehdr.shstrndx, w.phdrs.len() as int, w.shdrs.len() as int);
    let raw = EhdrView { shstrndx: c.2 as u32, ..w.ehdr };
    if w.shdrs.len() > 0 {
        lemma_tables_back(w, original, total);
        lemma_first_entry(out, w.enc, w.ehdr.shoff as int, w.shdrs.len() as int);
    } else if w.ehdr.shoff != 0 {
        lemma_absence_stays(w, original, total);
    }
    if w.ehdr.shstrndx >= SHN_LORESERVE {
        assert(EhdrView { shstrndx: w.ehdr.shstrndx, ..raw } =~= w.ehdr);
    } else {
        assert(raw =~= w.ehdr);
    }
}

/// The first entry of a table of section headers that was read.
proof fn lemma_first_entry(data: Seq<u8>, enc: Encoding, off: int, n: int)
    requires
        0 < n,
        shdr_table(data, enc, off, n) is Ok,
    ensures
        shdr_table(data, enc, off, n)->Ok_0.len() == n,
        bytes_at(data, off, shdr_len(enc.class), "shdr"@) matches Ok(b) && shdr_in(enc, b)
            == Outcome::<Shdr>::Ok(shdr_table(data, enc, off, n)->Ok_0[0]),
    decreases n,
{
    if n > 1 {
        lemma_first_entry(data, enc, off, n - 1);
    } else {
        assert((n - 1) * shdr_len(enc.class) == 0) by (nonlinear_arith)
            requires
                n == 1,
        ;
        assert(shdr_table(data, enc, off, 0) == Outcome::<Seq<Shdr>>::Ok(Seq::empty()));
    }
}

/// The dynamic array that a reader of `out` finds: in its section, or, without a
/// section, in its segment.
pub open spec fn dynamic_in(w: ImageView, out: Seq<u8>) -> Seq<DynEntry> {
    match w.dyn_idx() {
        Some(k) => dyn_entries(w.enc, w.sections[k]),
        None => match first(w.phdrs, segment_type(pt::DYNAMIC)) {
            Some(k) => dyn_array(
                out,
                w.enc,
                w.phdrs[k].offset as int,
                w.phdrs[k].filesz as int,
            )->Ok_0,
            None => Seq::empty(),
        },
    }
}

proof fn lemma_sections_back(out: Seq<u8>, w: ImageView, n: int)
    requires
        w.wf(),
        0 <= n <= w.shdrs.len(),
        out.len() <= usize::MAX,
        contents_wf(w),
        forall|i: int|
            0 <= i < w.shdrs.len() && (#[trigger] w.shdrs[i]).sh_type != sht::NOBITS
                ==> w.shdrs[i].offset + w.shdrs[i].size <= out.len() && out.subrange(
                w.shdrs[i].offset as int,
                w.shdrs[i].offset + w.shdrs[i].size,
            ) == w.sections[i],
    ensures
        section_bytes(out, w.shdrs, n) == Outcome::<Seq<Seq<u8>>>::Ok(w.sections.take(n)),
    decreases n,
{
    if n > 0 {
        lemma_sections_back(out, w, n - 1);
        let s = w.shdrs[n - 1];
        assert(w.sections[n - 1].len() == if s.sh_type == sht::NOBITS {
            0
        } else {
            s.size as int
        });
        if s.sh_type == sht::NOBITS {
            assert(w.sections[n - 1] =~= Seq::empty());
        }
        assert(w.sections.take(n - 1).push(w.sections[n - 1]) =~= w.sections.take(n));
    } else {
        assert(w.sections.take(0) =~= Seq::empty());
    }
}

/// What is in the output at the place of section `i`.
proof fn lemma_section_written(w: ImageView, original: Seq<u8>, total: u64, i: int)
    requires
        w.wf(),
        placed(w, total as int),
        contents_wf(w),
        0 <= i < w.shdrs.len(),
        w.shdrs[i].sh_type != sht::NOBITS,
        written(w, original, total) is Ok,
    ensures
        ({
            let out = written(w, original, total)->Ok_0;
            w.shdrs[i].offset + w.shdrs[i].size <= out.len() && out.subrange(
                w.shdrs[i].offset as int,
                w.shdrs[i].offset + w.shdrs[i].size,
            ) == w.sections[i]
        }),
{
    let out = written(w, original, total)->Ok_0;
    let p = part(w, i + 3);
    assert(w.sections[i].len() == w.shdrs[i].size as int);
    if p.bytes.len() > 0 {
        law_parts_written(w, original, total, i + 3);
    } else {
        assert(p.end() <= total);
        assert(out.subrange(p.at as int, p.at as int) =~= w.sections[i]);
    }
}

/// The header that was written reads back, with the counts that its fields hold.
proof fn lemma_raw_header_back(w: ImageView, original: Seq<u8>, total: u64)
    requires
        w.wf(),
        ident_wf(w.enc, w.ehdr),
        tables_placed(w, original, total as int),
        written(w, original, total) is Ok,
    ensures
        ({
            let out = written(w, original, total)->Ok_0;
            let c = counts(w.ehdr.shstrndx, w.phdrs.len() as int, w.shdrs.len() as int);
            &&& out.len() == total
            &&& ehdr_at(out) == Outcome::<(EhdrView, Encoding, u16, u16)>::Ok(
                (EhdrView { shstrndx: c.2 as u32, ..w.ehdr }, w.enc, c.0, c.1),
            )
        }),
{
    let out = written(w, original, total)->Ok_0;
    let n = w.phdrs.len() as int;
    let m = w.shdrs.len() as int;
    lemma_spans_are(w, original);
    lemma_header_len(w.enc.class, w.enc.endian, record_of(w.ehdr, n, m));
    let b = part(w, 0).bytes;
    assert(b.len() == header_len(w.enc.class));
    lemma_part_written(w, original, total, 0);
    assert(out.subrange(0, header_len(w.enc.class)) =~= out.take(header_len(w.enc.class)));
    law_ehdr_reads_back(w.enc, w.ehdr, n, m, out);
}

/// The header that was written reads back.
pub proof fn lemma_header_back(w: ImageView, original: Seq<u8>, total: u64)
    requires
        w.wf(),
        ident_wf(w.enc, w.ehdr),
        counts_wf(w),
        tables_placed(w, original, total as int),
        written(w, original, total) is Ok,
    ensures
        ({
            let out = written(w, original, total)->Ok_0;
            &&& out.len() == total
            &&& ehdr_at(out) == Outcome::<(EhdrView, Encoding, u16, u16)>::Ok(
                (w.ehdr, w.enc, w.phdrs.len() as u16, w.shdrs.len() as u16),
            )
            &&& resolved(
                out,
                w.enc,
                w.ehdr,
                w.phdrs.len() as u16,
                w.shdrs.len() as u16,
            ) == Outcome::<(EhdrView, u64, u64)>::Ok(
                (w.ehdr, w.phdrs.len() as u64, w.shdrs.len() as u64),
            )
        }),
{
    let n = w.phdrs.len() as int;
    let m = w.shdrs.len() as int;
    lemma_raw_header_back(w, original, total);
    assert(EhdrView { shstrndx: counts(w.ehdr.shstrndx, n, m).2 as u32, ..w.ehdr } =~= w.ehdr);
}

/// The tables that were written read back.
proof fn lemma_tables_back(w: ImageView, original: Seq<u8>, total: u64)
    requires
        w.wf(),
        tables_placed(w, original, total as int),
        total <= usize::MAX,
        written(w, original, total) is Ok,
    ensures
        ({
            let out = written(w, original, total)->Ok_0;
            &&& phdr_table(out, w.enc, w.ehdr.phoff as int, w.phdrs.len() as int) == Outcome::<
                Seq<Phdr>,
            >::Ok(w.phdrs)
            &&& shdr_table(out, w.enc, w.ehdr.shoff as int, w.shdrs.len() as int) == Outcome::<
                Seq<Shdr>,
            >::Ok(w.shdrs)
        }),
{
    let out = written(w, original, total)->Ok_0;
    lemma_spans_are(w, original);
    let n = w.phdrs.len() as int;
    let m = w.shdrs.len() as int;
    lemma_phdrs_out(w.enc, w.phdrs, n);
    lemma_shdrs_out(w.enc, w.shdrs, m);
    if n > 0 {
        assert(n * phdr_len(w.enc.class) > 0) by (nonlinear_arith)
            requires
                n > 0,
                phdr_len(w.enc.class) > 0,
        ;
        lemma_part_written(w, original, total, 1);
        lemma_phdr_table(out, w.enc, w.ehdr.phoff as int, w.phdrs, n);
        assert(w.phdrs.take(n) =~= w.phdrs);
    } else {
        assert(w.phdrs =~= Seq::empty());
    }
    if m > 0 {
        assert(m * shdr_len(w.enc.class) > 0) by (nonlinear_arith)
            requires
                m > 0,
                shdr_len(w.enc.class) > 0,
        ;
        lemma_part_written(w, original, total, 2);
        lemma_shdr_table(out, w.enc, w.ehdr.shoff as int, w.shdrs, m);
        assert(w.shdrs.take(m) =~= w.shdrs);
    } else {
        assert(w.shdrs =~= Seq::empty());
    }
}

/// Sections within a file can be read.
proof fn lemma_sections_ok(out: Seq<u8>, shdrs: Seq<Shdr>, n: int)
    requires
        0 <= n <= shdrs.len(),
        out.len() <= usize::MAX,
        forall|i: int|
            0 <= i < shdrs.len() && (#[trigger] shdrs[i]).sh_type != sht::NOBITS
                ==> shdrs[i].offset + shdrs[i].size <= out.len(),
    ensures
        section_bytes(out, shdrs, n) is Ok,
    decreases n,
{
    if n > 0 {
        lemma_sections_ok(out, shdrs, n - 1);
        assert(shdrs[n - 1].sh_type == sht::NOBITS || shdrs[n - 1].offset + shdrs[n - 1].size
            <= out.len());
    }
}

/// An image that was written can be read, and its header and tables read back as
/// they were, also where sections share bytes.
pub proof fn law_output_is_read(w: ImageView, original: Seq<u8>, total: u64)
    requires
        w.wf(),
        ident_wf(w.enc, w.ehdr),
        counts_held(w),
        absence_told(w, original, total as int),
        dynamic_wf(w, total as int),
        tables_placed(w, original, total as int),
        total <= usize::MAX,
    ensures
        written(w, original, total) matches Ok(out) ==> (parsed(out) matches Ok(x) && x.enc == w.enc
            && x.ehdr == w.ehdr && x.phdrs == w.phdrs && x.shdrs == w.shdrs),
{
    if let Ok(out) = written(w, original, total) {
        lemma_spans_are(w, original);
        lemma_raw_header_back(w, original, total);
        lemma_counts_back(w, original, total);
        lemma_tables_back(w, original, total);
        assert forall|i: int|
            0 <= i < w.shdrs.len() && (#[trigger] w.shdrs[i]).sh_type
                != sht::NOBITS implies w.shdrs[i].offset + w.shdrs[i].size <= out.len() by {
            assert(part(w, i + 3).end() <= total);
        }
        lemma_sections_ok(out, w.shdrs, w.shdrs.len() as int);
        lemma_first_from(w.shdrs, section_type(sht::DYNAMIC), 0);
        lemma_first_from(w.phdrs, segment_type(pt::DYNAMIC), 0);
    }
}

/// An image that was written reads back as it was: header, tables and sections,
/// with the dynamic array that they hold.
pub proof fn law_output_reads_back(w: ImageView, original: Seq<u8>, total: u64)
    requires
        w.wf(),
        ident_wf(w.enc, w.ehdr),
        counts_wf(w),
        contents_wf(w),
        dynamic_wf(w, total as int),
        placed(w, total as int),
        total <= usize::MAX,
    ensures
        written(w, original, total) matches Ok(out) ==> parsed(out) == Outcome::<ImageView>::Ok(
            ImageView {
                dynamic: dynamic_in(w, out),
                dynstr_fallback: dynstr_of(out, w.phdrs, w.shdrs, dynamic_in(w, out)),
                interp_fallback: interp_of(out, w.phdrs),
                ..w
            },
        ),
{
    if let Ok(out) = written(w, original, total) {
        lemma_header_back(w, original, total);
        lemma_tables_back(w, original, total);
        assert forall|i: int|
            0 <= i < w.shdrs.len() && (#[trigger] w.shdrs[i]).sh_type
                != sht::NOBITS implies w.shdrs[i].offset + w.shdrs[i].size <= out.len()
            && out.subrange(w.shdrs[i].offset as int, w.shdrs[i].offset + w.shdrs[i].size)
            == w.sections[i] by {
            lemma_section_written(w, original, total, i);
        }
        let m = w.shdrs.len() as int;
        lemma_sections_back(out, w, m);
        assert(w.sections.take(m) =~= w.sections);
        lemma_first_from(w.shdrs, section_type(sht::DYNAMIC), 0);
        if let Some(k) = w.dyn_idx() {
            lemma_section_written(w, original, total, k);
        } else if let Some(k) = first(w.phdrs, segment_type(pt::DYNAMIC)) {
            let n = w.phdrs[k].filesz as int;
            vstd::arithmetic::div_mod::lemma_mod_bound(n, dyn_len(w.enc.class));
            vstd::arithmetic::div_mod::lemma_mod_decreases(n as nat, dyn_len(w.enc.class) as nat);
        }
    }
}

} // verus!
