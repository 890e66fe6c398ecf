//! Render the output file: the file header, the two header tables and the
//! sections, each at the offset that the layout engine assigned. What none of
//! them covers comes verbatim from the input, so unchanged bytes survive without
//! being enumerated; what is past the input's end is zero. Overlapping parts
//! signal an inconsistent layout and are refused.
use vstd::prelude::*;

use crate::codec::{
    appended, ehdr_out, encoded, phdr_out, shdr_out, write_ehdr, write_phdr, write_shdr,
};
use crate::error::{Error, ErrorView, Outcome, Result};
use crate::ir::{sht, ElfImage, Encoding, ImageView, Phdr, Shdr};
use crate::parser::copy_bytes;
use crate::seqs::{first, lemma_first_is, lemma_first_none};
use crate::text::{concat, concat3, radix_text, same_bytes, to_radix};

verus! {

/// A part of the output that differs from the input, placed at `at`.
pub struct Span {
    pub at: u64,
    pub bytes: Vec<u8>,
}

/// A [`Span`] with its bytes as a sequence.
#[verifier::ext_equal]
pub struct SpanView {
    pub at: u64,
    pub bytes: Seq<u8>,
}

impl View for Span {
    type V = SpanView;

    open spec fn view(&self) -> SpanView {
        SpanView { at: self.at, bytes: self.bytes@ }
    }
}

impl SpanView {
    /// One past the last position of the span.
    pub open spec fn end(self) -> int {
        self.at + self.bytes.len()
    }
}

pub open spec fn span_views(v: Seq<Span>) -> Seq<SpanView> {
    Seq::new(v.len(), |i: int| v[i]@)
}

/// The spans with one more part, unless the part is empty or the input already
/// has it in its place.
pub open spec fn with_part(
    spans: Seq<SpanView>,
    original: Seq<u8>,
    at: u64,
    bytes: Seq<u8>,
) -> Seq<SpanView> {
    if bytes.len() == 0 || at + bytes.len() <= original.len() && original.subrange(
        at as int,
        at + bytes.len(),
    ) == bytes {
        spans
    } else {
        spans.push(SpanView { at, bytes })
    }
}

/// Bytes of the first `n` program headers.
pub open spec fn phdrs_out(enc: Encoding, phdrs: Seq<Phdr>, n: int) -> Outcome<Seq<u8>>
    decreases n,
{
    if n <= 0 {
        Ok(Seq::empty())
    } else {
        match (phdrs_out(enc, phdrs, n - 1), phdr_out(enc, phdrs[n - 1])) {
            (Err(e), _) => Err(e),
            (_, Err(e)) => Err(e),
            (Ok(t), Ok(b)) => Ok(t + b),
        }
    }
}

/// Bytes of the first `n` section headers.
pub open spec fn shdrs_out(enc: Encoding, shdrs: Seq<Shdr>, n: int) -> Outcome<Seq<u8>>
    decreases n,
{
    if n <= 0 {
        Ok(Seq::empty())
    } else {
        match (shdrs_out(enc, shdrs, n - 1), shdr_out(enc, shdrs[n - 1])) {
            (Err(e), _) => Err(e),
            (_, Err(e)) => Err(e),
            (Ok(t), Ok(b)) => Ok(t + b),
        }
    }
}

proof fn lemma_phdrs_out_err(enc: Encoding, phdrs: Seq<Phdr>, i: int, n: int)
    requires
        i <= n,
        phdrs_out(enc, phdrs, i) is Err,
    ensures
        phdrs_out(enc, phdrs, n) == phdrs_out(enc, phdrs, i),
    decreases n - i,
{
    if i < n {
        lemma_phdrs_out_err(enc, phdrs, i, n - 1);
    }
}

proof fn lemma_shdrs_out_err(enc: Encoding, shdrs: Seq<Shdr>, i: int, n: int)
    requires
        i <= n,
        shdrs_out(enc, shdrs, i) is Err,
    ensures
        shdrs_out(enc, shdrs, n) == shdrs_out(enc, shdrs, i),
    decreases n - i,
{
    if i < n {
        lemma_shdrs_out_err(enc, shdrs, i, n - 1);
    }
}

/// What a section whose contents and header disagree on its size fails with.
pub open spec fn size_mismatch(len: int, size: u64) -> ErrorView {
    ErrorView::Serialize(
        "section size "@ + radix_text(len, 10) + " != header "@ + radix_text(size as int, 10)
            + "; layout not applied"@,
    )
}

/// The spans with the first `n` sections added.
pub open spec fn with_sections(
    spans: Seq<SpanView>,
    image: ImageView,
    original: Seq<u8>,
    n: int,
) -> Outcome<Seq<SpanView>>
    decreases n,
{
    if n <= 0 {
        Ok(spans)
    } else {
        match with_sections(spans, image, original, n - 1) {
            Err(e) => Err(e),
            Ok(t) => {
                let s = image.shdrs[n - 1];
                let data = image.sections[n - 1];
                if s.sh_type == sht::NOBITS {
                    Ok(t)
                } else if data.len() != s.size {
                    Err(size_mismatch(data.len() as int, s.size))
                } else {
                    Ok(with_part(t, original, s.offset, data))
                }
            },
        }
    }
}

proof fn lemma_with_sections_err(
    spans: Seq<SpanView>,
    image: ImageView,
    original: Seq<u8>,
    i: int,
    n: int,
)
    requires
        i <= n,
        with_sections(spans, image, original, i) is Err,
    ensures
        with_sections(spans, image, original, n) == with_sections(spans, image, original, i),
    decreases n - i,
{
    if i < n {
        lemma_with_sections_err(spans, image, original, i, n - 1);
    }
}

/// The parts of the output that differ from the input: header, program header
/// table, section header table, sections, in this order.
pub open spec fn spans_of(image: ImageView, original: Seq<u8>) -> Outcome<Seq<SpanView>> {
    match ehdr_out(image.enc, image.ehdr, image.phdrs.len() as int, image.shdrs.len() as int) {
        Err(e) => Err(e),
        Ok(ehdr) => match phdrs_out(image.enc, image.phdrs, image.phdrs.len() as int) {
            Err(e) => Err(e),
            Ok(pht) => match shdrs_out(image.enc, image.shdrs, image.shdrs.len() as int) {
                Err(e) => Err(e),
                Ok(sht) => {
                    let s0 = with_part(Seq::empty(), original, 0, ehdr);
                    let s1 = with_part(s0, original, image.ehdr.phoff, pht);
                    let s2 = with_part(s1, original, image.ehdr.shoff, sht);
                    with_sections(s2, image, original, image.shdrs.len() as int)
                },
            },
        },
    }
}

fn push_part(spans: &mut Vec<Span>, original: &[u8], at: u64, bytes: Vec<u8>)
    ensures
        span_views(final(spans)@) == with_part(span_views(old(spans)@), original@, at, bytes@),
{
    if bytes.is_empty() {
        return;
    }
    if at <= original.len() as u64 && bytes.len() <= original.len() - at as usize {
        let a = at as usize;
        if same_bytes(&original[a..a + bytes.len()], bytes.as_slice()) {
            return;
        }
    }
    let ghost before = span_views(spans@);
    spans.push(Span { at, bytes });
    assert(span_views(spans@) =~= before.push(SpanView { at, bytes: bytes@ }));
}

fn encode_phdrs(enc: Encoding, phdrs: &Vec<Phdr>) -> (res: Result<Vec<u8>>)
    ensures
        match res {
            Ok(v) => phdrs_out(enc, phdrs@, phdrs@.len() as int) == Outcome::Ok(v@),
            Err(e) => phdrs_out(enc, phdrs@, phdrs@.len() as int) == Outcome::<Seq<u8>>::Err(e@),
        },
{
    let mut out: Vec<u8> = Vec::new();
    let mut i: usize = 0;
    assert(out@ =~= Seq::empty());
    while i < phdrs.len()
        invariant
            i <= phdrs@.len(),
            phdrs_out(enc, phdrs@, i as int) == Outcome::Ok(out@),
        decreases phdrs@.len() - i,
    {
        match write_phdr(enc, &phdrs[i], &mut out) {
            Ok(_) => {},
            Err(e) => {
                proof {
                    lemma_phdrs_out_err(enc, phdrs@, i + 1, phdrs@.len() as int);
                }
                return Err(e);
            },
        }
        i += 1;
    }
    Ok(out)
}

fn encode_shdrs(enc: Encoding, shdrs: &Vec<Shdr>) -> (res: Result<Vec<u8>>)
    ensures
        match res {
            Ok(v) => shdrs_out(enc, shdrs@, shdrs@.len() as int) == Outcome::Ok(v@),
            Err(e) => shdrs_out(enc, shdrs@, shdrs@.len() as int) == Outcome::<Seq<u8>>::Err(e@),
        },
{
    let mut out: Vec<u8> = Vec::new();
    let mut i: usize = 0;
    assert(out@ =~= Seq::empty());
    while i < shdrs.len()
        invariant
            i <= shdrs@.len(),
            shdrs_out(enc, shdrs@, i as int) == Outcome::Ok(out@),
        decreases shdrs@.len() - i,
    {
        match write_shdr(enc, &shdrs[i], &mut out) {
            Ok(_) => {},
            Err(e) => {
                proof {
                    lemma_shdrs_out_err(enc, shdrs@, i + 1, shdrs@.len() as int);
                }
                return Err(e);
            },
        }
        i += 1;
    }
    Ok(out)
}

/// Encode the headers and the sections into placed spans. A part that the input
/// already has in its place is dropped, so the spans are what changes.
fn owned_spans(image: &ElfImage, original: &[u8]) -> (res: Result<Vec<Span>>)
    requires
        image@.wf(),
    ensures
        match res {
            Ok(v) => spans_of(image@, original@) == Outcome::Ok(span_views(v@)),
            Err(e) => spans_of(image@, original@) == Outcome::<Seq<SpanView>>::Err(e@),
        },
{
    let mut spans: Vec<Span> = Vec::new();
    let mut ehdr: Vec<u8> = Vec::new();
    write_ehdr(image.enc, &image.ehdr, image.phdrs.len(), image.shdrs.len(), &mut ehdr)?;
    assert(Seq::<u8>::empty() + ehdr_out(
        image@.enc,
        image@.ehdr,
        image@.phdrs.len() as int,
        image@.shdrs.len() as int,
    )->Ok_0 =~= ehdr@);
    let pht = encode_phdrs(image.enc, &image.phdrs)?;
    let sht = encode_shdrs(image.enc, &image.shdrs)?;
    assert(span_views(spans@) =~= Seq::empty());
    push_part(&mut spans, original, 0, ehdr);
    push_part(&mut spans, original, image.ehdr.phoff, pht);
    push_part(&mut spans, original, image.ehdr.shoff, sht);
    let ghost start = span_views(spans@);
    let mut i: usize = 0;
    while i < image.shdrs.len()
        invariant
            image@.wf(),
            i <= image.shdrs@.len(),
            spans_of(image@, original@) == with_sections(
                start,
                image@,
                original@,
                image@.shdrs.len() as int,
            ),
            with_sections(start, image@, original@, i as int) == Outcome::Ok(span_views(spans@)),
        decreases image.shdrs@.len() - i,
    {
        let s = image.shdrs[i];
        assert(image@.sections[i as int] == image.section_data@[i as int]@);
        if s.sh_type != sht::NOBITS {
            let len = image.section_data[i].len();
            if len as u64 != s.size {
                proof {
                    lemma_with_sections_err(
                        start,
                        image@,
                        original@,
                        i + 1,
                        image@.shdrs.len() as int,
                    );
                }
                let head = concat3(
                    "section size ",
                    to_radix(len as u64, 10).as_str(),
                    " != header ",
                );
                return Err(
                    Error::Serialize(
                        concat3(
                            head.as_str(),
                            to_radix(s.size, 10).as_str(),
                            "; layout not applied",
                        ),
                    ),
                );
            }
            push_part(
                &mut spans,
                original,
                s.offset,
                copy_bytes(image.section_data[i].as_slice()),
            );
        }
        i += 1;
    }
    Ok(spans)
}

/// `spans`, in ascending order of position, with `x` put behind those that do
/// not come after it.
pub open spec fn insert_span(spans: Seq<SpanView>, x: SpanView) -> Seq<SpanView>
    decreases spans.len(),
{
    if spans.len() == 0 || spans.last().at <= x.at {
        spans.push(x)
    } else {
        insert_span(spans.drop_last(), x).push(spans.last())
    }
}

/// `spans` in ascending order of position, equals in the order they had.
pub open spec fn sort_spans(spans: Seq<SpanView>) -> Seq<SpanView>
    decreases spans.len(),
{
    if spans.len() == 0 {
        spans
    } else {
        insert_span(sort_spans(spans.drop_last()), spans.last())
    }
}

/// Inserting keeps what is before the position and moves the rest up.
proof fn lemma_insert_span(spans: Seq<SpanView>, x: SpanView, p: int)
    requires
        0 <= p <= spans.len(),
        p > 0 ==> spans[p - 1].at <= x.at,
        forall|j: int| p <= j < spans.len() ==> (#[trigger] spans[j]).at > x.at,
    ensures
        insert_span(spans, x) == spans.insert(p, x),
    decreases spans.len(),
{
    if p < spans.len() {
        lemma_insert_span(spans.drop_last(), x, p);
        assert(spans.drop_last().insert(p, x).push(spans.last()) =~= spans.insert(p, x));
    } else {
        assert(spans.push(x) =~= spans.insert(p, x));
    }
}

fn sort(spans: Vec<Span>) -> (out: Vec<Span>)
    ensures
        span_views(out@) == sort_spans(span_views(spans@)),
{
    let ghost all = span_views(spans@);
    let mut out: Vec<Span> = Vec::new();
    let mut i: usize = 0;
    assert(span_views(out@) =~= all.take(0));
    while i < spans.len()
        invariant
            all == span_views(spans@),
            i <= spans@.len(),
            span_views(out@) == sort_spans(all.take(i as int)),
        decreases spans@.len() - i,
    {
        let x = Span { at: spans[i].at, bytes: copy_bytes(spans[i].bytes.as_slice()) };
        let ghost before = span_views(out@);
        let mut p: usize = out.len();
        while p > 0 && out[p - 1].at > x.at
            invariant
                p <= out@.len(),
                forall|j: int| p <= j < out@.len() ==> (#[trigger] out@[j]).at > x.at,
            decreases p,
        {
            p -= 1;
        }
        proof {
            assert forall|j: int| p <= j < before.len() implies (#[trigger] before[j]).at > x.at by {
                assert(out@[j].at > x.at);
            }
            lemma_insert_span(before, x@, p as int);
            assert(all.take(i + 1).drop_last() =~= all.take(i as int));
            assert(all.take(i + 1).last() == x@);
        }
        out.insert(p, x);
        assert(span_views(out@) =~= before.insert(p as int, x@));
        i += 1;
    }
    assert(all.take(all.len() as int) =~= all);
    out
}

/// What a span that starts inside an earlier one fails with.
pub open spec fn overlap_fault(s: SpanView) -> ErrorView {
    ErrorView::Serialize("overlapping span at offset "@ + radix_text(s.at as int, 10))
}

/// What a span that reaches past the end of the output fails with.
pub open spec fn past_end_fault(s: SpanView, total: u64) -> ErrorView {
    ErrorView::Serialize(
        "span at "@ + radix_text(s.at as int, 10) + " extends past file end "@ + radix_text(
            total as int,
            10,
        ),
    )
}

/// The first fault among the spans from `k` on, the ones before ending at `cur`.
pub open spec fn fault_from(spans: Seq<SpanView>, k: int, cur: int, total: u64) -> Option<ErrorView>
    decreases spans.len() - k,
{
    if k < 0 || k >= spans.len() {
        None
    } else if spans[k].at < cur {
        Some(overlap_fault(spans[k]))
    } else if spans[k].end() > total {
        Some(past_end_fault(spans[k], total))
    } else {
        fault_from(spans, k + 1, spans[k].end(), total)
    }
}

/// Whether a span covers position `i`.
pub open spec fn covers(i: int) -> spec_fn(SpanView) -> bool {
    |s: SpanView| s.at <= i < s.end()
}

/// The byte at position `i` of the output: that of the span that covers it,
/// else that of the input, else zero.
pub open spec fn byte_at(spans: Seq<SpanView>, original: Seq<u8>, i: int) -> u8 {
    match first(spans, covers(i)) {
        Some(k) => spans[k].bytes[i - spans[k].at],
        None => if i < original.len() {
            original[i]
        } else {
            0
        },
    }
}

/// The first `n` bytes of the output.
pub open spec fn rendered(spans: Seq<SpanView>, original: Seq<u8>, n: int) -> Seq<u8> {
    Seq::new(n as nat, |i: int| byte_at(spans, original, i))
}

/// The output of `total` bytes for `image`, made from the file `original`.
pub open spec fn written(image: ImageView, original: Seq<u8>, total: u64) -> Outcome<Seq<u8>> {
    match spans_of(image, original) {
        Err(e) => Err(e),
        Ok(spans) => {
            let sorted = sort_spans(spans);
            match fault_from(sorted, 0, 0, total) {
                Some(e) => Err(e),
                None => Ok(rendered(sorted, original, total as int)),
            }
        },
    }
}

/// Spans without a fault from `k` on are in order, apart, and within the output.
pub proof fn lemma_no_fault(spans: Seq<SpanView>, k: int, cur: int, total: u64)
    requires
        0 <= k,
        fault_from(spans, k, cur, total) is None,
    ensures
        forall|j: int|
            k <= j < spans.len() ==> cur <= (#[trigger] spans[j]).at && spans[j].end() <= total,
        forall|i: int, j: int|
            k <= i < j < spans.len() ==> (#[trigger] spans[i]).end() <= (#[trigger] spans[j]).at,
    decreases spans.len() - k,
{
    if k < spans.len() {
        lemma_no_fault(spans, k + 1, spans[k].end(), total);
    }
}

fn check_spans(spans: &Vec<Span>, total: u64) -> (res: Result<()>)
    ensures
        match res {
            Ok(_) => fault_from(span_views(spans@), 0, 0, total) is None,
            Err(e) => fault_from(span_views(spans@), 0, 0, total) == Some(e@),
        },
{
    let mut cur: u64 = 0;
    let mut k: usize = 0;
    let ghost views = span_views(spans@);
    while k < spans.len()
        invariant
            views == span_views(spans@),
            k <= spans@.len(),
            cur <= total,
            fault_from(views, 0, 0, total) == fault_from(views, k as int, cur as int, total),
        decreases spans@.len() - k,
    {
        assert(views[k as int] == spans@[k as int]@);
        let at = spans[k].at;
        if at < cur {
            return Err(
                Error::Serialize(concat("overlapping span at offset ", to_radix(at, 10).as_str())),
            );
        }
        if at > total || spans[k].bytes.len() as u64 > total - at {
            let head = concat3("span at ", to_radix(at, 10).as_str(), " extends past file end ");
            return Err(Error::Serialize(concat(head.as_str(), to_radix(total, 10).as_str())));
        }
        cur = at + spans[k].bytes.len() as u64;
        k += 1;
    }
    Ok(())
}

/// Append the bytes at positions `from..to` from the input, zero past its end.
fn fill(original: &[u8], from: u64, to: u64, out: &mut Vec<u8>)
    requires
        from <= to,
    ensures
        final(out)@ == old(out)@ + Seq::new(
            (to - from) as nat,
            |i: int|
                if from + i < original@.len() {
                    original@[from + i]
                } else {
                    0u8
                },
        ),
{
    let ghost piece = |n: int|
        Seq::new(
            n as nat,
            |i: int|
                if from + i < original@.len() {
                    original@[from + i]
                } else {
                    0u8
                },
        );
    let mut at: u64 = from;
    assert(out@ =~= old(out)@ + piece(0));
    while at < to
        invariant
            from <= at <= to,
            piece == |n: int|
                Seq::new(
                    n as nat,
                    |i: int|
                        if from + i < original@.len() {
                            original@[from + i]
                        } else {
                            0u8
                        },
                ),
            out@ == old(out)@ + piece(at - from),
        decreases to - at,
    {
        let b: u8 = if at < original.len() as u64 {
            original[at as usize]
        } else {
            0
        };
        out.push(b);
        at += 1;
        assert(out@ =~= old(out)@ + piece(at - from));
    }
}

/// Append the output front to back: changed spans at their offsets, the input's
/// bytes, or zero past its end, in between. A refused image appends nothing.
pub fn write_to(
    image: &ElfImage,
    original: &[u8],
    total: u64,
    out: &mut Vec<u8>,
) -> (res: Result<()>)
    requires
        image@.wf(),
    ensures
        final(out)@ == appended(old(out)@, written(image@, original@, total)),
        encoded(res, written(image@, original@, total)),
{
    let spans = sort(owned_spans(image, original)?);
    check_spans(&spans, total)?;
    let ghost views = span_views(spans@);
    proof {
        lemma_no_fault(views, 0, 0, total);
    }
    let ghost start = out@;
    let mut cur: u64 = 0;
    let mut k: usize = 0;
    assert(out@ =~= start + rendered(views, original@, 0));
    while k < spans.len()
        invariant
            views == span_views(spans@),
            k <= spans@.len(),
            cur <= total,
            forall|j: int|
                0 <= j < views.len() ==> (#[trigger] views[j]).end() <= total,
            forall|i: int, j: int|
                0 <= i < j < views.len() ==> (#[trigger] views[i]).end() <= (#[trigger] views[j]).at,
            forall|j: int| 0 <= j < k ==> (#[trigger] views[j]).end() <= cur,
            forall|j: int| k <= j < views.len() ==> (#[trigger] views[j]).at >= cur,
            out@ == start + rendered(views, original@, cur as int),
        decreases spans@.len() - k,
    {
        let ghost v = views[k as int];
        assert(v == spans@[k as int]@);
        let ghost before = out@;
        fill(original, cur, spans[k].at, out);
        out.extend_from_slice(spans[k].bytes.as_slice());
        proof {
            assert forall|i: int| cur <= i < v.at implies first(views, covers(i)) is None by {
                lemma_first_none(views, covers(i), 0);
            }
            assert forall|i: int| v.at <= i < v.end() implies first(views, covers(i)) == Some(
                k as int,
            ) by {
                lemma_first_is(views, covers(i), 0, k as int);
            }
            assert(out@ =~= start + rendered(views, original@, v.end()));
        }
        cur = spans[k].at + spans[k].bytes.len() as u64;
        k += 1;
    }
    let ghost before = out@;
    fill(original, cur, total, out);
    proof {
        assert forall|i: int| cur <= i < total implies first(views, covers(i)) is None by {
            lemma_first_none(views, covers(i), 0);
        }
        assert(out@ =~= start + rendered(views, original@, total as int));
    }
    Ok(())
}

/// What an output too large to be held in memory fails with.
pub open spec fn too_large(total: u64) -> ErrorView {
    ErrorView::Serialize("output of "@ + radix_text(total as int, 10) + " bytes is too large"@)
}

/// The output as one buffer. No buffer holds more than `isize::MAX` bytes.
pub open spec fn written_whole(
    image: ImageView,
    original: Seq<u8>,
    total: u64,
) -> Outcome<Seq<u8>> {
    if total > isize::MAX {
        Err(too_large(total))
    } else {
        written(image, original, total)
    }
}

/// Collect the output into a buffer.
pub fn write(image: &ElfImage, original: &[u8], total: u64) -> (res: Result<Vec<u8>>)
    requires
        image@.wf(),
    ensures
        match res {
            Ok(v) => written_whole(image@, original@, total) == Outcome::Ok(v@),
            Err(e) => written_whole(image@, original@, total) == Outcome::<Seq<u8>>::Err(e@),
        },
{
    if total > isize::MAX as u64 {
        return Err(
            Error::Serialize(
                concat3("output of ", to_radix(total, 10).as_str(), " bytes is too large"),
            ),
        );
    }
    let mut out: Vec<u8> = Vec::new();
    write_to(image, original, total, &mut out)?;
    assert(out@ =~= written(image@, original@, total)->Ok_0);
    Ok(out)
}

} // verus!
