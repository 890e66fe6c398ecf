//! What one pass over a file leaves for the next.
use vstd::prelude::*;

use crate::codec::PN_XNUM;
use crate::constraints::violation;
use crate::error::Outcome;
use crate::ir::{pt, section_type, segment_type, sht, ImageView};
use crate::laws::dynamic::{
    ended, law_dynamic_reads_back, law_sync_unchanged, lemma_dyns_out, lemma_entries_write_back,
    tags_fit, tail_clear,
};
use crate::laws::files::{canonical, law_identity, lemma_parsed, lemma_sections_read, section_read};
use crate::laws::output::{
    contents_wf, counts_wf, dynamic_in, law_output_reads_back, lemma_header_back, lemma_spans_are,
    placed,
};
use crate::layout::{dyns_out, emitted, finalized, grown, grown_count, padded, synced};
use crate::parser::{dyn_entries, dynstr_of, interp_of, parsed, section_bytes};
use crate::raw::dyn_len;
use crate::roundtrip::ident_wf;
use crate::seqs::{first, lemma_first_from};
use crate::serialize::{spans_of, written};

verus! {

proof fn lemma_none_grown(v: ImageView, n: int)
    requires
        0 <= n <= v.shdrs.len(),
        forall|i: int| 0 <= i < v.shdrs.len() ==> !#[trigger] grown(v, i),
    ensures
        grown_count(v, n) == 0,
    decreases n,
{
    if n > 0 {
        lemma_none_grown(v, n - 1);
        assert(!grown(v, n - 1));
    }
}

/// Nothing has grown in a file that was just read.
pub proof fn lemma_fresh(data: Seq<u8>)
    requires
        parsed(data) is Ok,
    ensures
        ({
            let v = parsed(data)->Ok_0;
            &&& grown_count(v, v.shdrs.len() as int) == 0
            &&& contents_wf(v)
            &&& v.dyn_idx() matches Some(k) ==> 0 <= k < v.shdrs.len() && v.sections[k].len()
                == v.shdrs[k].size && v.dynamic == dyn_entries(v.enc, v.sections[k])
                && v.shdrs[k].size as int % dyn_len(v.enc.class) == 0
        }),
{
    let v = parsed(data)->Ok_0;
    lemma_parsed(data);
    let m = v.shdrs.len() as int;
    lemma_sections_read(data, v.shdrs, m);
    assert forall|i: int| 0 <= i < m implies (#[trigger] v.sections[i]).len() == if v.shdrs[i].sh_type
        == sht::NOBITS {
        0
    } else {
        v.shdrs[i].size as int
    } by {
        assert(section_read(data, v.shdrs[i], section_bytes(data, v.shdrs, m)->Ok_0[i]));
    }
    lemma_first_from(v.shdrs, section_type(sht::DYNAMIC), 0);
    if let Some(k) = v.dyn_idx() {
        assert(section_read(data, v.shdrs[k], section_bytes(data, v.shdrs, m)->Ok_0[k]));
        assert(v.sections[k].len() == v.shdrs[k].size as int);
        let size = v.shdrs[k].size as int;
        assert(size - size % dyn_len(v.enc.class) == size);
        lemma_entries_write_back(v.enc, v.sections[k]);
    }
    assert forall|i: int| 0 <= i < m implies !#[trigger] grown(v, i) by {
        assert(v.sections[i].len() == if v.shdrs[i].sh_type == sht::NOBITS {
            0
        } else {
            v.shdrs[i].size as int
        });
    }
    lemma_none_grown(v, m);
}

/// A file that is read and written again without a change stays as it is, byte
/// for byte, where it meets the requirements on its segments, counts without
/// escapes, and has nothing but zeros behind its dynamic array.
pub proof fn law_unchanged_file(data: Seq<u8>, page_size: Option<u64>, no_clobber: bool)
    requires
        canonical(data),
        data.len() <= isize::MAX,
        ({
            let v = parsed(data)->Ok_0;
            &&& v.phdrs.len() < PN_XNUM
            &&& violation(v.phdrs) is None
            &&& v.dyn_idx() matches Some(k) ==> tail_clear(v.enc, v.sections[k])
        }),
    ensures
        ({
            let v = parsed(data)->Ok_0;
            finalized(v, data, page_size, no_clobber) == (v, Outcome::<Seq<u8>>::Ok(data))
        }),
{
    let v = parsed(data)->Ok_0;
    lemma_parsed(data);
    lemma_fresh(data);
    law_sync_unchanged(v);
    law_identity(data);
}

/// What an image that was written is when it is read back.
pub open spec fn read_back(w: ImageView, out: Seq<u8>) -> ImageView {
    ImageView {
        dynstr_fallback: dynstr_of(out, w.phdrs, w.shdrs, w.dynamic),
        interp_fallback: interp_of(out, w.phdrs),
        ..w
    }
}

/// Whether an image can be written and read back: its identification names its
/// encoding, its counts fit, its sections have the contents that their headers
/// say, and its dynamic array is complete and has a section.
pub open spec fn writable(v: ImageView) -> bool {
    &&& v.wf()
    &&& ident_wf(v.enc, v.ehdr)
    &&& counts_wf(v)
    &&& match v.dyn_idx() {
        Some(k) => v.shdrs[k].size as int % dyn_len(v.enc.class) == 0 && ended(v.dynamic)
            && tags_fit(v.enc, v.dynamic),
        None => v.dynamic.len() == 0 && first(v.phdrs, segment_type(pt::DYNAMIC)) is None,
    }
    &&& forall|i: int|
        0 <= i < v.shdrs.len() && (#[trigger] v.shdrs[i]).sh_type == sht::NOBITS
            ==> v.sections[i].len() == 0
}

/// What is emitted has the contents that its headers say.
pub proof fn lemma_emitted_contents(w: ImageView, original: Seq<u8>, total: u64)
    requires
        w.wf(),
        written(w, original, total) is Ok,
        forall|i: int|
            0 <= i < w.shdrs.len() && (#[trigger] w.shdrs[i]).sh_type == sht::NOBITS
                ==> w.sections[i].len() == 0,
    ensures
        contents_wf(w),
{
    lemma_spans_are(w, original);
    assert forall|i: int| 0 <= i < w.shdrs.len() implies (#[trigger] w.sections[i]).len() == if w.shdrs[i].sh_type
        == sht::NOBITS {
        0
    } else {
        w.shdrs[i].size as int
    } by {
        assert(w.shdrs[i].sh_type == w.shdrs[i].sh_type);
    }
}

/// What is emitted reads back, dynamic array and all.
pub proof fn law_emitted_reads_back(v: ImageView, original: Seq<u8>, total: u64)
    requires
        writable(v),
        synced(v) matches Ok(w) ==> spans_of(w, original) is Ok ==> placed(w, total as int),
        total <= isize::MAX,
    ensures
        emitted(v, original, total) matches (w, Ok(out)) ==> {
            &&& out.len() == total
            &&& parsed(out) == Outcome::<ImageView>::Ok(read_back(w, out))
            &&& w.dyn_idx() matches Some(k) ==> tail_clear(w.enc, w.sections[k])
            &&& w == (ImageView { sections: w.sections, ..v })
            &&& w.wf()
        },
{
    if let (w, Ok(out)) = emitted(v, original, total) {
        lemma_first_from(v.shdrs, section_type(sht::DYNAMIC), 0);
        assert(w.wf());
        assert(written(w, original, total) == Outcome::<Seq<u8>>::Ok(out));
        assert forall|i: int|
            0 <= i < w.shdrs.len() && (#[trigger] w.shdrs[i]).sh_type
                == sht::NOBITS implies w.sections[i].len() == 0 by {
            assert(v.shdrs[i].sh_type == sht::NOBITS);
        }
        lemma_emitted_contents(w, original, total);
        lemma_header_back(w, original, total);
        law_output_reads_back(w, original, total);
        if let Some(k) = v.dyn_idx() {
            let b = dyns_out(v.enc, v.dynamic, v.dynamic.len() as int)->Ok_0;
            let size = v.shdrs[k].size as int;
            let n = v.dynamic.len() as int;
            lemma_dyns_out(v.enc, v.dynamic, n);
            let tail = if b.len() < size {
                crate::seqs::zeros(size - b.len())
            } else {
                Seq::empty()
            };
            assert(w.sections[k] == padded(b, size));
            assert(padded(b, size) =~= b + tail);
            law_dynamic_reads_back(v.enc, v.dynamic, tail);
            assert(dynamic_in(w, out) == w.dynamic);
        } else {
            assert(w.dynamic =~= Seq::empty());
        }
    }
}

/// What was emitted is left as it is by a second pass that changes nothing.
pub proof fn law_second_pass(
    v: ImageView,
    original: Seq<u8>,
    total: u64,
    page_size: Option<u64>,
    no_clobber: bool,
)
    requires
        writable(v),
        synced(v) matches Ok(w) ==> spans_of(w, original) is Ok ==> placed(w, total as int),
        total <= isize::MAX,
    ensures
        emitted(v, original, total) matches (w, Ok(out)) ==> finalized(
            read_back(w, out),
            out,
            page_size,
            no_clobber,
        ) == (read_back(w, out), Outcome::<Seq<u8>>::Ok(out)),
{
    if let (w, Ok(out)) = emitted(v, original, total) {
        law_emitted_reads_back(v, original, total);
        lemma_header_back(w, original, total);
        let x = read_back(w, out);
        assert(canonical(out));
        assert(x.dyn_idx() == w.dyn_idx());
        law_unchanged_file(out, page_size, no_clobber);
    }
}

} // verus!
