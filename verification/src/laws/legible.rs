//! Whatever is written can be read.
use vstd::prelude::*;

use crate::codec::{PN_XNUM, SHN_LORESERVE};
use crate::error::Outcome;
use crate::ir::{pt, section_type, segment_type, sht, ImageView, Phdr};
use crate::laws::files::lemma_parsed;
use crate::laws::output::{
    absence_told, counts_held, counts_wf, dynamic_in, dynamic_wf, entries_end, law_output_is_read,
    law_output_reads_back, lemma_phdrs_out, lemma_shdrs_out, lemma_spans_are, part_count, placed,
    tables_placed,
};
use crate::laws::passes::{lemma_emitted_contents, lemma_fresh};
use crate::laws::region::{
    bound, bounded, header_clear, law_relayout_placed, law_relayout_tables_placed,
    lemma_same_dyn_idx, relays, settled,
};
use crate::laws::repeat::{has_room, in_place_pass};
use crate::layout::{
    emitted, finalized, grown, grown_count, kept, lemma_moved_size, lemma_plan, lemma_section_len,
    plan_of, prior, region_at, region_start, relaid, relayout_result, relocates, section_len,
    synced,
};
use crate::parser::{dynstr_of, interp_of, parsed};
use crate::raw::{dyn_len, header_len, phdr_len};
use crate::roundtrip::{ident_wf, lemma_header_len};
use crate::seqs::{first, lemma_first_from, lemma_first_is, lemma_first_none};
use crate::serialize::{spans_of, written};

verus! {

/// Whether an image can be read once it is written to a file, with or without
/// section headers: its identification names its encoding, its counts are in the
/// header or in section 0, and its dynamic array has whole entries in its section,
/// or, without a section, a segment within `limit`.
pub open spec fn legible(v: ImageView, limit: int) -> bool {
    &&& v.wf()
    &&& ident_wf(v.enc, v.ehdr)
    &&& counts_held(v)
    &&& v.shdrs.len() >= SHN_LORESERVE ==> !grown(v, 0)
    &&& dynamic_wf(v, limit)
}

/// Whether the sections without file bytes have no contents.
pub open spec fn nobits_empty(v: ImageView) -> bool {
    forall|i: int|
        0 <= i < v.shdrs.len() && (#[trigger] v.shdrs[i]).sh_type == sht::NOBITS
            ==> v.sections[i].len() == 0
}

/// What a reader finds of the image `w` in the file `out`.
pub open spec fn found_in(w: ImageView, out: Seq<u8>) -> ImageView {
    ImageView {
        dynamic: dynamic_in(w, out),
        dynstr_fallback: dynstr_of(out, w.phdrs, w.shdrs, dynamic_in(w, out)),
        interp_fallback: interp_of(out, w.phdrs),
        ..w
    }
}

/// Where nothing has grown, no section has.
pub proof fn lemma_not_grown(v: ImageView, i: int, n: int)
    requires
        0 <= i < n,
    ensures
        grown_count(v, n) >= 0,
        grown_count(v, n) == 0 ==> !grown(v, i),
    decreases n,
{
    if i < n - 1 {
        lemma_not_grown(v, i, n - 1);
    } else if n > 1 {
        lemma_not_grown(v, 0, n - 1);
    } else {
        assert(grown_count(v, 0) == 0);
    }
}

/// What was read from a file is legible, where its counts are where a writer puts
/// them.
pub proof fn law_read_is_legible(data: Seq<u8>)
    requires
        parsed(data) matches Ok(v) && counts_held(v),
    ensures
        legible(parsed(data)->Ok_0, data.len() as int),
        nobits_empty(parsed(data)->Ok_0),
{
    let v = parsed(data)->Ok_0;
    lemma_parsed(data);
    lemma_fresh(data);
    lemma_first_from(v.shdrs, section_type(sht::DYNAMIC), 0);
    if v.shdrs.len() > 0 {
        lemma_not_grown(v, 0, v.shdrs.len() as int);
    }
    assert forall|i: int|
        0 <= i < v.shdrs.len() && (#[trigger] v.shdrs[i]).sh_type
            == sht::NOBITS implies v.sections[i].len() == 0 by {}
}

/// Whether `x` has the header and the tables of `w`.
pub open spec fn same_tables(x: ImageView, w: ImageView) -> bool {
    x.enc == w.enc && x.ehdr == w.ehdr && x.phdrs == w.phdrs && x.shdrs == w.shdrs
}

/// What is emitted can be read, with the header and the tables as they were
/// written, and the rest too where all parts are apart.
pub proof fn law_emitted_is_read(v: ImageView, original: Seq<u8>, total: u64)
    requires
        legible(v, total as int),
        synced(v) matches Ok(w) ==> spans_of(w, original) is Ok ==> tables_placed(
            w,
            original,
            total as int,
        ) && absence_told(w, original, total as int),
        total <= isize::MAX,
    ensures
        emitted(v, original, total) matches (w, Ok(out)) ==> {
            &&& parsed(out) matches Ok(x) && same_tables(x, w)
            &&& placed(w, total as int) && counts_wf(w) && nobits_empty(v)
                ==> parsed(out) == Outcome::<ImageView>::Ok(found_in(w, out))
        },
{
    if let (w, Ok(out)) = emitted(v, original, total) {
        lemma_first_from(v.shdrs, section_type(sht::DYNAMIC), 0);
        assert(w.wf());
        assert(written(w, original, total) == Outcome::<Seq<u8>>::Ok(out));
        law_output_is_read(w, original, total);
        if placed(w, total as int) && counts_wf(w) && nobits_empty(v) {
            assert forall|i: int|
                0 <= i < w.shdrs.len() && (#[trigger] w.shdrs[i]).sh_type
                    == sht::NOBITS implies w.sections[i].len() == 0 by {
                assert(v.shdrs[i].sh_type == sht::NOBITS);
            }
            lemma_emitted_contents(w, original, total);
            law_output_reads_back(w, original, total);
        }
    }
}

/// Whether the file header and the tables of an edited image have places of their
/// own: as they are, where it is written in place; else the header does, and what
/// stays is before the new region.
pub open spec fn tables_have_room(v: ImageView, original: Seq<u8>, no_clobber: bool) -> bool {
    if in_place_pass(v, original) {
        original.len() <= isize::MAX && (synced(v) matches Ok(w) ==> spans_of(w, original) is Ok
            ==> tables_placed(w, original, original.len() as int) && absence_told(
            w,
            original,
            original.len() as int,
        ))
    } else {
        let region = region_start(v, !no_clobber);
        v.phdrs.len() + 1 < PN_XNUM && bounded(v, region, original.len() as int) && header_clear(
            v,
            region,
            original,
        )
    }
}

/// How far what stays in the file reaches: to its end where it is written in place,
/// else to where a new region may start.
pub open spec fn stay_limit(v: ImageView, original: Seq<u8>, no_clobber: bool) -> int {
    if in_place_pass(v, original) {
        original.len() as int
    } else {
        bound(region_start(v, !no_clobber), original.len() as int)
    }
}

/// The first segment of a type other than `PT_LOAD` is the same among those that
/// stay.
pub proof fn lemma_first_kept(v: ImageView, reclaim: bool, ty: u32)
    requires
        ty != pt::LOAD,
    ensures
        match (first(v.phdrs, segment_type(ty)), first(kept(v, reclaim), segment_type(ty))) {
            (Some(a), Some(b)) => 0 <= a < v.phdrs.len() && 0 <= b < kept(v, reclaim).len()
                && v.phdrs[a] == kept(v, reclaim)[b],
            (None, None) => true,
            _ => false,
        },
{
    let p = segment_type(ty);
    let segs = kept(v, reclaim);
    lemma_first_from(v.phdrs, p, 0);
    lemma_first_from(v.phdrs, region_at(v.ehdr.phoff), 0);
    if let Some(r) = prior(v, reclaim) {
        assert forall|j: int| 0 <= j < segs.len() implies #[trigger] segs[j] == v.phdrs[if j < r {
            j
        } else {
            j + 1
        }] by {}
        assert(region_at(v.ehdr.phoff)(v.phdrs[r]));
        match first(v.phdrs, p) {
            Some(a) => {
                assert(p(v.phdrs[a]));
                let b = if a < r {
                    a
                } else {
                    a - 1
                };
                assert(segs[b] == v.phdrs[a]);
                assert forall|j: int| 0 <= j < b implies !p(#[trigger] segs[j]) by {
                    let k = if j < r {
                        j
                    } else {
                        j + 1
                    };
                    assert(!p(v.phdrs[k]));
                }
                lemma_first_is(segs, p, 0, b);
            },
            None => {
                assert forall|j: int| 0 <= j < segs.len() implies !p(#[trigger] segs[j]) by {
                    let k = if j < r {
                        j
                    } else {
                        j + 1
                    };
                    assert(!p(v.phdrs[k]));
                }
                lemma_first_none(segs, p, 0);
            },
        }
    }
}

/// A relayout keeps what makes an image legible.
proof fn lemma_relaid_legible(
    v: ImageView,
    original: Seq<u8>,
    page_size: Option<u64>,
    reclaim: bool,
)
    requires
        relayout_result(v, original, page_size, reclaim).1 is Ok,
        legible(v, bound(region_start(v, reclaim), original.len() as int)),
        v.phdrs.len() + 1 < PN_XNUM,
    ensures
        ({
            let region = region_start(v, reclaim);
            let segs = kept(v, reclaim);
            let plan = plan_of(v, segs, region, original.len() as int, page_size);
            legible(relaid(v, region, plan, segs), plan.total)
        }),
{
    let n = original.len() as int;
    let region = region_start(v, reclaim);
    let segs = kept(v, reclaim);
    let plan = plan_of(v, segs, region, n, page_size);
    let r = relaid(v, region, plan, segs);
    lemma_plan(v, segs, region, n, page_size);
    lemma_same_dyn_idx(v, region, plan, segs);
    lemma_first_from(v.shdrs, section_type(sht::DYNAMIC), 0);
    lemma_first_from(v.phdrs, region_at(v.ehdr.phoff), 0);
    match v.dyn_idx() {
        Some(k) => {
            lemma_section_len(v, k);
            if relocates(v, region, k) {
                lemma_moved_size(v, region, k, v.shdrs.len() as int);
            }
            vstd::arithmetic::div_mod::lemma_mod_multiples_basic(
                v.dynamic.len() as int,
                dyn_len(v.enc.class),
            );
        },
        None => {
            let p = segment_type(pt::DYNAMIC);
            lemma_first_kept(v, reclaim, pt::DYNAMIC);
            lemma_first_from(segs, p, 0);
            assert forall|j: int| 0 <= j < segs.len() implies p(#[trigger] r.phdrs[j]) == p(segs[j])
                && (p(segs[j]) ==> r.phdrs[j].offset == segs[j].offset && r.phdrs[j].filesz
                == segs[j].filesz) by {
                lemma_cache_note(v, segs);
            }
            match first(segs, p) {
                Some(b) => {
                    assert forall|j: int| 0 <= j < b implies !p(#[trigger] r.phdrs[j]) by {
                        assert(!p(segs[j]));
                    }
                    assert(p(r.phdrs[b]));
                    lemma_first_is(r.phdrs, p, 0, b);
                },
                None => {
                    assert forall|j: int| 0 <= j < r.phdrs.len() implies !p(
                        #[trigger] r.phdrs[j],
                    ) by {
                        if j < segs.len() {
                            assert(!p(segs[j]));
                        } else {
                            lemma_cache_note(v, segs);
                        }
                    }
                    lemma_first_none(r.phdrs, p, 0);
                },
            }
        },
    }
    if v.shdrs.len() >= SHN_LORESERVE {
        lemma_section_len(v, 0);
        assert(r.shdrs[0].size == v.shdrs[0].size);
        assert(section_len(r, 0) == section_len(v, 0));
        assert(!grown(r, 0));
    }
    assert((segs.len() + 1) * phdr_len(v.enc.class) > 0) by (nonlinear_arith)
        requires
            phdr_len(v.enc.class) > 0,
    ;
    assert(r.phdrs.len() == segs.len() + 1);
    assert(segs.len() <= v.phdrs.len());
    assert(v.shdrs.len() > 0 ==> r.ehdr.shoff == plan.start + plan.pht);
    assert(counts_held(r));
}

/// The segment of the library cache is a note.
proof fn lemma_cache_note(v: ImageView, segs: Seq<Phdr>)
    ensures
        crate::layout::cache_segment(v, segs) matches Some(k) ==> 0 <= k < segs.len()
            && segs[k].p_type == pt::NOTE,
{
    if let Some(s) = v.find_section(".note.nixos.ldcache"@) {
        lemma_first_from(segs, crate::layout::note_at(v.shdrs[s].offset), 0);
    }
}

/// What is written for an edited image can be read, with the header and the tables
/// as they were written, and the rest too where all parts are apart. The file may
/// lack section headers, its sections may share bytes, and its dynamic array may
/// lack an end.
pub proof fn law_finalized_is_read(
    v: ImageView,
    original: Seq<u8>,
    page_size: Option<u64>,
    no_clobber: bool,
)
    requires
        legible(v, stay_limit(v, original, no_clobber)),
        tables_have_room(v, original, no_clobber),
    ensures
        finalized(v, original, page_size, no_clobber) matches (w, Ok(out)) ==> {
            &&& parsed(out) matches Ok(x) && same_tables(x, w)
            &&& has_room(v, original, no_clobber) && counts_wf(v) && nobits_empty(v)
                ==> parsed(out) == Outcome::<ImageView>::Ok(found_in(w, out))
        },
{
    if finalized(v, original, page_size, no_clobber).1 is Ok {
        if in_place_pass(v, original) {
            law_emitted_is_read(v, original, original.len() as u64);
        } else {
            lemma_relayout_is_read(v, original, page_size, !no_clobber);
        }
    }
}

/// What a relayout writes can be read.
proof fn lemma_relayout_is_read(
    v: ImageView,
    original: Seq<u8>,
    page_size: Option<u64>,
    reclaim: bool,
)
    requires
        relayout_result(v, original, page_size, reclaim).1 is Ok,
        legible(v, bound(region_start(v, reclaim), original.len() as int)),
        v.phdrs.len() + 1 < PN_XNUM,
        bounded(v, region_start(v, reclaim), original.len() as int),
        header_clear(v, region_start(v, reclaim), original),
    ensures
        ({
            let (w, res) = relayout_result(v, original, page_size, reclaim);
            let out = res->Ok_0;
            &&& parsed(out) matches Ok(x) && same_tables(x, w)
            &&& settled(v, region_start(v, reclaim), original.len() as int) && counts_wf(v)
                && nobits_empty(v) ==> parsed(out) == Outcome::<ImageView>::Ok(found_in(w, out))
        }),
{
    let n = original.len() as int;
    let region = region_start(v, reclaim);
    let segs = kept(v, reclaim);
    let plan = plan_of(v, segs, region, n, page_size);
    let r = relaid(v, region, plan, segs);
    lemma_relaid_legible(v, original, page_size, reclaim);
    assert(relays(v, segs, region, original, page_size));
    law_relayout_tables_placed(v, segs, region, original, page_size);
    if settled(v, region, n) && counts_wf(v) && nobits_empty(v) {
        assert forall|i: int|
            0 <= i < r.shdrs.len() && (#[trigger] r.shdrs[i]).sh_type
                == sht::NOBITS implies r.sections[i].len() == 0 by {
            assert(v.shdrs[i].sh_type == sht::NOBITS);
        }
        law_relayout_placed(v, segs, region, original, page_size);
        lemma_first_from(v.phdrs, region_at(v.ehdr.phoff), 0);
        assert(segs.len() <= v.phdrs.len());
        assert(r.phdrs.len() == segs.len() + 1);
        assert(counts_wf(r));
    }
    law_emitted_is_read(r, original, plan.total as u64);
}

/// Whether an image without section headers has what can be written and read: its
/// identification names its encoding, its counts fit, the program headers that are
/// written in place stand behind the file header and within the file, and its
/// dynamic array is in what stays of the file.
pub open spec fn bare(v: ImageView, original: Seq<u8>, no_clobber: bool) -> bool {
    &&& v.wf()
    &&& v.shdrs.len() == 0
    &&& v.ehdr.shoff == 0
    &&& v.ehdr.shstrndx < SHN_LORESERVE
    &&& ident_wf(v.enc, v.ehdr)
    &&& v.phdrs.len() + 1 < PN_XNUM
    &&& original.len() <= isize::MAX
    &&& header_len(v.enc.class) <= stay_limit(v, original, no_clobber)
    &&& in_place_pass(v, original) && v.phdrs.len() > 0 ==> header_len(v.enc.class) <= v.ehdr.phoff
        && v.ehdr.phoff + v.phdrs.len() * phdr_len(v.enc.class) <= original.len()
    &&& first(v.phdrs, segment_type(pt::DYNAMIC)) matches Some(k) ==> entries_end(
        v.enc,
        v.phdrs[k],
    ) <= stay_limit(v, original, no_clobber)
}

/// What is written for a file without section headers can be read.
pub proof fn law_bare_output_is_read(
    v: ImageView,
    original: Seq<u8>,
    page_size: Option<u64>,
    no_clobber: bool,
)
    requires
        bare(v, original, no_clobber),
    ensures
        finalized(v, original, page_size, no_clobber) matches (w, Ok(out)) ==> parsed(out)
            == Outcome::<ImageView>::Ok(found_in(w, out)),
{
    lemma_first_none(v.shdrs, section_type(sht::DYNAMIC), 0);
    if finalized(v, original, page_size, no_clobber).1 is Ok {
        if in_place_pass(v, original) {
            assert(synced(v) == Outcome::<ImageView>::Ok(v));
            lemma_spans_are(v, original);
            lemma_header_len(
                v.enc.class,
                v.enc.endian,
                crate::codec::record_of(v.ehdr, v.phdrs.len() as int, 0),
            );
            lemma_phdrs_out(v.enc, v.phdrs, v.phdrs.len() as int);
            lemma_shdrs_out(v.enc, v.shdrs, 0);
            assert(part_count(v) == 3);
            assert(placed(v, original.len() as int));
        }
        law_finalized_is_read(v, original, page_size, no_clobber);
    }
}

} // verus!
