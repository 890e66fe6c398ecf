//! What every operation keeps of an image.
use vstd::prelude::*;

use crate::bytes::lemma_widths;
use crate::cli::OperationView;
use crate::facts::FactView;
use crate::ir::{lemma_section_from, pt, segment_type, sht, EhdrView, ImageView, Phdr, Shdr};
use crate::ldcache::{
    cache_built, cache_bytes, cached, note_added, note_body, note_bytes, search_path,
};
use crate::ops::{
    applied, execstack_set, interpreter_set, needed_added, needed_of, needed_replaced, os_abi_set,
    soname_set, string_put, sym_count, sym_len, version_cleared, with_string, ModifiersView,
    ReportView, SurroundingsView,
};
use crate::patch::all_applied;
use crate::roundtrip::ident_wf;
use crate::rpath::{
    extended, filtered, run_path, run_path_set, run_path_shrunk, run_path_slot, useful, Search,
};
use crate::seqs::lemma_first_from;
use crate::symbols::{
    all_hashes, bucket_bytes, gnu_fn, gnu_header, gnu_rebuilt, gnu_regrouped, grouped,
    lemma_grouped_len, refilled, reloc_len, relocs_renumbered, renamed, symbol_map, symbols_renamed,
    sysv_fn, sysv_rebuilt, versions_grouped, GnuHeader, Reorder,
};
use crate::text::fields;

verus! {

/// What an operation makes of a segment: the same, or the stack segment, which may
/// take the place of an unused one.
pub open spec fn segment_carried(a: Phdr, b: Phdr) -> bool {
    a == b || (b.p_type == pt::GNU_STACK && (a.p_type == pt::GNU_STACK || a.p_type == pt::NULL))
}

/// Whether `w` comes from `v` by operations: its header is the same but for the OS
/// ABI; segments and sections stay in their order and new ones go behind them; a
/// section keeps its header, but that its size may be cleared to have it placed
/// again; and none loses all of its contents.
pub open spec fn carried(v: ImageView, w: ImageView) -> bool {
    &&& w.wf()
    &&& w.enc == v.enc
    &&& w.ehdr == (EhdrView { os_abi: w.ehdr.os_abi, ident: w.ehdr.ident, ..v.ehdr })
    &&& ident_wf(v.enc, v.ehdr) ==> ident_wf(w.enc, w.ehdr)
    &&& v.phdrs.len() <= w.phdrs.len()
    &&& forall|i: int|
        0 <= i < v.phdrs.len() ==> segment_carried(v.phdrs[i], #[trigger] w.phdrs[i])
    &&& forall|i: int|
        v.phdrs.len() <= i < w.phdrs.len() ==> (#[trigger] w.phdrs[i]).p_type == pt::GNU_STACK
            || w.phdrs[i].p_type == pt::NOTE
    &&& v.shdrs.len() <= w.shdrs.len()
    &&& forall|i: int|
        0 <= i < v.shdrs.len() ==> #[trigger] w.shdrs[i] == v.shdrs[i] || (w.shdrs[i] == (Shdr {
            size: 0,
            ..v.shdrs[i]
        }) && w.sections[i].len() > 0)
    &&& forall|i: int|
        0 <= i < v.shdrs.len() && v.sections[i].len() > 0 ==> (#[trigger] w.sections[i]).len() > 0
    &&& forall|i: int|
        v.shdrs.len() <= i < w.shdrs.len() ==> {
            &&& (#[trigger] w.shdrs[i]).sh_type == sht::NOTE
            &&& w.shdrs[i].size == 0
            &&& w.sections[i].len() > 0
        }
}

/// Operations one after the other.
proof fn lemma_carried_on(u: ImageView, v: ImageView, w: ImageView)
    requires
        carried(u, v),
        carried(v, w),
    ensures
        carried(u, w),
{
    assert forall|i: int| 0 <= i < u.phdrs.len() implies segment_carried(
        u.phdrs[i],
        #[trigger] w.phdrs[i],
    ) by {
        assert(segment_carried(u.phdrs[i], v.phdrs[i]));
    }
    assert forall|i: int| u.phdrs.len() <= i < w.phdrs.len() implies (
    #[trigger] w.phdrs[i]).p_type == pt::GNU_STACK || w.phdrs[i].p_type == pt::NOTE by {
        if i < v.phdrs.len() {
            assert(segment_carried(v.phdrs[i], w.phdrs[i]));
            assert(v.phdrs[i].p_type == pt::GNU_STACK || v.phdrs[i].p_type == pt::NOTE);
        }
    }
    assert forall|i: int| 0 <= i < u.shdrs.len() implies #[trigger] w.shdrs[i] == u.shdrs[i] || (
    w.shdrs[i] == (Shdr { size: 0, ..u.shdrs[i] }) && w.sections[i].len() > 0) by {
        assert(v.shdrs[i] == u.shdrs[i] || v.shdrs[i] == (Shdr { size: 0, ..u.shdrs[i] }));
        assert(v.sections[i].len() > 0 ==> w.sections[i].len() > 0);
    }
    assert forall|i: int| 0 <= i < u.shdrs.len() && u.sections[i].len() > 0 implies (
    #[trigger] w.sections[i]).len() > 0 by {
        assert(v.sections[i].len() > 0);
    }
    assert forall|i: int| u.shdrs.len() <= i < w.shdrs.len() implies {
        &&& (#[trigger] w.shdrs[i]).sh_type == sht::NOTE
        &&& w.shdrs[i].size == 0
        &&& w.sections[i].len() > 0
    } by {
        if i < v.shdrs.len() {
            assert(v.shdrs[i].sh_type == sht::NOTE);
            assert(w.sections[i].len() > 0);
        }
    }
}

/// An image that differs in the contents of its sections and in its dynamic array.
proof fn lemma_carried_contents(v: ImageView, w: ImageView)
    requires
        v.wf(),
        w == (ImageView { sections: w.sections, dynamic: w.dynamic, ..v }),
        w.sections.len() == v.sections.len(),
        forall|i: int|
            0 <= i < v.sections.len() && v.sections[i].len() > 0 ==> (
            #[trigger] w.sections[i]).len() > 0,
    ensures
        carried(v, w),
{
}

/// An image with the contents of one section replaced.
proof fn lemma_carried_section(v: ImageView, w: ImageView, s: int, b: Seq<u8>)
    requires
        v.wf(),
        w == (ImageView { sections: w.sections, dynamic: w.dynamic, ..v }),
        w.sections == v.sections.update(s, b),
        0 <= s < v.sections.len(),
        v.sections[s].len() > 0 ==> b.len() > 0,
    ensures
        carried(v, w),
{
    lemma_carried_contents(v, w);
}

/// A relocation table does not lose its contents.
proof fn lemma_relocs_some(v: ImageView, start: int, h: Seq<u32>, nb: int, n: int)
    requires
        0 <= n <= v.sections.len(),
        relocs_renumbered(v, start, h, nb, n) is Ok,
    ensures
        relocs_renumbered(v, start, h, nb, n)->Ok_0.len() == n,
        forall|i: int|
            0 <= i < n && v.sections[i].len() > 0 ==> (#[trigger] relocs_renumbered(
                v,
                start,
                h,
                nb,
                n,
            )->Ok_0[i]).len() > 0,
    decreases n,
{
    if n > 0 {
        lemma_relocs_some(v, start, h, nb, n - 1);
        if let Some(stride) = reloc_len(v.enc.class, v.shdrs[n - 1].sh_type) {
            let data = v.sections[n - 1];
            lemma_widths(v.enc.endian);
            if 0 + stride > data.len() {
                assert(data.skip(0) =~= data);
            }
        }
    }
}

/// The names of the symbols keep the table of symbols as long as it is.
proof fn lemma_renamed_len(
    v: ImageView,
    syms: Seq<u8>,
    strs: Seq<u8>,
    map: Seq<(Seq<char>, Seq<char>)>,
    n: int,
)
    requires
        renamed(v, syms, strs, map, n) is Ok,
    ensures
        renamed(v, syms, strs, map, n)->Ok_0.0.len() == syms.len(),
        renamed(v, syms, strs, map, n)->Ok_0.1.len() >= strs.len(),
    decreases n,
{
    if n > 0 {
        lemma_renamed_len(v, syms, strs, map, n - 1);
    }
}

/// Rebuilding the GNU hash table.
proof fn lemma_gnu_carries(v: ImageView, y: int, hashes: Seq<u32>)
    requires
        v.wf(),
        0 <= y < v.sections.len(),
        hashes.len() == sym_count(v.enc.class, v.sections[y]),
    ensures
        gnu_rebuilt(v, y, hashes) matches Ok((w, _)) ==> carried(v, w) && w == (ImageView {
            sections: w.sections,
            ..v
        }) && w.sections.len() == v.sections.len(),
{
    if let Some(t) = v.find_section(".gnu.hash"@) {
        lemma_section_from(v, ".gnu.hash"@, 0);
        let g = gnu_header(v.enc.endian, v.sections[t]);
        if gnu_rebuilt(v, y, hashes) is Ok && gnu_rebuilt(v, y, hashes) == gnu_regrouped(
            v,
            y,
            t,
            g,
            hashes.skip(g.symndx as int),
        ) && g.num_buckets > 0 && g.symndx <= hashes.len() {
            lemma_regrouped_carries(v, y, t, g, hashes.skip(g.symndx as int));
        }
        lemma_carried_contents(v, v);
    } else {
        lemma_carried_contents(v, v);
    }
}

/// Putting the symbols in the order of their buckets.
proof fn lemma_regrouped_carries(v: ImageView, y: int, t: int, g: GnuHeader, h: Seq<u32>)
    requires
        v.wf(),
        0 <= y < v.sections.len(),
        0 <= t < v.sections.len(),
        g.num_buckets > 0,
        g.symndx + h.len() == sym_count(v.enc.class, v.sections[y]),
    ensures
        gnu_regrouped(v, y, t, g, h) matches Ok((w, _)) ==> carried(v, w) && w == (ImageView {
            sections: w.sections,
            ..v
        }) && w.sections.len() == v.sections.len(),
{
    reveal(gnu_regrouped);
    if let Ok((w, _)) = gnu_regrouped(v, y, t, g, h) {
        let start = g.symndx as int;
        let nb = g.num_buckets as int;
        let stride = sym_len(v.enc.class);
        let data = v.sections[y];
        vstd::arithmetic::div_mod::lemma_fundamental_div_mod(data.len() as int, stride);
        let count = start + h.len();
        assert(count * stride <= data.len()) by (nonlinear_arith)
            requires
                data.len() == stride * count + data.len() as int % stride,
                data.len() as int % stride >= 0,
        ;
        lemma_grouped_len(data, start, stride, h, nb);
        let v1 = ImageView {
            sections: v.sections.update(y, grouped(data, start, stride, h, nb)),
            ..v
        };
        let v2 = versions_grouped(v1, start, h, nb)->Ok_0;
        if let Some(k) = v1.find_section(".gnu.version"@) {
            lemma_section_from(v1, ".gnu.version"@, 0);
            lemma_grouped_len(v1.sections[k], start, 2, h, nb);
        }
        assert forall|i: int| 0 <= i < v.sections.len() && v.sections[i].len() > 0 implies (
        #[trigger] v2.sections[i]).len() > 0 by {}
        let n = v2.sections.len() as int;
        lemma_relocs_some(v2, start, h, nb, n);
        let sections = relocs_renumbered(v2, start, h, nb, n)->Ok_0;
        lemma_widths(v.enc.endian);
        assert(bucket_bytes(v.enc.endian, h, g, nb).len() > 0);
        assert(refilled(v.enc, sections[t], h, g).len() > 0);
        assert forall|i: int| 0 <= i < v.sections.len() && v.sections[i].len() > 0 implies (
        #[trigger] w.sections[i]).len() > 0 by {
            assert(v2.sections[i].len() > 0);
            assert(sections[i].len() > 0);
        }
        lemma_carried_contents(v, w);
    }
}

/// Rebuilding the older hash table.
proof fn lemma_sysv_carries(v: ImageView, hashes: Seq<u32>, reorder: Option<Reorder>)
    requires
        v.wf(),
    ensures
        sysv_rebuilt(v, hashes, reorder) matches Ok(w) ==> carried(v, w),
{
    lemma_carried_contents(v, v);
    lemma_section_from(v, ".hash"@, 0);
    if let (Ok(w), Some(k)) = (sysv_rebuilt(v, hashes, reorder), v.find_section(".hash"@)) {
        if w != v {
            lemma_widths(v.enc.endian);
            let b = w.sections[k];
            assert(b.len() > 0);
            lemma_carried_section(v, w, k, b);
        }
    }
}

/// Renaming symbols.
proof fn lemma_rename_carries(v: ImageView, map: Seq<(Seq<char>, Seq<char>)>)
    requires
        v.wf(),
    ensures
        symbols_renamed(v, map) matches Ok(w) ==> carried(v, w),
{
    lemma_carried_contents(v, v);
    lemma_section_from(v, ".dynsym"@, 0);
    lemma_section_from(v, ".dynstr"@, 0);
    if let (Ok(w), Some(y), Some(s)) = (
        symbols_renamed(v, map),
        v.find_section(".dynsym"@),
        v.find_section(".dynstr"@),
    ) {
        let count = sym_count(v.enc.class, v.sections[y]);
        if w != v {
            if let Ok((syms, strs)) = renamed(v, v.sections[y], v.sections[s], map, count) {
                lemma_renamed_len(v, v.sections[y], v.sections[s], map, count);
                reveal_strlit(".dynsym");
                reveal_strlit(".dynstr");
                assert(".dynsym"@[5] != ".dynstr"@[5]);
                assert(y != s);
                let v1 = ImageView { sections: v.sections.update(y, syms).update(s, strs), ..v };
                lemma_carried_contents(v, v1);
                let gnu = all_hashes(v1, syms, strs, gnu_fn());
                assert(v1.sections[y] == syms);
                lemma_gnu_carries(v1, y, gnu);
                if let Ok((v2, reorder)) = gnu_rebuilt(v1, y, gnu) {
                    lemma_sysv_carries(v2, all_hashes(v1, syms, strs, sysv_fn()), reorder);
                    lemma_carried_on(v1, v2, w);
                    lemma_carried_on(v, v1, w);
                }
            }
        }
    }
}

/// Adding a note.
proof fn lemma_note_carries(v: ImageView, note: Seq<u8>)
    requires
        v.wf(),
        note.len() > 0,
    ensures
        note_added(v, note) matches Ok(w) ==> carried(v, w) && w.phdrs.len() <= v.phdrs.len() + 1
            && w.shdrs.len() <= v.shdrs.len() + 1,
{
    lemma_carried_contents(v, v);
    lemma_section_from(v, ".note.nixos.ldcache"@, 0);
}

/// An operation keeps what operations keep, and adds at most one segment and one
/// section.
pub proof fn law_applied_carries(
    v: ImageView,
    r: ReportView,
    op: OperationView,
    mods: ModifiersView,
    around: SurroundingsView,
)
    requires
        v.wf(),
    ensures
        applied(v, r, op, mods, around) matches Ok((w, _)) ==> carried(v, w) && w.phdrs.len()
            <= v.phdrs.len() + 1 && w.shdrs.len() <= v.shdrs.len() + 1,
{
    if let Ok((w, _)) = applied(v, r, op, mods, around) {
        match op {
            OperationView::RenameDynamicSymbols(_) => {
                let text = around.symbol_map->Ok_0;
                lemma_rename_carries(v, symbol_map(text)->Ok_0);
                lemma_rename_tables(v, symbol_map(text)->Ok_0);
            },
            OperationView::BuildResolutionCache => {
                lemma_cache_carries(v, around.files);
            },
            OperationView::SetExecstack => {
                lemma_execstack_carries(v, true);
            },
            OperationView::ClearExecstack => {
                lemma_execstack_carries(v, false);
            },
            OperationView::SetRpath(p) => {
                lemma_run_path_carries(v, p, mods.force_rpath);
            },
            OperationView::AddRpath(p) => {
                lemma_run_path_carries(v, extended(run_path(v)->Ok_0, p), mods.force_rpath);
            },
            OperationView::ShrinkRpath => {
                lemma_shrink_carries(v, mods.allowed_rpath_prefixes, mods.force_rpath, around.files);
            },
            OperationView::SetSoname(n) => {
                lemma_soname_carries(v, n);
            },
            OperationView::AddNeeded(n) => {
                lemma_needed_carries(v, n, n);
            },
            OperationView::ReplaceNeeded { before, after } => {
                lemma_needed_carries(v, before, after);
            },
            OperationView::SetInterpreter(p) => {
                lemma_interpreter_carries(v, p);
            },
            OperationView::ClearSymbolVersion(n) => {
                lemma_version_carries(v, n);
            },
            OperationView::SetOsAbi(n) => {
                lemma_os_abi_carries(v, n);
            },
            _ => {
                assert(w == (ImageView { dynamic: w.dynamic, ..v }));
                lemma_carried_contents(v, w);
            },
        }
    }
}

/// Setting the interpreter.
proof fn lemma_interpreter_carries(v: ImageView, path: Seq<char>)
    requires
        v.wf(),
    ensures
        interpreter_set(v, path) matches Ok(w) ==> carried(v, w) && w.phdrs == v.phdrs && w.shdrs
            == v.shdrs,
{
    lemma_section_from(v, ".interp"@, 0);
    if let Ok(w) = interpreter_set(v, path) {
        let s = v.find_section(".interp"@)->Some_0;
        lemma_carried_section(v, w, s, with_string(Seq::empty(), path));
    }
}

/// Clearing the version of a symbol.
proof fn lemma_version_carries(v: ImageView, sym: Seq<char>)
    requires
        v.wf(),
    ensures
        version_cleared(v, sym) matches Ok(w) ==> carried(v, w) && w.phdrs == v.phdrs && w.shdrs
            == v.shdrs,
{
    lemma_section_from(v, ".gnu.version"@, 0);
    if let Ok(w) = version_cleared(v, sym) {
        let k = v.find_section(".gnu.version"@)->Some_0;
        lemma_carried_section(v, w, k, w.sections[k]);
    }
}

/// Setting the OS ABI.
proof fn lemma_os_abi_carries(v: ImageView, name: Seq<char>)
    requires
        v.wf(),
    ensures
        os_abi_set(v, name) matches Ok(w) ==> carried(v, w) && w.phdrs == v.phdrs && w.shdrs
            == v.shdrs,
{
}

/// Making the stack executable or not.
proof fn lemma_execstack_carries(v: ImageView, set: bool)
    requires
        v.wf(),
    ensures
        carried(v, execstack_set(v, set)),
        execstack_set(v, set).phdrs.len() <= v.phdrs.len() + 1,
        execstack_set(v, set).shdrs == v.shdrs,
{
    lemma_first_from(v.phdrs, segment_type(pt::GNU_STACK), 0);
    lemma_first_from(v.phdrs, segment_type(pt::NULL), 0);
}

/// Setting the run path.
proof fn lemma_run_path_carries(v: ImageView, new: Seq<char>, force: bool)
    requires
        v.wf(),
    ensures
        run_path_set(v, new, force) matches Ok(w) ==> carried(v, w) && w.phdrs == v.phdrs
            && w.shdrs == v.shdrs,
{
    lemma_section_from(v, ".dynstr"@, 0);
    if let Ok(w) = run_path_set(v, new, force) {
        let s = v.find_section(".dynstr"@)->Some_0;
        lemma_carried_section(
            v,
            w,
            s,
            string_put(v.sections[s], run_path_slot(v.dynamic), new).0,
        );
    }
}

/// Shrinking the run path.
proof fn lemma_shrink_carries(
    v: ImageView,
    allowed: Seq<Seq<char>>,
    force: bool,
    facts: Seq<FactView>,
)
    requires
        v.wf(),
    ensures
        run_path_shrunk(v, allowed, force, facts) matches Ok(w) ==> carried(v, w) && w.phdrs
            == v.phdrs && w.shdrs == v.shdrs,
{
    lemma_carried_contents(v, v);
    if let (Ok(cur), Ok(libs)) = (run_path(v), needed_of(v)) {
        let dirs = fields(cur, ':');
        let q = Search { libs, allowed, machine: v.ehdr.machine, facts };
        let accept = Seq::new(dirs.len(), |i: int| useful(q, dirs, i));
        lemma_run_path_carries(v, filtered(cur, allowed, accept), force);
    }
}

/// Setting the soname.
proof fn lemma_soname_carries(v: ImageView, name: Seq<char>)
    requires
        v.wf(),
    ensures
        soname_set(v, name) matches Ok(w) ==> carried(v, w) && w.phdrs == v.phdrs && w.shdrs
            == v.shdrs,
{
    lemma_carried_contents(v, v);
    lemma_section_from(v, ".dynstr"@, 0);
    if let Ok(w) = soname_set(v, name) {
        if w != v {
            let s = v.find_section(".dynstr"@)->Some_0;
            lemma_carried_section(v, w, s, with_string(v.sections[s], name));
        }
    }
}

/// Adding or replacing a needed library.
proof fn lemma_needed_carries(v: ImageView, before: Seq<char>, after: Seq<char>)
    requires
        v.wf(),
    ensures
        needed_added(v, after) matches Ok(w) ==> carried(v, w) && w.phdrs == v.phdrs && w.shdrs
            == v.shdrs,
        needed_replaced(v, before, after) matches Ok(w) ==> carried(v, w) && w.phdrs == v.phdrs
            && w.shdrs == v.shdrs,
{
    lemma_carried_contents(v, v);
    lemma_section_from(v, ".dynstr"@, 0);
    if let Some(s) = v.find_section(".dynstr"@) {
        let tab = with_string(v.sections[s], after);
        if let Ok(w) = needed_added(v, after) {
            lemma_carried_section(v, w, s, tab);
        }
        if let Ok(w) = needed_replaced(v, before, after) {
            if w != v {
                lemma_carried_section(v, w, s, tab);
            }
        }
    }
}

/// Renaming symbols adds no segment and no section.
proof fn lemma_rename_tables(v: ImageView, map: Seq<(Seq<char>, Seq<char>)>)
    requires
        v.wf(),
    ensures
        symbols_renamed(v, map) matches Ok(w) ==> w.phdrs == v.phdrs && w.shdrs == v.shdrs,
{
    lemma_section_from(v, ".dynsym"@, 0);
    if let (Ok(w), Some(y), Some(s)) = (
        symbols_renamed(v, map),
        v.find_section(".dynsym"@),
        v.find_section(".dynstr"@),
    ) {
        reveal(gnu_regrouped);
    }
}

/// Building the library cache.
proof fn lemma_cache_carries(v: ImageView, facts: Seq<FactView>)
    requires
        v.wf(),
    ensures
        cache_built(v, facts) matches Ok((w, _)) ==> carried(v, w) && w.phdrs.len()
            <= v.phdrs.len() + 1 && w.shdrs.len() <= v.shdrs.len() + 1,
{
    lemma_carried_contents(v, v);
    if let (Ok((w, _)), Ok(libs)) = (cache_built(v, facts), needed_of(v)) {
        let dirs = fields(search_path(v), ':');
        let cache = cached(facts, dirs, libs, dirs.len() as int);
        let desc = cache_bytes(cache, cache.len() as int).push(0);
        lemma_widths(v.enc.endian);
        reveal(note_body);
        assert(note_bytes(v.enc.endian, desc).len() > 0);
        lemma_note_carries(v, note_bytes(v.enc.endian, desc));
    }
}

/// A sequence of operations keeps what each of them keeps, and adds at most one
/// segment and one section for each.
pub proof fn law_all_applied_carries(
    v: ImageView,
    r: ReportView,
    ops: Seq<OperationView>,
    mods: ModifiersView,
    around: SurroundingsView,
    n: int,
)
    requires
        v.wf(),
        0 <= n,
    ensures
        all_applied(v, r, ops, mods, around, n) matches Ok((w, _)) ==> carried(v, w)
            && w.phdrs.len() <= v.phdrs.len() + n && w.shdrs.len() <= v.shdrs.len() + n,
    decreases n,
{
    if n <= 0 {
        lemma_carried_contents(v, v);
    } else {
        law_all_applied_carries(v, r, ops, mods, around, n - 1);
        if let Ok((u, s)) = all_applied(v, r, ops, mods, around, n - 1) {
            law_applied_carries(u, s, ops[n - 1], mods, around);
            if let Ok((w, _)) = applied(u, s, ops[n - 1], mods, around) {
                lemma_carried_on(v, u, w);
            }
        }
    }
}

} // verus!
