//! The run path: read, set, add to, remove and shrink it. `DT_RUNPATH` is
//! preferred over the obsolete `DT_RPATH` unless the latter is forced.
use vstd::prelude::*;

use crate::error::{Outcome, Result};
use crate::facts::{
    fact_views, join_path, joined, machine_at, machine_of, starts_with_slash, FactView, FileFact,
};
use crate::ir::{dt, find_tag, has_tag, DynEntry, ElfImage, ImageView};
use crate::ops::{
    dyn_entry_text, dynstr_section, dynstr_set, edited, entry_text, live, needed, needed_of,
    no_dynamic, no_section, or_empty, owned_or_empty, require_dynamic, string_put, Modifiers,
};
use crate::seqs::{first, first_from, lemma_filter_take};
use crate::text::{concat3, fields, join, join_texts, split_fields, texts};

verus! {

/// Whether an entry is `DT_RPATH` or `DT_RUNPATH`.
pub open spec fn is_run_path() -> spec_fn(DynEntry) -> bool {
    |d: DynEntry| d.tag == dt::RPATH || d.tag == dt::RUNPATH
}

/// Whether an entry is neither `DT_RPATH` nor `DT_RUNPATH`.
pub open spec fn not_run_path() -> spec_fn(DynEntry) -> bool {
    |d: DynEntry| d.tag != dt::RPATH && d.tag != dt::RUNPATH
}

/// The last entry with the tag `tag`.
pub open spec fn last_with(dynamic: Seq<DynEntry>, tag: i64) -> Option<DynEntry>
    decreases dynamic.len(),
{
    if dynamic.len() == 0 {
        None
    } else if dynamic.last().tag == tag {
        Some(dynamic.last())
    } else {
        last_with(dynamic.drop_last(), tag)
    }
}

/// The entry that holds the run path: the first `DT_RUNPATH`, else the last
/// `DT_RPATH`, before the terminating entry.
pub open spec fn run_path_entry(dynamic: Seq<DynEntry>) -> Option<DynEntry> {
    match first(live(dynamic), has_tag(dt::RUNPATH)) {
        Some(k) => Some(live(dynamic)[k]),
        None => last_with(live(dynamic), dt::RPATH),
    }
}

/// The run path, empty where there is none.
pub open spec fn run_path(v: ImageView) -> Outcome<Seq<char>> {
    if v.dynamic.len() == 0 {
        Err(no_dynamic())
    } else {
        match (v.dynstr(), run_path_entry(v.dynamic)) {
            (Some(tab), Some(d)) => Ok(or_empty(entry_text(tab, d))),
            _ => Ok(Seq::empty()),
        }
    }
}

/// Number of entries before the terminating one.
fn live_len(dynamic: &Vec<DynEntry>) -> (n: usize)
    ensures
        n <= dynamic@.len(),
        live(dynamic@) == dynamic@.take(n as int),
{
    match find_tag(dynamic, dt::NULL) {
        Some(k) => k,
        None => {
            assert(dynamic@.take(dynamic@.len() as int) =~= dynamic@);
            dynamic.len()
        },
    }
}

/// The run path. `DT_RUNPATH` takes precedence over the obsolete `DT_RPATH`.
pub fn read(image: &ElfImage) -> (res: Result<String>)
    ensures
        match res {
            Ok(s) => run_path(image@) == Outcome::Ok(s@),
            Err(e) => run_path(image@) == Outcome::<Seq<char>>::Err(e@),
        },
{
    require_dynamic(image)?;
    let tab = match image.dynstr() {
        Some(tab) => tab,
        None => {
            return Ok(owned_or_empty(None));
        },
    };
    let n = live_len(&image.dynamic);
    let ghost entries = live(image@.dynamic);
    let mut rpath: Option<DynEntry> = None;
    let mut i: usize = 0;
    while i < n
        invariant
            image@.dynamic.len() > 0,
            image@.dynstr() == Some(tab@),
            i <= n <= image@.dynamic.len(),
            entries == live(image@.dynamic),
            entries == image@.dynamic.take(n as int),
            first(entries, has_tag(dt::RUNPATH)) == first_from(
                entries,
                has_tag(dt::RUNPATH),
                i as int,
            ),
            rpath == last_with(entries.take(i as int), dt::RPATH),
        decreases n - i,
    {
        let d = image.dynamic[i];
        if d.tag == dt::RUNPATH {
            return Ok(owned_or_empty(dyn_entry_text(tab, &d)));
        }
        assert(entries.take(i + 1).drop_last() =~= entries.take(i as int));
        if d.tag == dt::RPATH {
            rpath = Some(d);
        }
        i += 1;
    }
    assert(entries.take(n as int) =~= entries);
    match rpath {
        Some(d) => Ok(owned_or_empty(dyn_entry_text(tab, &d))),
        None => Ok(owned_or_empty(None)),
    }
}

/// The image without a run path.
pub open spec fn run_path_removed(v: ImageView) -> ImageView {
    ImageView { dynamic: v.dynamic.filter(not_run_path()), ..v }
}

/// Remove the run path. The array only shrinks, so the edit stays in place.
pub fn remove(image: &mut ElfImage)
    ensures
        old(image)@.wf() ==> final(image)@.wf(),
        final(image)@ == run_path_removed(old(image)@),
{
    let ghost v = image@;
    let mut out: Vec<DynEntry> = Vec::new();
    let mut i: usize = 0;
    proof {
        reveal(Seq::filter);
        assert(out@ =~= v.dynamic.take(0).filter(not_run_path()));
    }
    while i < image.dynamic.len()
        invariant
            image@ == v,
            i <= v.dynamic.len(),
            out@ == v.dynamic.take(i as int).filter(not_run_path()),
        decreases v.dynamic.len() - i,
    {
        proof {
            lemma_filter_take(v.dynamic, i as int, not_run_path());
        }
        let d = image.dynamic[i];
        if d.tag != dt::RPATH && d.tag != dt::RUNPATH {
            out.push(d);
        }
        i += 1;
    }
    assert(v.dynamic.take(v.dynamic.len() as int) =~= v.dynamic);
    image.dynamic = out;
}

/// The tag that a run path is stored under.
pub open spec fn run_path_tag(force: bool) -> i64 {
    if force {
        dt::RPATH
    } else {
        dt::RUNPATH
    }
}

/// Whether the entries of the run path change their tag: to `DT_RUNPATH` when
/// none has it, or to `DT_RPATH` when that is forced.
pub open spec fn changes_tag(dynamic: Seq<DynEntry>, force: bool) -> bool {
    force == (first(live(dynamic), has_tag(dt::RUNPATH)) is Some)
}

/// The dynamic array with the run path's entries naming the string at `off`, and
/// one in front where there was none.
pub open spec fn run_path_entries(dynamic: Seq<DynEntry>, off: u64, force: bool) -> Seq<DynEntry> {
    if first(live(dynamic), is_run_path()) is None {
        seq![DynEntry { tag: run_path_tag(force), val: off }] + dynamic
    } else {
        Seq::new(
            dynamic.len(),
            |i: int|
                if i < live(dynamic).len() && is_run_path()(dynamic[i]) {
                    DynEntry {
                        tag: if changes_tag(dynamic, force) {
                            run_path_tag(force)
                        } else {
                            dynamic[i].tag
                        },
                        val: off,
                    }
                } else {
                    dynamic[i]
                },
        )
    }
}

/// The place of the string that the run path's first entry names.
pub open spec fn run_path_slot(dynamic: Seq<DynEntry>) -> Option<u64> {
    match first(live(dynamic), is_run_path()) {
        Some(k) => Some(live(dynamic)[k].val),
        None => None,
    }
}

/// The image with the run path set: over the string that it had where the new one
/// fits, else behind the other strings.
pub open spec fn run_path_set(v: ImageView, new: Seq<char>, force: bool) -> Outcome<ImageView> {
    if v.dynamic.len() == 0 {
        Err(no_dynamic())
    } else {
        match v.find_section(".dynstr"@) {
            None => Err(no_section(".dynstr"@)),
            Some(s) => {
                let (tab, off) = string_put(v.sections[s], run_path_slot(v.dynamic), new);
                Ok(
                    ImageView {
                        sections: v.sections.update(s, tab),
                        dynamic: run_path_entries(v.dynamic, off, force),
                        ..v
                    },
                )
            },
        }
    }
}

/// Set the run path, under `DT_RPATH` when `force` is given.
pub fn set(image: &mut ElfImage, new: &str, force: bool) -> (res: Result<()>)
    requires
        old(image)@.wf(),
    ensures
        final(image)@.wf(),
        edited(res, old(image)@, final(image)@, run_path_set(old(image)@, new@, force)),
{
    require_dynamic(image)?;
    let s = dynstr_section(image)?;
    let ghost v = image@;
    let ghost entries = live(v.dynamic);
    let n = live_len(&image.dynamic);
    let mut slot: Option<u64> = None;
    let mut has_runpath = false;
    let mut i: usize = 0;
    while i < n
        invariant
            image@ == v,
            i <= n <= v.dynamic.len(),
            entries == live(v.dynamic),
            entries == v.dynamic.take(n as int),
            slot is None ==> first(entries, is_run_path()) == first_from(
                entries,
                is_run_path(),
                i as int,
            ),
            slot is Some ==> run_path_slot(v.dynamic) == slot,
            has_runpath ==> first(entries, has_tag(dt::RUNPATH)) is Some,
            !has_runpath ==> first(entries, has_tag(dt::RUNPATH)) == first_from(
                entries,
                has_tag(dt::RUNPATH),
                i as int,
            ),
        decreases n - i,
    {
        let d = image.dynamic[i];
        assert(entries[i as int] == d);
        if d.tag == dt::RUNPATH {
            has_runpath = true;
        }
        if slot.is_none() && (d.tag == dt::RPATH || d.tag == dt::RUNPATH) {
            slot = Some(d.val);
        }
        i += 1;
    }
    let tag: i64 = if force {
        dt::RPATH
    } else {
        dt::RUNPATH
    };
    let convert = force == has_runpath;
    let off = dynstr_set(&mut image.section_data[s], slot, new);
    let ghost want = run_path_entries(v.dynamic, off, force);
    if slot.is_none() {
        image.dynamic.insert(0, DynEntry { tag, val: off });
        assert(image.dynamic@ =~= want);
    } else {
        let mut k: usize = 0;
        while k < n
            invariant
                n <= v.dynamic.len(),
                k <= n,
                live(v.dynamic).len() == n,
                first(live(v.dynamic), is_run_path()) is Some,
                want == run_path_entries(v.dynamic, off, force),
                convert == changes_tag(v.dynamic, force),
                tag == run_path_tag(force),
                image@ == (ImageView {
                    dynamic: image@.dynamic,
                    sections: v.sections.update(
                        s as int,
                        string_put(v.sections[s as int], slot, new@).0,
                    ),
                    ..v
                }),
                image.dynamic@.len() == v.dynamic.len(),
                forall|j: int| 0 <= j < k ==> #[trigger] image.dynamic@[j] == want[j],
                forall|j: int|
                    k <= j < v.dynamic.len() ==> #[trigger] image.dynamic@[j] == v.dynamic[j],
            decreases n - k,
        {
            let d = image.dynamic[k];
            if d.tag == dt::RPATH || d.tag == dt::RUNPATH {
                let new_tag: i64 = if convert {
                    tag
                } else {
                    d.tag
                };
                image.dynamic.set(k, DynEntry { tag: new_tag, val: off });
            }
            k += 1;
        }
        assert(image.dynamic@ =~= want);
    }
    assert(image@ =~= run_path_set(v, new@, force)->Ok_0);
    Ok(())
}

/// `path` behind the run path `cur`.
pub open spec fn extended(cur: Seq<char>, path: Seq<char>) -> Seq<char> {
    if cur.len() == 0 {
        path
    } else {
        cur + ":"@ + path
    }
}

/// The image with `path` behind its run path.
pub open spec fn run_path_added(v: ImageView, path: Seq<char>, force: bool) -> Outcome<ImageView> {
    match run_path(v) {
        Err(e) => Err(e),
        Ok(cur) => run_path_set(v, extended(cur, path), force),
    }
}

/// Append `path` to the run path.
pub fn add(image: &mut ElfImage, path: &str, force: bool) -> (res: Result<()>)
    requires
        old(image)@.wf(),
    ensures
        final(image)@.wf(),
        edited(res, old(image)@, final(image)@, run_path_added(old(image)@, path@, force)),
{
    let cur = read(image)?;
    if cur.as_str().is_empty() {
        set(image, path, force)
    } else {
        set(image, concat3(cur.as_str(), ":", path).as_str(), force)
    }
}

/// Whether a directory is given by an absolute path. Any other, such as
/// `$ORIGIN`, has a meaning only at run time.
pub open spec fn absolute(dir: Seq<char>) -> bool {
    dir.len() > 0 && dir[0] == '/'
}

/// Whether `dir` begins with one of the allowed prefixes, or there are none.
pub open spec fn allowed_dir(dir: Seq<char>, allowed: Seq<Seq<char>>) -> bool {
    allowed.len() == 0 || exists|i: int|
        0 <= i < allowed.len() && crate::text::starts_with(dir, #[trigger] allowed[i])
}

/// Those of the first `n` directories that stay: the ones that are not absolute,
/// and the allowed ones that are accepted.
pub open spec fn kept_dirs(
    dirs: Seq<Seq<char>>,
    allowed: Seq<Seq<char>>,
    accept: Seq<bool>,
    n: int,
) -> Seq<Seq<char>>
    decreases n,
{
    if n <= 0 {
        Seq::empty()
    } else {
        let rest = kept_dirs(dirs, allowed, accept, n - 1);
        let dir = dirs[n - 1];
        if !absolute(dir) || (allowed_dir(dir, allowed) && accept[n - 1]) {
            rest.push(dir)
        } else {
            rest
        }
    }
}

/// The run path `cur` without its empty components and without the absolute ones
/// that are not allowed or not accepted.
pub open spec fn filtered(cur: Seq<char>, allowed: Seq<Seq<char>>, accept: Seq<bool>) -> Seq<char> {
    let dirs = fields(cur, ':');
    join(kept_dirs(dirs, allowed, accept, dirs.len() as int), ":"@)
}

fn is_allowed(dir: &str, allowed: &Vec<String>) -> (b: bool)
    ensures
        b == allowed_dir(dir@, texts(allowed@)),
{
    if allowed.len() == 0 {
        return true;
    }
    let mut i: usize = 0;
    while i < allowed.len()
        invariant
            i <= allowed@.len(),
            forall|j: int|
                0 <= j < i ==> !crate::text::starts_with(dir@, #[trigger] texts(allowed@)[j]),
        decreases allowed@.len() - i,
    {
        assert(texts(allowed@)[i as int] == allowed@[i as int]@);
        if crate::text::has_prefix(dir, allowed[i].as_str()) {
            assert(crate::text::starts_with(dir@, texts(allowed@)[i as int]));
            return true;
        }
        i += 1;
    }
    false
}

/// Filter a colon-separated run path: drop empty components, keep those that are
/// not absolute, and keep an absolute one only when the allowed prefixes, if any,
/// cover it and it is accepted. `accept` has an answer for each nonempty
/// component. The order stays.
pub fn filter_dirs(cur: &str, allowed: &Vec<String>, accept: &Vec<bool>) -> (s: String)
    requires
        accept@.len() == fields(cur@, ':').len(),
    ensures
        s@ == filtered(cur@, texts(allowed@), accept@),
{
    let dirs = split_fields(cur, ':');
    let ghost names = texts(dirs@);
    let mut out: Vec<String> = Vec::new();
    let mut i: usize = 0;
    assert(texts(out@) =~= Seq::empty());
    while i < dirs.len()
        invariant
            names == texts(dirs@),
            accept@.len() == dirs@.len(),
            i <= dirs@.len(),
            texts(out@) == kept_dirs(names, texts(allowed@), accept@, i as int),
        decreases dirs@.len() - i,
    {
        assert(names[i as int] == dirs@[i as int]@);
        if !starts_with_slash(dirs[i].as_str()) || (is_allowed(dirs[i].as_str(), allowed)
            && accept[i]) {
            let ghost before = texts(out@);
            out.push(dirs[i].clone());
            assert(texts(out@) =~= before.push(names[i as int]));
        }
        i += 1;
    }
    join_texts(&out, ":")
}

/// Whether `dir` has the library `lib` for `machine`.
pub open spec fn supplies(
    facts: Seq<FactView>,
    machine: u16,
    dir: Seq<char>,
    lib: Seq<char>,
) -> bool {
    machine_at(facts, joined(dir, lib)) == Some(machine)
}

/// What the usefulness of a directory depends on besides the directories.
pub struct Search {
    pub libs: Seq<Seq<char>>,
    pub allowed: Seq<Seq<char>>,
    pub machine: u16,
    pub facts: Seq<FactView>,
}

/// Whether library `j` is in one of the first `n` directories that are searched:
/// the absolute ones that are allowed.
pub open spec fn found_before(q: Search, dirs: Seq<Seq<char>>, j: int, n: int) -> bool {
    exists|i: int|
        0 <= i < n && absolute(#[trigger] dirs[i]) && allowed_dir(dirs[i], q.allowed) && supplies(
            q.facts,
            q.machine,
            dirs[i],
            q.libs[j],
        )
}

/// Whether directory `i` is searched and has a needed library that no earlier one
/// has.
pub open spec fn useful(q: Search, dirs: Seq<Seq<char>>, i: int) -> bool {
    absolute(dirs[i]) && allowed_dir(dirs[i], q.allowed) && exists|j: int|
        0 <= j < q.libs.len() && supplies(q.facts, q.machine, dirs[i], #[trigger] q.libs[j])
            && !found_before(q, dirs, j, i)
}

/// Which directories are useful: those that supply a needed library of the right
/// machine not yet found in an earlier one.
fn useful_dirs(
    dirs: &Vec<String>,
    libs: &Vec<String>,
    allowed: &Vec<String>,
    machine: u16,
    facts: &Vec<FileFact>,
) -> (out: Vec<bool>)
    ensures
        out@ == Seq::new(
            dirs@.len(),
            |i: int|
                useful(
                    Search {
                        libs: texts(libs@),
                        allowed: texts(allowed@),
                        machine,
                        facts: fact_views(facts@),
                    },
                    texts(dirs@),
                    i,
                ),
        ),
{
    let ghost q = Search {
        libs: texts(libs@),
        allowed: texts(allowed@),
        machine,
        facts: fact_views(facts@),
    };
    let ghost names = texts(dirs@);
    let mut found: Vec<bool> = Vec::new();
    while found.len() < libs.len()
        invariant
            found@.len() <= libs@.len(),
            forall|j: int| 0 <= j < found@.len() ==> !#[trigger] found@[j],
        decreases libs@.len() - found@.len(),
    {
        found.push(false);
    }
    let mut out: Vec<bool> = Vec::new();
    let mut i: usize = 0;
    while i < dirs.len()
        invariant
            q == (Search {
                libs: texts(libs@),
                allowed: texts(allowed@),
                machine,
                facts: fact_views(facts@),
            }),
            names == texts(dirs@),
            found@.len() == libs@.len(),
            i <= dirs@.len(),
            out@.len() == i,
            forall|j: int|
                0 <= j < found@.len() ==> #[trigger] found@[j] == found_before(
                    q,
                    names,
                    j,
                    i as int,
                ),
            forall|k: int| 0 <= k < i ==> #[trigger] out@[k] == useful(q, names, k),
        decreases dirs@.len() - i,
    {
        let dir = dirs[i].as_str();
        assert(names[i as int] == dir@);
        let mut any = false;
        if starts_with_slash(dir) && is_allowed(dir, allowed) {
            let mut j: usize = 0;
            while j < libs.len()
                invariant
                    q == (Search {
                        libs: texts(libs@),
                        allowed: texts(allowed@),
                        machine,
                        facts: fact_views(facts@),
                    }),
                    i < names.len(),
                    names[i as int] == dir@,
                    absolute(dir@),
                    allowed_dir(dir@, q.allowed),
                    found@.len() == libs@.len(),
                    j <= libs@.len(),
                    forall|l: int|
                        j <= l < found@.len() ==> #[trigger] found@[l] == found_before(
                            q,
                            names,
                            l,
                            i as int,
                        ),
                    forall|l: int|
                        0 <= l < j ==> #[trigger] found@[l] == found_before(q, names, l, i + 1),
                    any == exists|l: int|
                        0 <= l < j && supplies(q.facts, q.machine, dir@, #[trigger] q.libs[l])
                            && !found_before(q, names, l, i as int),
                decreases libs@.len() - j,
            {
                assert(q.libs[j as int] == libs@[j as int]@);
                let hit = match machine_of(facts, join_path(dir, libs[j].as_str()).as_str()) {
                    Some(m) => m == machine,
                    None => false,
                };
                assert(hit == supplies(q.facts, q.machine, dir@, q.libs[j as int]));
                proof {
                    lemma_found_step(q, names, j as int, i as int);
                }
                if !found[j] && hit {
                    assert(!found_before(q, names, j as int, i as int));
                    any = true;
                }
                if hit {
                    found.set(j, true);
                }
                j += 1;
            }
        } else {
            assert forall|j: int| 0 <= j < found@.len() implies #[trigger] found@[j]
                == found_before(q, names, j, i + 1) by {
                lemma_found_step(q, names, j, i as int);
            }
        }
        out.push(any);
        i += 1;
    }
    assert(out@ =~= Seq::new(dirs@.len(), |i: int| useful(q, names, i)));
    out
}

/// One more directory.
proof fn lemma_found_step(q: Search, dirs: Seq<Seq<char>>, j: int, i: int)
    requires
        0 <= i < dirs.len(),
    ensures
        found_before(q, dirs, j, i + 1) == (found_before(q, dirs, j, i) || (absolute(dirs[i])
            && allowed_dir(dirs[i], q.allowed) && supplies(
            q.facts,
            q.machine,
            dirs[i],
            q.libs[j],
        ))),
{
    if found_before(q, dirs, j, i) {
        let k = choose|k: int|
            0 <= k < i && absolute(#[trigger] dirs[k]) && allowed_dir(dirs[k], q.allowed)
                && supplies(q.facts, q.machine, dirs[k], q.libs[j]);
        assert(0 <= k < i + 1 && absolute(dirs[k]));
    }
}

/// The image with its run path shrunk to the directories that are useful.
pub open spec fn run_path_shrunk(
    v: ImageView,
    allowed: Seq<Seq<char>>,
    force: bool,
    facts: Seq<FactView>,
) -> Outcome<ImageView> {
    match (run_path(v), needed_of(v)) {
        (Err(e), _) => Err(e),
        (Ok(cur), needed) => if cur.len() == 0 {
            Ok(v)
        } else {
            match needed {
                Err(e) => Err(e),
                Ok(libs) => {
                    let dirs = fields(cur, ':');
                    let q = Search { libs, allowed, machine: v.ehdr.machine, facts };
                    let accept = Seq::new(dirs.len(), |i: int| useful(q, dirs, i));
                    run_path_set(v, filtered(cur, allowed, accept), force)
                },
            }
        },
    }
}

/// Drop the run path directories that contain none of the needed libraries for
/// the file's machine, and those that the allowed prefixes do not cover. Entries
/// that are not absolute always stay.
pub fn shrink(image: &mut ElfImage, mods: &Modifiers, facts: &Vec<FileFact>) -> (res: Result<()>)
    requires
        old(image)@.wf(),
    ensures
        final(image)@.wf(),
        edited(
            res,
            old(image)@,
            final(image)@,
            run_path_shrunk(
                old(image)@,
                texts(mods.allowed_rpath_prefixes@),
                mods.force_rpath,
                fact_views(facts@),
            ),
        ),
{
    let cur = read(image)?;
    if cur.as_str().is_empty() {
        return Ok(());
    }
    let libs = needed(image)?;
    let dirs = split_fields(cur.as_str(), ':');
    let accept = useful_dirs(
        &dirs,
        &libs,
        &mods.allowed_rpath_prefixes,
        image.ehdr.machine,
        facts,
    );
    assert(accept@ =~= Seq::new(
        texts(dirs@).len(),
        |i: int|
            useful(
                Search {
                    libs: texts(libs@),
                    allowed: texts(mods.allowed_rpath_prefixes@),
                    machine: image@.ehdr.machine,
                    facts: fact_views(facts@),
                },
                texts(dirs@),
                i,
            ),
    ));
    let new = filter_dirs(cur.as_str(), &mods.allowed_rpath_prefixes, &accept);
    set(image, new.as_str(), mods.force_rpath)
}

} // verus!
