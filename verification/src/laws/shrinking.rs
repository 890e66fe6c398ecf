//! A run path that is shrunk loses no library.
use vstd::prelude::*;

use crate::bytes::u16_at;
use crate::facts::{joined, machine_at, machine_in, FactView};
use crate::ir::ImageView;
use crate::laws::edits::{law_run_path_reads_back, lemma_read_storable, storable, strings_short};
use crate::laws::files::lemma_parsed;
use crate::laws::lists::{
    is_item, law_fields_are_items, law_items_read_back, lemma_storable_fields, lemma_storable_join,
};
use crate::ops::{needed_of, string_offset};
use crate::parser::parsed;
use crate::rpath::{
    filtered, found_before, kept_dirs, run_path, run_path_entry, run_path_shrunk, supplies, useful,
    Search,
};
use crate::text::{fields, join};

verus! {

/// Whether a directory is searched: it is absolute, and begins with one of the allowed
/// prefixes where there are any.
pub open spec fn searched(dir: Seq<char>, allowed: Seq<Seq<char>>) -> bool {
    &&& dir.len() > 0
    &&& dir[0] == '/'
    &&& allowed.len() == 0 || exists|k: int|
        0 <= k < allowed.len() && (#[trigger] allowed[k]).len() <= dir.len() && dir.take(
            allowed[k].len() as int,
        ) == allowed[k]
}

/// Whether what is at the library's path in the directory is an ELF file for the
/// machine.
pub open spec fn has_library(
    facts: Seq<FactView>,
    machine: u16,
    dir: Seq<char>,
    lib: Seq<char>,
) -> bool {
    machine_at(facts, joined(dir, lib)) == Some(machine)
}

/// Whether directory `i` is the first one that is searched and has the library.
pub open spec fn first_with(
    dirs: Seq<Seq<char>>,
    allowed: Seq<Seq<char>>,
    facts: Seq<FactView>,
    machine: u16,
    lib: Seq<char>,
    i: int,
) -> bool {
    &&& 0 <= i < dirs.len()
    &&& searched(dirs[i], allowed)
    &&& has_library(facts, machine, dirs[i], lib)
    &&& forall|k: int|
        0 <= k < i ==> !(searched(#[trigger] dirs[k], allowed) && has_library(
            facts,
            machine,
            dirs[k],
            lib,
        ))
}

/// Whether `part` is made of the elements of `all` at the increasing places `at`.
pub open spec fn picks<T>(all: Seq<T>, at: Seq<int>, part: Seq<T>) -> bool {
    &&& at.len() == part.len()
    &&& forall|m: int|
        0 <= m < at.len() ==> 0 <= #[trigger] at[m] < all.len() && part[m] == all[at[m]]
    &&& forall|m: int, n: int| 0 <= m < n < at.len() ==> #[trigger] at[m] < #[trigger] at[n]
}

/// The places of the directories that stay.
proof fn lemma_kept_places(
    dirs: Seq<Seq<char>>,
    allowed: Seq<Seq<char>>,
    accept: Seq<bool>,
    n: int,
) -> (at: Seq<int>)
    requires
        0 <= n <= dirs.len(),
        accept.len() == dirs.len(),
    ensures
        picks(dirs, at, kept_dirs(dirs, allowed, accept, n)),
        forall|m: int| 0 <= m < at.len() ==> #[trigger] at[m] < n,
        forall|i: int|
            0 <= i < n ==> (#[trigger] at.contains(i) <==> !(dirs[i].len() > 0 && dirs[i][0] == '/')
                || (searched(dirs[i], allowed) && accept[i])),
    decreases n,
{
    if n <= 0 {
        Seq::empty()
    } else {
        let before = lemma_kept_places(dirs, allowed, accept, n - 1);
        let d = dirs[n - 1];
        lemma_searched(d, allowed);
        let at = if !(d.len() > 0 && d[0] == '/') || (searched(d, allowed) && accept[n - 1]) {
            before.push(n - 1)
        } else {
            before
        };
        assert forall|i: int| 0 <= i < n implies (#[trigger] at.contains(i) <==> !(dirs[i].len() > 0
            && dirs[i][0] == '/') || (searched(dirs[i], allowed) && accept[i])) by {
            if before.contains(i) {
                let m = choose|m: int| 0 <= m < before.len() && before[m] == i;
                assert(at[m] == i);
            }
            if at.contains(i) {
                let m = choose|m: int| 0 <= m < at.len() && at[m] == i;
                if m < before.len() {
                    assert(before[m] == i);
                    assert(before.contains(i));
                }
            }
            if i == n - 1 && at.len() > before.len() {
                assert(at[before.len() as int] == i);
            }
        }
        at
    }
}

/// A directory is searched when it is absolute and allowed.
proof fn lemma_searched(dir: Seq<char>, allowed: Seq<Seq<char>>)
    ensures
        searched(dir, allowed) == (crate::rpath::absolute(dir) && crate::rpath::allowed_dir(
            dir,
            allowed,
        )),
{
    if crate::rpath::allowed_dir(dir, allowed) && allowed.len() > 0 {
        let k = choose|k: int|
            0 <= k < allowed.len() && crate::text::starts_with(dir, #[trigger] allowed[k]);
        assert(dir.take(allowed[k].len() as int) =~= allowed[k]);
    }
    if searched(dir, allowed) && allowed.len() > 0 {
        let k = choose|k: int|
            0 <= k < allowed.len() && (#[trigger] allowed[k]).len() <= dir.len() && dir.take(
                allowed[k].len() as int,
            ) == allowed[k];
        assert(crate::text::starts_with(dir, allowed[k]));
    }
}

/// Whether a directory is useful, said of the one library that makes it so.
proof fn lemma_useful(q: Search, dirs: Seq<Seq<char>>, i: int)
    requires
        0 <= i < dirs.len(),
    ensures
        useful(q, dirs, i) == exists|j: int|
            0 <= j < q.libs.len() && first_with(
                dirs,
                q.allowed,
                q.facts,
                q.machine,
                #[trigger] q.libs[j],
                i,
            ),
{
    lemma_searched(dirs[i], q.allowed);
    assert forall|j: int| 0 <= j < q.libs.len() implies found_before(q, dirs, j, i) == !(forall|
        k: int,
    |
        0 <= k < i ==> !(searched(#[trigger] dirs[k], q.allowed) && has_library(
            q.facts,
            q.machine,
            dirs[k],
            #[trigger] q.libs[j],
        ))) by {
        assert forall|k: int| 0 <= k < i implies #[trigger] searched(dirs[k], q.allowed) == (
        crate::rpath::absolute(dirs[k]) && crate::rpath::allowed_dir(dirs[k], q.allowed)) by {
            lemma_searched(dirs[k], q.allowed);
        }
    }
    if useful(q, dirs, i) {
        let j = choose|j: int|
            0 <= j < q.libs.len() && supplies(q.facts, q.machine, dirs[i], #[trigger] q.libs[j])
                && !found_before(q, dirs, j, i);
        assert(first_with(dirs, q.allowed, q.facts, q.machine, q.libs[j], i));
    }
    if exists|j: int|
        0 <= j < q.libs.len() && first_with(
            dirs,
            q.allowed,
            q.facts,
            q.machine,
            #[trigger] q.libs[j],
            i,
        ) {
        let j = choose|j: int|
            0 <= j < q.libs.len() && first_with(
                dirs,
                q.allowed,
                q.facts,
                q.machine,
                #[trigger] q.libs[j],
                i,
            );
        assert(!found_before(q, dirs, j, i));
        assert(supplies(q.facts, q.machine, dirs[i], q.libs[j]));
    }
}

/// Shrinking a run path keeps, in their order, the directories that are not absolute
/// and those that are the first with some library that is needed, and no other.
pub proof fn law_shrink_keeps(
    v: ImageView,
    allowed: Seq<Seq<char>>,
    force: bool,
    facts: Seq<FactView>,
) -> (at: Seq<int>)
    requires
        strings_short(v),
        run_path(v) is Ok,
        needed_of(v) is Ok,
    ensures
        run_path_shrunk(v, allowed, force, facts) matches Ok(w) ==> (run_path(w) matches Ok(new) && {
            let dirs = fields(run_path(v)->Ok_0, ':');
            let libs = needed_of(v)->Ok_0;
            &&& picks(dirs, at, fields(new, ':'))
            &&& forall|i: int|
                0 <= i < dirs.len() ==> (#[trigger] at.contains(i) <==> dirs[i][0] != '/' || exists|
                    j: int,
                |
                    0 <= j < libs.len() && first_with(
                        dirs,
                        allowed,
                        facts,
                        v.ehdr.machine,
                        #[trigger] libs[j],
                        i,
                    ))
        }),
{
    let cur = run_path(v)->Ok_0;
    let libs = needed_of(v)->Ok_0;
    let dirs = fields(cur, ':');
    let q = Search { libs, allowed, machine: v.ehdr.machine, facts };
    let accept = Seq::new(dirs.len(), |i: int| useful(q, dirs, i));
    let at = lemma_kept_places(dirs, allowed, accept, dirs.len() as int);
    let kept = kept_dirs(dirs, allowed, accept, dirs.len() as int);
    law_fields_are_items(cur, ':');
    assert forall|i: int| 0 <= i < dirs.len() implies (#[trigger] at.contains(i) <==> dirs[i][0]
        != '/' || exists|j: int|
        0 <= j < libs.len() && first_with(
            dirs,
            allowed,
            facts,
            v.ehdr.machine,
            #[trigger] libs[j],
            i,
        )) by {
        lemma_useful(q, dirs, i);
        assert(is_item(dirs[i], ':'));
    }
    reveal_strlit(":");
    assert(":"@ =~= seq![':']);
    if let Ok(w) = run_path_shrunk(v, allowed, force, facts) {
        if cur.len() == 0 {
            assert(cur =~= join(Seq::empty(), seq![':']));
            law_items_read_back(Seq::empty(), ':');
            assert(at.len() == 0) by {
                if at.len() > 0 {
                    assert(0 <= at[0] < dirs.len());
                }
            }
        } else {
            let d = run_path_entry(v.dynamic)->Some_0;
            lemma_read_storable(v.dynstr()->Some_0, string_offset(d));
            lemma_storable_fields(cur, ':');
            assert forall|m: int| 0 <= m < kept.len() implies storable(#[trigger] kept[m])
                && is_item(kept[m], ':') by {
                assert(kept[m] == dirs[at[m]]);
            }
            vstd::utf8::is_ascii_chars_encode_utf8(":"@);
            assert(storable(":"@));
            lemma_storable_join(kept, ":"@);
            law_items_read_back(kept, ':');
            law_run_path_reads_back(v, filtered(cur, allowed, accept), force);
        }
    }
    at
}

/// Shrinking a run path loses no library: the directory that had it first is in the new
/// run path, and is the first there that has it.
pub proof fn law_shrink_loses_nothing(
    v: ImageView,
    allowed: Seq<Seq<char>>,
    force: bool,
    facts: Seq<FactView>,
    j: int,
    i: int,
) -> (m: int)
    requires
        strings_short(v),
        run_path(v) is Ok,
        needed_of(v) matches Ok(libs) && 0 <= j < libs.len(),
        first_with(
            fields(run_path(v)->Ok_0, ':'),
            allowed,
            facts,
            v.ehdr.machine,
            needed_of(v)->Ok_0[j],
            i,
        ),
    ensures
        run_path_shrunk(v, allowed, force, facts) matches Ok(w) ==> (run_path(w) matches Ok(new) && {
            let left = fields(new, ':');
            &&& first_with(left, allowed, facts, v.ehdr.machine, needed_of(v)->Ok_0[j], m)
            &&& left[m] == fields(run_path(v)->Ok_0, ':')[i]
        }),
{
    let dirs = fields(run_path(v)->Ok_0, ':');
    let lib = needed_of(v)->Ok_0[j];
    let at = law_shrink_keeps(v, allowed, force, facts);
    if let Ok(w) = run_path_shrunk(v, allowed, force, facts) {
        let left = fields(run_path(w)->Ok_0, ':');
        assert(at.contains(i));
        let m = choose|m: int| 0 <= m < at.len() && at[m] == i;
        assert(left[m] == dirs[i]);
        assert forall|k: int| 0 <= k < m implies !(searched(#[trigger] left[k], allowed)
            && has_library(facts, v.ehdr.machine, left[k], lib)) by {
            assert(at[k] < at[m]);
            assert(left[k] == dirs[at[k]]);
        }
        m
    } else {
        0
    }
}

/// Every absolute directory of a run path that was shrunk is allowed and has a needed
/// library that none before it has.
pub proof fn law_shrink_leaves_no_other(
    v: ImageView,
    allowed: Seq<Seq<char>>,
    force: bool,
    facts: Seq<FactView>,
    m: int,
) -> (j: int)
    requires
        strings_short(v),
        run_path(v) is Ok,
        needed_of(v) is Ok,
    ensures
        run_path_shrunk(v, allowed, force, facts) matches Ok(w) ==> (run_path(w) matches Ok(new) && {
            let left = fields(new, ':');
            0 <= m < left.len() && left[m][0] == '/' ==> 0 <= j < needed_of(v)->Ok_0.len()
                && first_with(left, allowed, facts, v.ehdr.machine, needed_of(v)->Ok_0[j], m)
        }),
{
    let dirs = fields(run_path(v)->Ok_0, ':');
    let libs = needed_of(v)->Ok_0;
    let at = law_shrink_keeps(v, allowed, force, facts);
    if let Ok(w) = run_path_shrunk(v, allowed, force, facts) {
        let left = fields(run_path(w)->Ok_0, ':');
        if 0 <= m < left.len() && left[m][0] == '/' {
            let i = at[m];
            assert(left[m] == dirs[i]);
            assert(at.contains(i));
            let j = choose|j: int|
                0 <= j < libs.len() && first_with(
                    dirs,
                    allowed,
                    facts,
                    v.ehdr.machine,
                    #[trigger] libs[j],
                    i,
                );
            assert forall|k: int| 0 <= k < m implies !(searched(#[trigger] left[k], allowed)
                && has_library(facts, v.ehdr.machine, left[k], libs[j])) by {
                assert(at[k] < at[m]);
                assert(left[k] == dirs[at[k]]);
            }
            j
        } else {
            0
        }
    } else {
        0
    }
}

/// The machine that is read off the head of a file is the one that reading the whole
/// file gives.
pub proof fn law_head_tells_machine(data: Seq<u8>)
    requires
        parsed(data) is Ok,
    ensures
        machine_in(data.take(20)) == Some(parsed(data)->Ok_0.ehdr.machine),
{
    lemma_parsed(data);
    reveal(crate::raw::header_at);
    reveal(u16_at);
    let head = data.take(20);
    assert(head[0] == data[0] && head[1] == data[1] && head[2] == data[2] && head[3] == data[3]
        && head[5] == data[5] && head[18] == data[18] && head[19] == data[19]);
}

/// A library in a directory is at the directory's path, a slash and its name.
pub proof fn law_library_path(dir: Seq<char>, lib: Seq<char>)
    requires
        dir.len() > 0,
        dir.last() != '/',
        lib.len() == 0 || lib[0] != '/',
    ensures
        joined(dir, lib) == dir + seq!['/'] + lib,
        joined(dir + seq!['/'], lib) == dir + seq!['/'] + lib,
{
    reveal_strlit("/");
    assert("/"@ =~= seq!['/']);
}

} // verus!
