//! Which files an operation has to be told about, and that no others matter.
use vstd::prelude::*;

use crate::cli::{Operation, OperationView};
use crate::facts::{fact_at, join_path, joined, starts_with_slash, FactView};
use crate::ir::{dt, ElfImage, ImageView};
use crate::ldcache::{cached, cached_dir, place_in, search_path};
use crate::ops::{
    applied, dyn_string, needed, needed_of, owned_or_empty, ModifiersView, ReportView,
    SurroundingsView,
};
use crate::rpath::{absolute, allowed_dir, found_before, read, run_path, supplies, useful, Search};
use crate::text::{concat3, fields, split_fields, texts};

verus! {

/// Every library in `dir`, by the path that shrinking the run path looks at.
pub open spec fn in_dir(dir: Seq<char>, libs: Seq<Seq<char>>) -> Seq<Seq<char>> {
    Seq::new(libs.len(), |j: int| joined(dir, libs[j]))
}

/// Every library in `dir`, by the path that the library cache would hold.
pub open spec fn under_dir(dir: Seq<char>, libs: Seq<Seq<char>>) -> Seq<Seq<char>> {
    Seq::new(libs.len(), |j: int| dir + "/"@ + libs[j])
}

/// What shrinking the run path asks about in the first `n` directories.
pub open spec fn shrink_paths(dirs: Seq<Seq<char>>, libs: Seq<Seq<char>>, n: int) -> Seq<Seq<char>>
    decreases n,
{
    if n <= 0 {
        Seq::empty()
    } else if absolute(dirs[n - 1]) {
        shrink_paths(dirs, libs, n - 1) + in_dir(dirs[n - 1], libs)
    } else {
        shrink_paths(dirs, libs, n - 1)
    }
}

/// What building the library cache asks about in the first `n` directories.
pub open spec fn cache_paths(dirs: Seq<Seq<char>>, libs: Seq<Seq<char>>, n: int) -> Seq<Seq<char>>
    decreases n,
{
    if n <= 0 {
        Seq::empty()
    } else {
        cache_paths(dirs, libs, n - 1).push(joined(dirs[n - 1], "glibc-hwcaps"@)) + under_dir(
            dirs[n - 1],
            libs,
        )
    }
}

/// The paths that an operation asks about.
pub open spec fn probe_paths(v: ImageView, op: OperationView) -> Seq<Seq<char>> {
    match op {
        OperationView::ShrinkRpath => match (run_path(v), needed_of(v)) {
            (Ok(cur), Ok(libs)) => {
                let dirs = fields(cur, ':');
                shrink_paths(dirs, libs, dirs.len() as int)
            },
            _ => Seq::empty(),
        },
        OperationView::BuildResolutionCache => match needed_of(v) {
            Ok(libs) => {
                let dirs = fields(search_path(v), ':');
                cache_paths(dirs, libs, dirs.len() as int)
            },
            Err(_) => Seq::empty(),
        },
        _ => Seq::empty(),
    }
}

fn push_all(out: &mut Vec<String>, dir: &str, libs: &Vec<String>, slash: bool)
    ensures
        texts(final(out)@) == texts(old(out)@) + if slash {
            under_dir(dir@, texts(libs@))
        } else {
            in_dir(dir@, texts(libs@))
        },
{
    let ghost all = if slash {
        under_dir(dir@, texts(libs@))
    } else {
        in_dir(dir@, texts(libs@))
    };
    let ghost start = texts(out@);
    let mut j: usize = 0;
    assert(start + all.take(0) =~= start);
    while j < libs.len()
        invariant
            all == if slash {
                under_dir(dir@, texts(libs@))
            } else {
                in_dir(dir@, texts(libs@))
            },
            j <= libs@.len(),
            texts(out@) == start + all.take(j as int),
        decreases libs@.len() - j,
    {
        let ghost before = texts(out@);
        let path = if slash {
            concat3(dir, "/", libs[j].as_str())
        } else {
            join_path(dir, libs[j].as_str())
        };
        assert(texts(libs@)[j as int] == libs@[j as int]@);
        out.push(path);
        assert(texts(out@) =~= before.push(all[j as int]));
        assert(before.push(all[j as int]) =~= start + all.take(j + 1));
        j += 1;
    }
    assert(all.take(all.len() as int) =~= all);
}

/// The paths that an operation asks about, to be looked at before it is applied.
pub fn probes(image: &ElfImage, op: &Operation) -> (out: Vec<String>)
    ensures
        texts(out@) == probe_paths(image@, op@),
{
    let mut out: Vec<String> = Vec::new();
    assert(texts(out@) =~= Seq::empty());
    match op {
        Operation::ShrinkRpath => {
            if let (Ok(cur), Ok(libs)) = (read(image), needed(image)) {
                let dirs = split_fields(cur.as_str(), ':');
                let ghost names = texts(dirs@);
                let mut i: usize = 0;
                while i < dirs.len()
                    invariant
                        names == texts(dirs@),
                        i <= dirs@.len(),
                        texts(out@) == shrink_paths(names, texts(libs@), i as int),
                    decreases dirs@.len() - i,
                {
                    assert(names[i as int] == dirs@[i as int]@);
                    if starts_with_slash(dirs[i].as_str()) {
                        push_all(&mut out, dirs[i].as_str(), &libs, false);
                    }
                    i += 1;
                }
            }
        },
        Operation::BuildResolutionCache => {
            if let Ok(libs) = needed(image) {
                let path = match dyn_string(image, dt::RUNPATH) {
                    Some(s) => s.to_owned(),
                    None => owned_or_empty(dyn_string(image, dt::RPATH)),
                };
                let dirs = split_fields(path.as_str(), ':');
                let ghost names = texts(dirs@);
                let mut i: usize = 0;
                while i < dirs.len()
                    invariant
                        names == texts(dirs@),
                        i <= dirs@.len(),
                        texts(out@) == cache_paths(names, texts(libs@), i as int),
                    decreases dirs@.len() - i,
                {
                    assert(names[i as int] == dirs@[i as int]@);
                    let ghost before = texts(out@);
                    let hwcaps = join_path(dirs[i].as_str(), "glibc-hwcaps");
                    out.push(hwcaps);
                    assert(texts(out@) =~= before.push(hwcaps@));
                    push_all(&mut out, dirs[i].as_str(), &libs, true);
                    i += 1;
                }
            }
        },
        _ => {},
    }
    out
}

/// Whether two sets of facts say the same about every one of `paths`.
pub open spec fn agree(f: Seq<FactView>, g: Seq<FactView>, paths: Seq<Seq<char>>) -> bool {
    forall|i: int| 0 <= i < paths.len() ==> fact_at(f, #[trigger] paths[i]) == fact_at(g, paths[i])
}

proof fn lemma_shrink_path(
    f: Seq<FactView>,
    g: Seq<FactView>,
    dirs: Seq<Seq<char>>,
    libs: Seq<Seq<char>>,
    n: int,
    i: int,
    j: int,
)
    requires
        0 <= i < n <= dirs.len(),
        0 <= j < libs.len(),
        absolute(dirs[i]),
        agree(f, g, shrink_paths(dirs, libs, n)),
    ensures
        fact_at(f, joined(dirs[i], libs[j])) == fact_at(g, joined(dirs[i], libs[j])),
    decreases n,
{
    let rest = shrink_paths(dirs, libs, n - 1);
    let all = shrink_paths(dirs, libs, n);
    if i == n - 1 {
        assert(all[rest.len() + j] == joined(dirs[i], libs[j]));
    } else {
        assert forall|k: int| 0 <= k < rest.len() implies fact_at(f, #[trigger] rest[k]) == fact_at(
            g,
            rest[k],
        ) by {
            assert(all[k] == rest[k]);
        }
        lemma_shrink_path(f, g, dirs, libs, n - 1, i, j);
    }
}

proof fn lemma_found_same(q: Search, g: Seq<FactView>, dirs: Seq<Seq<char>>, j: int, n: int)
    requires
        0 <= n <= dirs.len(),
        0 <= j < q.libs.len(),
        agree(q.facts, g, shrink_paths(dirs, q.libs, dirs.len() as int)),
    ensures
        found_before(q, dirs, j, n) == found_before(Search { facts: g, ..q }, dirs, j, n),
{
    let p = Search { facts: g, ..q };
    assert forall|i: int| 0 <= i < n && absolute(#[trigger] dirs[i]) implies supplies(
        q.facts,
        q.machine,
        dirs[i],
        q.libs[j],
    ) == supplies(g, q.machine, dirs[i], q.libs[j]) by {
        lemma_shrink_path(q.facts, g, dirs, q.libs, dirs.len() as int, i, j);
    }
    if found_before(q, dirs, j, n) {
        let i = choose|i: int|
            0 <= i < n && absolute(#[trigger] dirs[i]) && allowed_dir(dirs[i], q.allowed)
                && supplies(q.facts, q.machine, dirs[i], q.libs[j]);
        assert(absolute(dirs[i]) && supplies(p.facts, p.machine, dirs[i], p.libs[j]));
    }
    if found_before(p, dirs, j, n) {
        let i = choose|i: int|
            0 <= i < n && absolute(#[trigger] dirs[i]) && allowed_dir(dirs[i], p.allowed)
                && supplies(p.facts, p.machine, dirs[i], p.libs[j]);
        assert(absolute(dirs[i]) && supplies(q.facts, q.machine, dirs[i], q.libs[j]));
    }
}

proof fn lemma_useful_same(q: Search, g: Seq<FactView>, dirs: Seq<Seq<char>>, i: int)
    requires
        0 <= i < dirs.len(),
        agree(q.facts, g, shrink_paths(dirs, q.libs, dirs.len() as int)),
    ensures
        useful(q, dirs, i) == useful(Search { facts: g, ..q }, dirs, i),
{
    let p = Search { facts: g, ..q };
    if absolute(dirs[i]) {
        assert forall|j: int| 0 <= j < q.libs.len() implies supplies(
            q.facts,
            q.machine,
            dirs[i],
            #[trigger] q.libs[j],
        ) == supplies(g, q.machine, dirs[i], q.libs[j]) && found_before(q, dirs, j, i)
            == found_before(p, dirs, j, i) by {
            lemma_shrink_path(q.facts, g, dirs, q.libs, dirs.len() as int, i, j);
            lemma_found_same(q, g, dirs, j, i);
        }
        if useful(q, dirs, i) {
            let j = choose|j: int|
                0 <= j < q.libs.len() && supplies(
                    q.facts,
                    q.machine,
                    dirs[i],
                    #[trigger] q.libs[j],
                ) && !found_before(q, dirs, j, i);
            assert(supplies(p.facts, p.machine, dirs[i], p.libs[j]) && !found_before(
                p,
                dirs,
                j,
                i,
            ));
        }
        if useful(p, dirs, i) {
            let j = choose|j: int|
                0 <= j < p.libs.len() && supplies(
                    p.facts,
                    p.machine,
                    dirs[i],
                    #[trigger] p.libs[j],
                ) && !found_before(p, dirs, j, i);
            assert(supplies(q.facts, q.machine, dirs[i], q.libs[j]) && !found_before(
                q,
                dirs,
                j,
                i,
            ));
        }
    }
}

proof fn lemma_cached_dir_same(
    cache: Seq<(Seq<char>, Seq<char>)>,
    f: Seq<FactView>,
    g: Seq<FactView>,
    dir: Seq<char>,
    libs: Seq<Seq<char>>,
    n: int,
)
    requires
        0 <= n <= libs.len(),
        fact_at(f, joined(dir, "glibc-hwcaps"@)) == fact_at(g, joined(dir, "glibc-hwcaps"@)),
        agree(f, g, under_dir(dir, libs)),
    ensures
        cached_dir(cache, f, dir, libs, n) == cached_dir(cache, g, dir, libs, n),
    decreases n,
{
    if n > 0 {
        lemma_cached_dir_same(cache, f, g, dir, libs, n - 1);
        assert(under_dir(dir, libs)[n - 1] == dir + "/"@ + libs[n - 1]);
        assert(place_in(f, dir, libs[n - 1]) == place_in(g, dir, libs[n - 1]));
    }
}

proof fn lemma_cached_same(
    f: Seq<FactView>,
    g: Seq<FactView>,
    dirs: Seq<Seq<char>>,
    libs: Seq<Seq<char>>,
    n: int,
)
    requires
        0 <= n <= dirs.len(),
        agree(f, g, cache_paths(dirs, libs, n)),
    ensures
        cached(f, dirs, libs, n) == cached(g, dirs, libs, n),
    decreases n,
{
    if n > 0 {
        let rest = cache_paths(dirs, libs, n - 1);
        let all = cache_paths(dirs, libs, n);
        let dir = dirs[n - 1];
        assert forall|k: int| 0 <= k < rest.len() implies fact_at(f, #[trigger] rest[k]) == fact_at(
            g,
            rest[k],
        ) by {
            assert(all[k] == rest[k]);
        }
        assert(all[rest.len() as int] == joined(dir, "glibc-hwcaps"@));
        let under = under_dir(dir, libs);
        assert forall|k: int| 0 <= k < under.len() implies fact_at(f, #[trigger] under[k])
            == fact_at(g, under[k]) by {
            assert(all[rest.len() + 1 + k] == under[k]);
        }
        lemma_cached_same(f, g, dirs, libs, n - 1);
        lemma_cached_dir_same(
            cached(f, dirs, libs, n - 1),
            f,
            g,
            dir,
            libs,
            libs.len() as int,
        );
    }
}

/// An operation depends on the files around the edited one only through what is
/// at the paths that it asks about.
pub proof fn law_probes_suffice(
    v: ImageView,
    r: ReportView,
    op: OperationView,
    mods: ModifiersView,
    around: SurroundingsView,
    g: Seq<FactView>,
)
    requires
        agree(around.files, g, probe_paths(v, op)),
    ensures
        applied(v, r, op, mods, around) == applied(
            v,
            r,
            op,
            mods,
            SurroundingsView { files: g, ..around },
        ),
{
    match op {
        OperationView::ShrinkRpath => {
            if let (Ok(cur), Ok(libs)) = (run_path(v), needed_of(v)) {
                let dirs = fields(cur, ':');
                let q = Search {
                    libs,
                    allowed: mods.allowed_rpath_prefixes,
                    machine: v.ehdr.machine,
                    facts: around.files,
                };
                let p = Search { facts: g, ..q };
                let a = Seq::new(dirs.len(), |i: int| useful(q, dirs, i));
                let b = Seq::new(dirs.len(), |i: int| useful(p, dirs, i));
                assert forall|i: int| 0 <= i < dirs.len() implies a[i] == b[i] by {
                    lemma_useful_same(q, g, dirs, i);
                }
                assert(a =~= b);
            }
        },
        OperationView::BuildResolutionCache => {
            if let Ok(libs) = needed_of(v) {
                let dirs = fields(search_path(v), ':');
                lemma_cached_same(around.files, g, dirs, libs, dirs.len() as int);
            }
        },
        _ => {},
    }
}

} // verus!
