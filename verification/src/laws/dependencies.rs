//! A file that is wired up finds its libraries, and what is nowhere is reported.
use vstd::prelude::*;
use vstd::utf8::encode_utf8;

use crate::autoformatelf::{distinct, lib_fits, lossy_list, CachedView};
use crate::cli::OperationView;
use crate::error::Outcome;
use crate::ir::ImageView;
use crate::laws::edits::storable;
use crate::laws::lists::{is_item, law_items_read_back, lemma_storable_join};
use crate::laws::requests::law_distinct;
use crate::ops::needed_of;
use crate::parser::parsed;
use crate::patch::patched;
use crate::paths::lossy;
use crate::seqs::{first, lemma_first_from};
use crate::text::{fields, join};
use crate::wiring::{
    dep_name, deps_of, dirs_for, in_libc, left_alone, lookup_of, missing_for, no_surroundings,
    place_from, place_of, plain_modifiers, rpaths_of, wired, Lookup, Place, WiringView,
};

verus! {

/// Whether a file is for the target and can be wired up: it has segments and its code,
/// is of the target's machine, class and OS ABI, and is no static executable.
pub open spec fn is_wired_up(v: ImageView, w: WiringView) -> bool {
    &&& v.phdrs.len() > 0
    &&& v.ehdr.e_type == 2 ==> v.find_section(".interp"@) is Some
    &&& v.find_section(".text"@) matches Some(k) ==> v.shdrs[k].sh_type != 8
    &&& v.ehdr.machine == w.target.arch.machine
    &&& (v.enc.class is Elf64) == w.target.arch.elf64
    &&& v.ehdr.os_abi == w.target.osabi || v.ehdr.os_abi == 0 || w.target.osabi == 0
}

/// Whether a name is an absolute path at which there is a file.
pub open spec fn at_absolute(w: WiringView, name: Seq<char>) -> bool {
    name.len() > 0 && name[0] == '/' && w.files.contains(encode_utf8(name))
}

/// The path of a name in a directory.
pub open spec fn path_under(dir: Seq<u8>, name: Seq<u8>) -> Seq<u8> {
    if name.len() > 0 && name[0] == 0x2f {
        name
    } else if dir.len() == 0 || dir.last() == 0x2f {
        dir + name
    } else {
        dir + seq![0x2fu8] + name
    }
}

/// Whether the directory of the C library has a file of that name.
pub open spec fn beside_libc(w: WiringView, name: Seq<char>) -> bool {
    w.cfg.libc_lib matches Some(l) && w.files.contains(path_under(l, encode_utf8(name)))
}

/// Whether the C library's directory has to be named too.
pub open spec fn names_libc(v: ImageView, w: WiringView) -> bool {
    w.cfg.keep_libc || v.ehdr.os_abi == 9 || v.ehdr.os_abi == 12
}

/// Whether a library in the cache is the one of that name for a file.
pub open spec fn serves(l: CachedView, v: ImageView, name: Seq<char>) -> bool {
    &&& l.name == name
    &&& l.arch.machine == v.ehdr.machine
    &&& l.arch.elf64 == (v.enc.class is Elf64)
    &&& l.osabi == v.ehdr.os_abi || l.osabi == 0 || v.ehdr.os_abi == 0
}

/// Whether nothing of that name is anywhere.
pub open spec fn nowhere(v: ImageView, w: WiringView, name: Seq<char>) -> bool {
    &&& !at_absolute(w, name)
    &&& !beside_libc(w, name)
    &&& forall|m: int| 0 <= m < w.cache.libs.len() ==> !serves(#[trigger] w.cache.libs[m], v, name)
}

/// Whether a name is found in the cache, as library `m`, the first that serves: the
/// loader does not find it by itself.
pub open spec fn in_cache(v: ImageView, w: WiringView, name: Seq<char>, m: int) -> bool {
    &&& !at_absolute(w, name)
    &&& !(beside_libc(w, name) && !names_libc(v, w))
    &&& 0 <= m < w.cache.libs.len()
    &&& serves(w.cache.libs[m], v, name)
    &&& forall|j: int| 0 <= j < m ==> !serves(#[trigger] w.cache.libs[j], v, name)
}

/// Whether a dependency is found in the cache: alternative `a`, the first that is
/// anywhere, is library `m` of it.
pub open spec fn dep_in_cache(
    v: ImageView,
    w: WiringView,
    names: Seq<Seq<char>>,
    a: int,
    m: int,
) -> bool {
    &&& 0 <= a < names.len()
    &&& in_cache(v, w, names[a], m)
    &&& forall|b: int| 0 <= b < a ==> nowhere(v, w, #[trigger] names[b])
}

/// Whether no alternative of a dependency is anywhere.
pub open spec fn dep_nowhere(v: ImageView, w: WiringView, names: Seq<Seq<char>>) -> bool {
    forall|a: int| 0 <= a < names.len() ==> nowhere(v, w, #[trigger] names[a])
}

spec fn lookup(v: ImageView, w: WiringView) -> Lookup {
    lookup_of(v, w.cache, w.cfg, w.files)
}

/// Where one name is.
proof fn lemma_place_of(v: ImageView, w: WiringView, name: Seq<char>)
    ensures
        place_of(lookup(v, w), name) is Nowhere <==> nowhere(v, w, name),
        forall|m: int| #[trigger]
            in_cache(v, w, name, m) ==> place_of(lookup(v, w), name) == Place::Dir(
                w.cache.libs[m].dir,
            ),
        place_of(lookup(v, w), name) matches Place::Dir(d) ==> exists|m: int| #[trigger]
            in_cache(v, w, name, m) && d == w.cache.libs[m].dir,
{
    let q = lookup(v, w);
    let p = lib_fits(name, q.arch, q.osabi);
    let b = encode_utf8(name);
    if let Some(l) = w.cfg.libc_lib {
        if l.len() == 0 {
            assert(l + b =~= b);
        }
        assert(l.push(0x2f) + b =~= l + seq![0x2fu8] + b);
        assert(crate::wiring::joined_bytes(l, b) == path_under(l, b));
    }
    assert(in_libc(q, name) == beside_libc(w, name));
    assert forall|m: int| 0 <= m < w.cache.libs.len() implies #[trigger] serves(
        w.cache.libs[m],
        v,
        name,
    ) == p(w.cache.libs[m]) by {}
    lemma_first_from(w.cache.libs, p, 0);
    match first(w.cache.libs, p) {
        Some(k) => {
            assert(p(w.cache.libs[k]));
            assert(serves(w.cache.libs[k], v, name));
            assert forall|j: int| 0 <= j < k implies !serves(#[trigger] w.cache.libs[j], v, name) by {
                assert(!p(w.cache.libs[j]));
            }
            if place_of(q, name) is Dir {
                assert(in_cache(v, w, name, k));
            }
            assert forall|m: int| #[trigger] in_cache(v, w, name, m) implies m == k by {
                if m < k {
                    assert(serves(w.cache.libs[m], v, name));
                } else if k < m {
                    assert(serves(w.cache.libs[k], v, name));
                }
            }
        },
        None => {
            assert forall|m: int| 0 <= m < w.cache.libs.len() implies !serves(
                #[trigger] w.cache.libs[m],
                v,
                name,
            ) by {
                assert(!p(w.cache.libs[m]));
            }
        },
    }
}

/// Where a dependency is.
proof fn lemma_place_from(v: ImageView, w: WiringView, names: Seq<Seq<char>>, i: int)
    requires
        0 <= i,
    ensures
        place_from(lookup(v, w), names, i) is Nowhere <==> forall|a: int|
            i <= a < names.len() ==> nowhere(v, w, #[trigger] names[a]),
        forall|a: int, m: int|
            i <= a < names.len() && #[trigger] in_cache(v, w, names[a], m) && (forall|b: int|
                i <= b < a ==> nowhere(v, w, #[trigger] names[b])) ==> place_from(
                lookup(v, w),
                names,
                i,
            ) == Place::Dir(w.cache.libs[m].dir),
        place_from(lookup(v, w), names, i) matches Place::Dir(d) ==> exists|a: int, m: int|
            i <= a < names.len() && #[trigger] in_cache(v, w, names[a], m) && (forall|b: int|
                i <= b < a ==> nowhere(v, w, #[trigger] names[b])) && d == w.cache.libs[m].dir,
    decreases names.len() - i,
{
    let q = lookup(v, w);
    if i < names.len() {
        lemma_place_of(v, w, names[i]);
        lemma_place_from(v, w, names, i + 1);
        assert forall|a: int, m: int|
            i <= a < names.len() && #[trigger] in_cache(v, w, names[a], m) && (forall|b: int|
                i <= b < a ==> nowhere(v, w, #[trigger] names[b])) implies place_from(q, names, i)
            == Place::Dir(w.cache.libs[m].dir) by {
            if a > i {
                assert(nowhere(v, w, names[i]));
            }
        }
        if let Place::Dir(d) = place_from(q, names, i) {
            if place_of(q, names[i]) is Nowhere {
                let (a, m) = choose|a: int, m: int|
                    i + 1 <= a < names.len() && #[trigger] in_cache(v, w, names[a], m) && (forall|
                        b: int,
                    |
                        i + 1 <= b < a ==> nowhere(v, w, #[trigger] names[b])) && d
                        == w.cache.libs[m].dir;
                assert(i <= a < names.len() && in_cache(v, w, names[a], m));
            } else {
                let m = choose|m: int| #[trigger]
                    in_cache(v, w, names[i], m) && d == w.cache.libs[m].dir;
                assert(i <= i < names.len() && in_cache(v, w, names[i], m));
            }
        }
    }
}

/// Whether dependency names resolve to the directory `d` of the cache.
pub open spec fn dep_dir(v: ImageView, w: WiringView, names: Seq<Seq<char>>, d: Seq<u8>) -> bool {
    exists|a: int, m: int| #[trigger]
        dep_in_cache(v, w, names, a, m) && d == w.cache.libs[m].dir
}

proof fn lemma_dep(v: ImageView, w: WiringView, names: Seq<Seq<char>>)
    ensures
        place_from(lookup(v, w), names, 0) is Nowhere <==> dep_nowhere(v, w, names),
        forall|d: Seq<u8>| #[trigger]
            dep_dir(v, w, names, d) <==> place_from(lookup(v, w), names, 0) == Place::Dir(d),
{
    lemma_place_from(v, w, names, 0);
    assert forall|d: Seq<u8>| #[trigger]
        dep_dir(v, w, names, d) <==> place_from(lookup(v, w), names, 0) == Place::Dir(d) by {
        if dep_dir(v, w, names, d) {
            let (a, m) = choose|a: int, m: int| #[trigger]
                dep_in_cache(v, w, names, a, m) && d == w.cache.libs[m].dir;
            assert(in_cache(v, w, names[a], m));
        }
        if place_from(lookup(v, w), names, 0) == Place::Dir(d) {
            let (a, m) = choose|a: int, m: int|
                0 <= a < names.len() && #[trigger] in_cache(v, w, names[a], m) && (forall|b: int|
                    0 <= b < a ==> nowhere(v, w, #[trigger] names[b])) && d == w.cache.libs[m].dir;
            assert(dep_in_cache(v, w, names, a, m));
        }
    }
}

/// The dependencies that add a directory.
proof fn lemma_dirs(v: ImageView, w: WiringView, deps: Seq<Seq<Seq<char>>>, n: int) -> (at: Seq<int>)
    requires
        0 <= n <= deps.len(),
    ensures
        at.len() == dirs_for(lookup(v, w), deps, n).len(),
        forall|i: int|
            0 <= i < at.len() ==> 0 <= #[trigger] at[i] < n && dep_dir(
                v,
                w,
                deps[at[i]],
                dirs_for(lookup(v, w), deps, n)[i],
            ),
        forall|i: int, j: int| 0 <= i < j < at.len() ==> #[trigger] at[i] < #[trigger] at[j],
        forall|k: int|
            0 <= k < n ==> (#[trigger] at.contains(k) <==> exists|d: Seq<u8>| #[trigger]
                dep_dir(v, w, deps[k], d)),
    decreases n,
{
    let q = lookup(v, w);
    if n <= 0 {
        Seq::empty()
    } else {
        let before = lemma_dirs(v, w, deps, n - 1);
        lemma_dep(v, w, deps[n - 1]);
        let at = if place_from(q, deps[n - 1], 0) is Dir {
            before.push(n - 1)
        } else {
            before
        };
        let dirs = dirs_for(q, deps, n);
        assert forall|i: int| 0 <= i < at.len() implies 0 <= #[trigger] at[i] < n && dep_dir(
            v,
            w,
            deps[at[i]],
            dirs[i],
        ) by {
            if i < before.len() {
                assert(at[i] == before[i]);
            }
        }
        assert forall|k: int| 0 <= k < n implies (#[trigger] at.contains(k) <==> exists|d: Seq<u8>|
         #[trigger]
            dep_dir(v, w, deps[k], d)) by {
            if before.contains(k) {
                let i = choose|i: int| 0 <= i < before.len() && before[i] == k;
                assert(at[i] == k);
            }
            if at.contains(k) {
                let i = choose|i: int| 0 <= i < at.len() && at[i] == k;
                if i < before.len() {
                    assert(before[i] == k);
                    assert(before.contains(k));
                }
                assert(dep_dir(v, w, deps[at[i]], dirs[i]));
            }
            if k == n - 1 && at.len() > before.len() {
                assert(at[before.len() as int] == k);
            }
        }
        at
    }
}

/// The dependencies that are reported.
proof fn lemma_missing(
    v: ImageView,
    w: WiringView,
    deps: Seq<Seq<Seq<char>>>,
    n: int,
) -> (at: Seq<int>)
    requires
        0 <= n <= deps.len(),
    ensures
        at.len() == missing_for(lookup(v, w), deps, n).len(),
        forall|i: int|
            0 <= i < at.len() ==> 0 <= #[trigger] at[i] < n && missing_for(lookup(v, w), deps, n)[i]
                == dep_name(deps[at[i]]),
        forall|i: int, j: int| 0 <= i < j < at.len() ==> #[trigger] at[i] < #[trigger] at[j],
        forall|k: int|
            0 <= k < n ==> (#[trigger] at.contains(k) <==> dep_nowhere(v, w, deps[k])),
    decreases n,
{
    let q = lookup(v, w);
    if n <= 0 {
        Seq::empty()
    } else {
        let before = lemma_missing(v, w, deps, n - 1);
        lemma_dep(v, w, deps[n - 1]);
        let at = if dep_nowhere(v, w, deps[n - 1]) {
            before.push(n - 1)
        } else {
            before
        };
        assert forall|k: int| 0 <= k < n implies (#[trigger] at.contains(k) <==> dep_nowhere(
            v,
            w,
            deps[k],
        )) by {
            if before.contains(k) {
                let i = choose|i: int| 0 <= i < before.len() && before[i] == k;
                assert(at[i] == k);
            }
            if at.contains(k) {
                let i = choose|i: int| 0 <= i < at.len() && at[i] == k;
                if i < before.len() {
                    assert(before[i] == k);
                    assert(before.contains(k));
                }
            }
            if k == n - 1 && at.len() > before.len() {
                assert(at[before.len() as int] == k);
            }
        }
        at
    }
}

/// A file is wired up exactly when it is for the target.
proof fn lemma_wired_up(v: ImageView, w: WiringView)
    ensures
        left_alone(v, w.target) == !is_wired_up(v, w),
{
    assert(v.enc.class is Elf64 || v.enc.class is Elf32);
}

/// A file that is not for the target, or not a file that can be wired up, is left alone,
/// and nothing of it is missing.
pub proof fn law_other_files_are_left(data: Seq<u8>, w: WiringView)
    requires
        parsed(data) matches Ok(v) ==> !is_wired_up(v, w),
    ensures
        wired(data, w) == Outcome::<(Option<Seq<u8>>, Seq<Seq<char>>)>::Ok((None, Seq::empty())),
{
    if let Ok(v) = parsed(data) {
        lemma_wired_up(v, w);
    }
}

/// The dependencies that are reported as missing are those of which no alternative is
/// anywhere, in their order, whatever else is found. Gives their places among the
/// dependencies.
pub proof fn law_missing_are_reported(data: Seq<u8>, w: WiringView) -> (at: Seq<int>)
    requires
        parsed(data) matches Ok(v) && is_wired_up(v, w),
    ensures
        wired(data, w) matches Ok((_, missing)) ==> {
            let v = parsed(data)->Ok_0;
            let deps = deps_of(v);
            &&& at.len() == missing.len()
            &&& forall|i: int|
                0 <= i < at.len() ==> 0 <= #[trigger] at[i] < deps.len() && missing[i] == dep_name(
                    deps[at[i]],
                )
            &&& forall|i: int, j: int| 0 <= i < j < at.len() ==> #[trigger] at[i] < #[trigger] at[j]
            &&& forall|k: int|
                0 <= k < deps.len() ==> (#[trigger] at.contains(k) <==> dep_nowhere(v, w, deps[k]))
        },
{
    let v = parsed(data)->Ok_0;
    lemma_wired_up(v, w);
    lemma_missing(v, w, deps_of(v), deps_of(v).len() as int)
}

/// The file that is written: the interpreter is set where the file has one, then the run
/// path.
pub open spec fn rewired(
    data: Seq<u8>,
    w: WiringView,
    path: Option<Seq<char>>,
) -> Outcome<Seq<u8>> {
    let first = if parsed(data)->Ok_0.find_section(".interp"@) is Some {
        seq![OperationView::SetInterpreter(w.target.interpreter)]
    } else {
        Seq::empty()
    };
    let ops = match path {
        Some(p) => first.push(OperationView::SetRpath(p)),
        None => first,
    };
    patched(data, ops, plain_modifiers(), no_surroundings(), w.cfg.page_size)
}

/// The run path that is set names, each once and first where it comes first: the
/// run-time dependencies of an executable, the directory in the cache of each dependency
/// that is found there, whatever else is missing, and the directories that are to be
/// appended. Where there is none of them the run path stays, and where there is nothing
/// to set the file does. Gives the directories of the dependencies and the places of
/// those.
pub proof fn law_run_path_of_wired(data: Seq<u8>, w: WiringView) -> (r: (Seq<Seq<u8>>, Seq<int>))
    requires
        parsed(data) matches Ok(v) && is_wired_up(v, w),
    ensures
        ({
            let v = parsed(data)->Ok_0;
            let deps = deps_of(v);
            let (dirs, at) = r;
            let all = (if v.find_section(".interp"@) is Some {
                w.cfg.runtime_deps
            } else {
                Seq::empty()
            }) + dirs + w.cfg.append_rpaths;
            let path = if all.len() == 0 {
                None
            } else {
                Some(join(distinct(lossy_list(all)), seq![':']))
            };
            &&& at.len() == dirs.len()
            &&& forall|i: int|
                0 <= i < at.len() ==> 0 <= #[trigger] at[i] < deps.len() && dep_dir(
                    v,
                    w,
                    deps[at[i]],
                    dirs[i],
                )
            &&& forall|i: int, j: int| 0 <= i < j < at.len() ==> #[trigger] at[i] < #[trigger] at[j]
            &&& forall|k: int|
                0 <= k < deps.len() ==> (#[trigger] at.contains(k) <==> exists|d: Seq<u8>|
                 #[trigger]
                    dep_dir(v, w, deps[k], d))
            &&& match wired(data, w) {
                Ok((Some(out), _)) => rewired(data, w, path) == Outcome::<Seq<u8>>::Ok(out),
                Ok((None, _)) => path is None && v.find_section(".interp"@) is None,
                Err(e) => rewired(data, w, path) == Outcome::<Seq<u8>>::Err(e),
            }
        }),
{
    let v = parsed(data)->Ok_0;
    let q = lookup(v, w);
    let deps = deps_of(v);
    lemma_wired_up(v, w);
    let at = lemma_dirs(v, w, deps, deps.len() as int);
    let dirs = dirs_for(q, deps, deps.len() as int);
    let all = rpaths_of(v, q, w.cfg);
    reveal_strlit(":");
    assert(":"@ =~= seq![':']);
    law_distinct(lossy_list(all));
    if all.len() > 0 {
        assert(lossy_list(all).contains(lossy_list(all)[0]));
    } else {
        assert(lossy_list(all).len() == 0);
    }
    (dirs, at)
}

/// Whether the directories that a run path can get have names that a string table can hold.
pub open spec fn dirs_storable(w: WiringView) -> bool {
    &&& forall|m: int|
        0 <= m < w.cache.libs.len() ==> storable(lossy((#[trigger] w.cache.libs[m]).dir))
    &&& forall|m: int|
        0 <= m < w.cfg.runtime_deps.len() ==> storable(lossy(#[trigger] w.cfg.runtime_deps[m]))
    &&& forall|m: int|
        0 <= m < w.cfg.append_rpaths.len() ==> storable(lossy(#[trigger] w.cfg.append_rpaths[m]))
}

/// Each dependency that is found in a directory of the cache has that directory among
/// the components of the run path that is set, whether others are found or missing.
/// Gives that run path.
pub proof fn law_found_libraries_are_on_the_run_path(
    data: Seq<u8>,
    w: WiringView,
    k: int,
    d: Seq<u8>,
) -> (p: Seq<char>)
    requires
        parsed(data) matches Ok(v) && is_wired_up(v, w) && 0 <= k < deps_of(v).len() && dep_dir(
            v,
            w,
            deps_of(v)[k],
            d,
        ),
        forall|m: int|
            0 <= m < w.cache.libs.len() ==> is_item(lossy((#[trigger] w.cache.libs[m]).dir), ':'),
        forall|m: int|
            0 <= m < w.cfg.runtime_deps.len() ==> is_item(
                lossy(#[trigger] w.cfg.runtime_deps[m]),
                ':',
            ),
        forall|m: int|
            0 <= m < w.cfg.append_rpaths.len() ==> is_item(
                lossy(#[trigger] w.cfg.append_rpaths[m]),
                ':',
            ),
    ensures
        fields(p, ':').contains(lossy(d)),
        dirs_storable(w) ==> storable(p),
        wired(data, w) matches Ok((out, _)) ==> out is Some && rewired(data, w, Some(p))
            == Outcome::<Seq<u8>>::Ok(out->Some_0),
{
    let v = parsed(data)->Ok_0;
    let deps = deps_of(v);
    let (dirs, at) = law_run_path_of_wired(data, w);
    let head = if v.find_section(".interp"@) is Some {
        w.cfg.runtime_deps
    } else {
        Seq::empty()
    };
    let all = head + dirs + w.cfg.append_rpaths;
    let texts = lossy_list(all);
    assert(at.contains(k));
    let i = choose|i: int| 0 <= i < at.len() && at[i] == k;
    lemma_dep(v, w, deps[k]);
    assert(dep_dir(v, w, deps[at[i]], dirs[i]));
    assert(dirs[i] == d);
    assert(all[head.len() + i] == d);
    assert(texts[head.len() + i] == lossy(d));
    assert(texts.contains(lossy(d)));
    let each = distinct(texts);
    law_distinct(texts);
    assert(each.contains(lossy(d)));
    assert forall|j: int| 0 <= j < each.len() implies is_item(#[trigger] each[j], ':') && (
    dirs_storable(w) ==> storable(each[j])) by {
        assert(each.contains(each[j]));
        let x = choose|x: int| 0 <= x < texts.len() && texts[x] == each[j];
        if x < head.len() {
            assert(all[x] == w.cfg.runtime_deps[x]);
        } else if x < head.len() + dirs.len() {
            let y = x - head.len();
            assert(all[x] == dirs[y]);
            assert(dep_dir(v, w, deps[at[y]], dirs[y]));
            let (a, m) = choose|a: int, m: int| #[trigger]
                dep_in_cache(v, w, deps[at[y]], a, m) && dirs[y] == w.cache.libs[m].dir;
            assert(is_item(lossy(w.cache.libs[m].dir), ':'));
        } else {
            let z = x - head.len() - dirs.len();
            assert(all[x] == w.cfg.append_rpaths[z]);
        }
    }
    law_items_read_back(each, ':');
    if dirs_storable(w) {
        vstd::utf8::is_ascii_chars_encode_utf8(seq![':']);
        lemma_storable_join(each, seq![':']);
    }
    join(each, seq![':'])
}

/// What a file depends on: first the libraries that it needs, each by itself.
pub proof fn law_needed_are_dependencies(v: ImageView)
    ensures
        needed_of(v) matches Ok(libs) ==> libs.len() <= deps_of(v).len() && forall|i: int|
            0 <= i < libs.len() ==> #[trigger] deps_of(v)[i] == seq![libs[i]] && dep_name(
                deps_of(v)[i],
            ) == libs[i],
{
}

} // verus!
