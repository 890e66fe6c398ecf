//! What is done to one file so that it finds its libraries.
use std::path::PathBuf;

use vstd::prelude::*;
use vstd::utf8::encode_utf8;

use crate::autoformatelf::{
    abi_fits, arch_of, found_dir, is_separate_debug, join_rpaths, joined_rpaths, osabi_compatible,
    separate_debug, Arch, Cache, CacheView, Config, ConfigView, Target, TargetView,
    ELFOSABI_FREEBSD, ELFOSABI_OPENBSD,
};
use crate::cli::{op_views, Operation, OperationView};
use crate::dlopen::{dlopen_deps, dlopen_lists, list_views};
use crate::error::{Error, ErrorView, Outcome, Result};
use crate::glob::{glob_match, matches_glob};
use crate::ir::{et, ElfImage, ImageView};
use crate::ops::{needed, needed_of, Modifiers, ModifiersView, Surroundings, SurroundingsView};
use crate::parser::{parse, parsed};
use crate::patch::{patch_data, patched};
use crate::paths::{bytes_of_path, lossy, path_bytes, path_list, path_lossy};
use crate::text::{concat, concat3, join, join_texts, same_bytes, texts};

verus! {

/// Whether a file is left alone: a static executable, a file without segments,
/// the debug half of another, or one for another target.
pub open spec fn left_alone(v: ImageView, target: TargetView) -> bool {
    (v.ehdr.e_type == et::EXEC && v.find_section(".interp"@) is None) || v.phdrs.len() == 0
        || separate_debug(v) || arch_of(v) != target.arch || !abi_fits(
        target.osabi,
        v.ehdr.os_abi,
    )
}

/// What a file depends on: each list holds alternatives, of which one is enough.
pub open spec fn deps_of(v: ImageView) -> Seq<Seq<Seq<char>>> {
    let own = match needed_of(v) {
        Ok(libs) => Seq::new(libs.len(), |i: int| seq![libs[i]]),
        Err(_) => Seq::empty(),
    };
    own + dlopen_lists(v)
}

/// `name` in the directory `dir`, in bytes; an absolute name stands for itself.
pub open spec fn joined_bytes(dir: Seq<u8>, name: Seq<u8>) -> Seq<u8> {
    if (name.len() > 0 && name[0] == 0x2f) || dir.len() == 0 {
        name
    } else if dir.last() == 0x2f {
        dir + name
    } else {
        dir.push(0x2f) + name
    }
}

/// What the search for libraries depends on.
pub struct Lookup {
    pub cache: CacheView,
    /// The paths that are known to be files.
    pub files: Seq<Seq<u8>>,
    pub arch: Arch,
    pub osabi: u8,
    pub libc_lib: Option<Seq<u8>>,
    pub keep_libc: bool,
}

/// Where a library is.
pub enum Place {
    /// Where the loader finds it by itself.
    Known,
    /// In a directory that the run path has to name.
    Dir(Seq<u8>),
    Nowhere,
}

/// Whether the C library's directory has `name`.
pub open spec fn in_libc(q: Lookup, name: Seq<char>) -> bool {
    q.libc_lib matches Some(l) && q.files.contains(joined_bytes(l, encode_utf8(name)))
}

/// Where the library `name` is: at an absolute path, or in the C library's
/// directory unless that is to be named too; else in the cache; else in the C
/// library's directory after all.
pub open spec fn place_of(q: Lookup, name: Seq<char>) -> Place {
    if (name.len() > 0 && name[0] == '/' && q.files.contains(encode_utf8(name))) || (in_libc(
        q,
        name,
    ) && !q.keep_libc) {
        Place::Known
    } else {
        match found_dir(q.cache, name, q.arch, q.osabi) {
            Some(dir) => Place::Dir(dir),
            None => if in_libc(q, name) {
                Place::Known
            } else {
                Place::Nowhere
            },
        }
    }
}

/// Where the first of the alternatives from `i` on is that is anywhere.
pub open spec fn place_from(q: Lookup, names: Seq<Seq<char>>, i: int) -> Place
    decreases names.len() - i,
{
    if i < 0 || i >= names.len() {
        Place::Nowhere
    } else if place_of(q, names[i]) is Nowhere {
        place_from(q, names, i + 1)
    } else {
        place_of(q, names[i])
    }
}

/// The directories that the first `n` dependencies add to the run path.
pub open spec fn dirs_for(q: Lookup, deps: Seq<Seq<Seq<char>>>, n: int) -> Seq<Seq<u8>>
    decreases n,
{
    if n <= 0 {
        Seq::empty()
    } else {
        match place_from(q, deps[n - 1], 0) {
            Place::Dir(d) => dirs_for(q, deps, n - 1).push(d),
            _ => dirs_for(q, deps, n - 1),
        }
    }
}

/// The name of a dependency.
pub open spec fn dep_name(names: Seq<Seq<char>>) -> Seq<char> {
    if names.len() == 1 {
        names[0]
    } else {
        "any("@ + join(names, ", "@) + ")"@
    }
}

/// The first `n` dependencies that are nowhere.
pub open spec fn missing_for(q: Lookup, deps: Seq<Seq<Seq<char>>>, n: int) -> Seq<Seq<char>>
    decreases n,
{
    if n <= 0 {
        Seq::empty()
    } else if place_from(q, deps[n - 1], 0) is Nowhere {
        missing_for(q, deps, n - 1).push(dep_name(deps[n - 1]))
    } else {
        missing_for(q, deps, n - 1)
    }
}

/// The search for what `v` depends on. The BSD loaders come without the C
/// library, which therefore has to be named there.
pub open spec fn lookup_of(
    v: ImageView,
    cache: CacheView,
    cfg: ConfigView,
    files: Seq<Seq<u8>>,
) -> Lookup {
    Lookup {
        cache,
        files,
        arch: arch_of(v),
        osabi: v.ehdr.os_abi,
        libc_lib: cfg.libc_lib,
        keep_libc: cfg.keep_libc || v.ehdr.os_abi == ELFOSABI_FREEBSD || v.ehdr.os_abi
            == ELFOSABI_OPENBSD,
    }
}

/// The run path directories of a file: the run-time dependencies of an
/// executable, where its libraries are, and what is to be appended.
pub open spec fn rpaths_of(v: ImageView, q: Lookup, cfg: ConfigView) -> Seq<Seq<u8>> {
    let deps = deps_of(v);
    (if v.find_section(".interp"@) is Some {
        cfg.runtime_deps
    } else {
        Seq::empty()
    }) + dirs_for(q, deps, deps.len() as int) + cfg.append_rpaths
}

/// The operations that wire a file up.
pub open spec fn wiring_ops(
    v: ImageView,
    target: TargetView,
    q: Lookup,
    cfg: ConfigView,
) -> Seq<OperationView> {
    let first = if v.find_section(".interp"@) is Some {
        seq![OperationView::SetInterpreter(target.interpreter)]
    } else {
        Seq::empty()
    };
    match joined_rpaths(rpaths_of(v, q, cfg)) {
        Some(p) => first.push(OperationView::SetRpath(p)),
        None => first,
    }
}

/// What wiring a file up needs besides the file.
pub struct WiringView {
    pub target: TargetView,
    pub cache: CacheView,
    pub cfg: ConfigView,
    pub files: Seq<Seq<u8>>,
}

/// The modifiers of a run without any.
pub open spec fn plain_modifiers() -> ModifiersView {
    ModifiersView { force_rpath: false, allowed_rpath_prefixes: Seq::empty(), debug: false }
}

/// Surroundings of which nothing is told.
pub open spec fn no_surroundings() -> SurroundingsView {
    SurroundingsView { files: Seq::empty(), symbol_map: Ok(Seq::empty()) }
}

/// What becomes of the file `data`: what to write in its place, if anything, and
/// the dependencies that are nowhere.
pub open spec fn wired(data: Seq<u8>, w: WiringView) -> Outcome<(Option<Seq<u8>>, Seq<Seq<char>>)> {
    match parsed(data) {
        Err(_) => Ok((None, Seq::empty())),
        Ok(v) => if left_alone(v, w.target) {
            Ok((None, Seq::empty()))
        } else {
            let q = lookup_of(v, w.cache, w.cfg, w.files);
            let ops = wiring_ops(v, w.target, q, w.cfg);
            let deps = deps_of(v);
            let missing = missing_for(q, deps, deps.len() as int);
            if ops.len() == 0 {
                Ok((None, missing))
            } else {
                match patched(data, ops, plain_modifiers(), no_surroundings(), w.cfg.page_size) {
                    Err(e) => Err(e),
                    Ok(b) => Ok((Some(b), missing)),
                }
            }
        },
    }
}

fn contains_path(files: &Vec<PathBuf>, b: &[u8]) -> (r: bool)
    ensures
        r == path_list(files@).contains(b@),
{
    let mut i: usize = 0;
    while i < files.len()
        invariant
            i <= files@.len(),
            forall|j: int| 0 <= j < i ==> #[trigger] path_list(files@)[j] != b@,
        decreases files@.len() - i,
    {
        assert(path_list(files@)[i as int] == path_bytes(files@[i as int]));
        if same_bytes(bytes_of_path(&files[i]).as_slice(), b) {
            return true;
        }
        i += 1;
    }
    false
}

fn join_bytes(dir: &[u8], name: &[u8]) -> (out: Vec<u8>)
    ensures
        out@ == joined_bytes(dir@, name@),
{
    let mut out: Vec<u8> = Vec::new();
    if (name.len() > 0 && name[0] == 0x2f) || dir.len() == 0 {
        out.extend_from_slice(name);
        assert(out@ =~= name@);
        return out;
    }
    out.extend_from_slice(dir);
    if dir[dir.len() - 1] != 0x2f {
        out.push(0x2f);
    }
    out.extend_from_slice(name);
    assert(out@ =~= joined_bytes(dir@, name@));
    out
}

/// What the search for libraries depends on.
struct Search<'a> {
    cache: &'a Cache,
    files: &'a Vec<PathBuf>,
    arch: Arch,
    osabi: u8,
    libc_lib: &'a Option<PathBuf>,
    keep_libc: bool,
}

impl<'a> Search<'a> {
    spec fn lookup(self) -> Lookup {
        Lookup {
            cache: self.cache@,
            files: path_list(self.files@),
            arch: self.arch,
            osabi: self.osabi,
            libc_lib: crate::paths::path_opt(*self.libc_lib),
            keep_libc: self.keep_libc,
        }
    }
}

/// Where a library is, in machine form.
enum Spot {
    Known,
    Dir(PathBuf),
    Nowhere,
}

impl Spot {
    spec fn place(self) -> Place {
        match self {
            Spot::Known => Place::Known,
            Spot::Dir(d) => Place::Dir(path_bytes(d)),
            Spot::Nowhere => Place::Nowhere,
        }
    }
}

fn find_spot(q: &Search, name: &str) -> (s: Spot)
    ensures
        s.place() == place_of(q.lookup(), name@),
{
    let b = name.as_bytes();
    let libc = match q.libc_lib {
        Some(l) => contains_path(
            q.files,
            join_bytes(bytes_of_path(l).as_slice(), b).as_slice(),
        ),
        None => false,
    };
    let absolute = crate::facts::starts_with_slash(name) && contains_path(q.files, b);
    if absolute || (libc && !q.keep_libc) {
        return Spot::Known;
    }
    match q.cache.find(name, q.arch, q.osabi) {
        Some(dir) => Spot::Dir(dir.clone()),
        None => if libc {
            Spot::Known
        } else {
            Spot::Nowhere
        },
    }
}

fn find_any(q: &Search, names: &Vec<String>) -> (s: Spot)
    ensures
        s.place() == place_from(q.lookup(), texts(names@), 0),
{
    let ghost all = texts(names@);
    let mut i: usize = 0;
    while i < names.len()
        invariant
            all == texts(names@),
            i <= names@.len(),
            place_from(q.lookup(), all, 0) == place_from(q.lookup(), all, i as int),
        decreases names@.len() - i,
    {
        assert(all[i as int] == names@[i as int]@);
        match find_spot(q, names[i].as_str()) {
            Spot::Nowhere => {},
            s => {
                return s;
            },
        }
        i += 1;
    }
    Spot::Nowhere
}

fn name_dep(names: &Vec<String>) -> (s: String)
    ensures
        s@ == dep_name(texts(names@)),
{
    assert(texts(names@).len() == names@.len());
    if names.len() == 1 {
        assert(texts(names@)[0] == names@[0]@);
        names[0].clone()
    } else {
        concat3("any(", join_texts(names, ", ").as_str(), ")")
    }
}

/// What a file depends on.
pub fn dependencies(image: &ElfImage) -> (out: Vec<Vec<String>>)
    requires
        image@.wf(),
    ensures
        list_views(out@) == deps_of(image@),
{
    let libs = match needed(image) {
        Ok(libs) => libs,
        Err(_) => {
            let none: Vec<String> = Vec::new();
            assert(texts(none@) =~= Seq::empty());
            none
        },
    };
    let ghost wanted = texts(libs@);
    let ghost own = Seq::new(wanted.len(), |i: int| seq![wanted[i]]);
    let mut out: Vec<Vec<String>> = Vec::new();
    let mut i: usize = 0;
    while i < libs.len()
        invariant
            wanted == texts(libs@),
            own == Seq::new(wanted.len(), |i: int| seq![wanted[i]]),
            i <= libs@.len(),
            out@.len() == i,
            forall|j: int| 0 <= j < i ==> texts((#[trigger] out@[j])@) == own[j],
        decreases libs@.len() - i,
    {
        let mut one: Vec<String> = Vec::new();
        one.push(libs[i].clone());
        assert(texts(one@) =~= seq![wanted[i as int]]);
        out.push(one);
        i += 1;
    }
    assert(list_views(out@) =~= own);
    assert(own =~= match needed_of(image@) {
        Ok(l) => Seq::new(l.len(), |i: int| seq![l[i]]),
        Err(_) => Seq::empty(),
    });
    crate::dlopen::append_lists(&mut out, dlopen_deps(image));
    out
}

/// What the search for a file's dependencies gave.
struct Resolved {
    dirs: Vec<PathBuf>,
    missing: Vec<String>,
}

fn resolve_deps(q: &Search, deps: &Vec<Vec<String>>) -> (r: Resolved)
    ensures
        path_list(r.dirs@) == dirs_for(q.lookup(), list_views(deps@), deps@.len() as int),
        texts(r.missing@) == missing_for(q.lookup(), list_views(deps@), deps@.len() as int),
{
    let ghost all = list_views(deps@);
    let mut dirs: Vec<PathBuf> = Vec::new();
    let mut missing: Vec<String> = Vec::new();
    let mut i: usize = 0;
    assert(path_list(dirs@) =~= Seq::empty());
    assert(texts(missing@) =~= Seq::empty());
    while i < deps.len()
        invariant
            all == list_views(deps@),
            i <= deps@.len(),
            path_list(dirs@) == dirs_for(q.lookup(), all, i as int),
            texts(missing@) == missing_for(q.lookup(), all, i as int),
        decreases deps@.len() - i,
    {
        assert(all[i as int] == texts(deps@[i as int]@));
        match find_any(q, &deps[i]) {
            Spot::Known => {},
            Spot::Dir(d) => {
                let ghost before = path_list(dirs@);
                dirs.push(d);
                assert(path_list(dirs@) =~= before.push(path_bytes(d)));
            },
            Spot::Nowhere => {
                let ghost before = texts(missing@);
                let name = name_dep(&deps[i]);
                missing.push(name);
                assert(texts(missing@) =~= before.push(name@));
            },
        }
        i += 1;
    }
    Resolved { dirs, missing }
}

fn is_left_alone(image: &ElfImage, target: &Target) -> (b: bool)
    ensures
        b == left_alone(image@, target@),
{
    let dynamic_exe = image.find_section(".interp").is_some();
    (image.ehdr.e_type == et::EXEC && !dynamic_exe) || image.phdrs.len() == 0 || is_separate_debug(
        image,
    ) || Arch::of(image) != target.arch || !osabi_compatible(target.osabi, image.ehdr.os_abi)
}

/// Every name that a file's dependencies may go by: where each is, absolute or in
/// the C library's directory, is to be found out before [`patch_one`].
pub fn candidates(data: &[u8]) -> (out: Vec<String>)
    ensures
        match parsed(data@) {
            Ok(v) => texts(out@) == deps_of(v).flatten(),
            Err(_) => out@.len() == 0,
        },
{
    let mut out: Vec<String> = Vec::new();
    let image = match parse(data) {
        Ok(image) => image,
        Err(_) => {
            return out;
        },
    };
    let deps = dependencies(&image);
    let ghost all = list_views(deps@);
    let mut i: usize = 0;
    assert(texts(out@) =~= all.take(0).flatten());
    while i < deps.len()
        invariant
            all == list_views(deps@),
            i <= deps@.len(),
            texts(out@) == all.take(i as int).flatten(),
        decreases deps@.len() - i,
    {
        let ghost start = texts(out@);
        let ghost names = all[i as int];
        assert(names == texts(deps@[i as int]@));
        let mut j: usize = 0;
        assert(start + names.take(0) =~= start);
        while j < deps[i].len()
            invariant
                i < deps@.len(),
                names == texts(deps@[i as int]@),
                j <= deps@[i as int]@.len(),
                texts(out@) == start + names.take(j as int),
            decreases deps@[i as int]@.len() - j,
        {
            let ghost before = texts(out@);
            out.push(deps[i][j].clone());
            assert(texts(out@) =~= before.push(names[j as int]));
            assert(before.push(names[j as int]) =~= start + names.take(j + 1));
            j += 1;
        }
        proof {
            assert(names.take(names.len() as int) =~= names);
            assert(all.take(i + 1) =~= all.take(i as int).push(names));
            all.take(i as int).lemma_flatten_push(names);
        }
        i += 1;
    }
    assert(all.take(all.len() as int) =~= all);
    out
}

/// What becomes of a file.
pub struct Wired {
    /// What to write in its place, if anything.
    pub output: Option<Vec<u8>>,
    /// The dependencies that are nowhere.
    pub missing: Vec<String>,
}

fn wiring(
    image: &ElfImage,
    target: &Target,
    q: &Search,
    cfg: &Config,
    r: &Resolved,
) -> (ops: Vec<Operation>)
    requires
        path_list(r.dirs@) == dirs_for(q.lookup(), deps_of(image@), deps_of(image@).len() as int),
    ensures
        op_views(ops@) == wiring_ops(image@, target@, q.lookup(), cfg@),
{
    let mut ops: Vec<Operation> = Vec::new();
    let mut rpaths: Vec<PathBuf> = Vec::new();
    assert(path_list(rpaths@) =~= Seq::empty());
    if image.find_section(".interp").is_some() {
        ops.push(Operation::SetInterpreter(target.interpreter.clone()));
        crate::autoformatelf::copy_paths(&mut rpaths, &cfg.runtime_deps);
        assert(path_list(rpaths@) =~= cfg@.runtime_deps);
        assert(op_views(ops@) =~= seq![OperationView::SetInterpreter(target@.interpreter)]);
    } else {
        assert(op_views(ops@) =~= Seq::empty());
    }
    crate::autoformatelf::copy_paths(&mut rpaths, &r.dirs);
    crate::autoformatelf::copy_paths(&mut rpaths, &cfg.append_rpaths);
    assert(path_list(rpaths@) =~= rpaths_of(image@, q.lookup(), cfg@));
    if let Some(p) = join_rpaths(&rpaths) {
        let ghost before = op_views(ops@);
        ops.push(Operation::SetRpath(p));
        assert(op_views(ops@) =~= before.push(OperationView::SetRpath(p@)));
    }
    ops
}

/// Wire one file up. `files` holds those of the [`candidates`], by absolute path
/// and in the C library's directory, that are files.
pub fn patch_one(
    data: &[u8],
    target: &Target,
    cache: &Cache,
    cfg: &Config,
    files: &Vec<PathBuf>,
) -> (res: Result<Wired>)
    ensures
        match res {
            Ok(w) => wired(
                data@,
                WiringView {
                    target: target@,
                    cache: cache@,
                    cfg: cfg@,
                    files: path_list(files@),
                },
            ) == Outcome::Ok(
                (
                    match w.output {
                        Some(b) => Some(b@),
                        None => None,
                    },
                    texts(w.missing@),
                ),
            ),
            Err(e) => wired(
                data@,
                WiringView {
                    target: target@,
                    cache: cache@,
                    cfg: cfg@,
                    files: path_list(files@),
                },
            ) == Outcome::<(Option<Seq<u8>>, Seq<Seq<char>>)>::Err(e@),
        },
{
    let nothing: Vec<String> = Vec::new();
    assert(texts(nothing@) =~= Seq::empty());
    let image = match parse(data) {
        Ok(image) => image,
        Err(_) => {
            return Ok(Wired { output: None, missing: nothing });
        },
    };
    if is_left_alone(&image, target) {
        return Ok(Wired { output: None, missing: nothing });
    }
    let osabi = image.ehdr.os_abi;
    let q = Search {
        cache,
        files,
        arch: Arch::of(&image),
        osabi,
        libc_lib: &cfg.libc_lib,
        keep_libc: cfg.keep_libc || osabi == ELFOSABI_FREEBSD || osabi == ELFOSABI_OPENBSD,
    };
    let deps = dependencies(&image);
    assert(list_views(deps@).len() == deps@.len());
    let r = resolve_deps(&q, &deps);
    let ops = wiring(&image, target, &q, cfg, &r);
    assert(op_views(ops@).len() == ops@.len());
    if ops.len() == 0 {
        return Ok(Wired { output: None, missing: r.missing });
    }
    let mods = Modifiers {
        force_rpath: false,
        allowed_rpath_prefixes: Vec::new(),
        debug: false,
    };
    assert(mods@.allowed_rpath_prefixes =~= Seq::empty());
    let around = Surroundings { files: Vec::new(), symbol_map: Ok(String::new()) };
    assert(around@.files =~= Seq::empty());
    assert(around@.symbol_map->Ok_0 =~= Seq::empty());
    let out = patch_data(data, &ops, &mods, &around, cfg.page_size)?;
    Ok(Wired { output: Some(out), missing: r.missing })
}

/// Whether one of the patterns matches `name`.
pub open spec fn ignored(patterns: Seq<Seq<char>>, name: Seq<char>) -> bool {
    exists|i: int| 0 <= i < patterns.len() && matches_glob(#[trigger] patterns[i], name)
}

fn is_ignored(patterns: &Vec<String>, name: &str) -> (b: bool)
    ensures
        b == ignored(texts(patterns@), name@),
{
    let mut i: usize = 0;
    while i < patterns.len()
        invariant
            i <= patterns@.len(),
            forall|j: int| 0 <= j < i ==> !matches_glob(#[trigger] texts(patterns@)[j], name@),
        decreases patterns@.len() - i,
    {
        assert(texts(patterns@)[i as int] == patterns@[i as int]@);
        if glob_match(patterns[i].as_str(), name) {
            assert(matches_glob(texts(patterns@)[i as int], name@));
            return true;
        }
        i += 1;
    }
    false
}

/// The dependencies that files miss.
pub open spec fn missing_views(v: Seq<(PathBuf, String)>) -> Seq<(Seq<u8>, Seq<char>)> {
    Seq::new(v.len(), |i: int| (path_bytes(v[i].0), v[i].1@))
}

/// What is said of a missing dependency.
pub open spec fn missing_line(
    file: Seq<u8>,
    dep: Seq<char>,
    patterns: Seq<Seq<char>>,
) -> Seq<char> {
    if ignored(patterns, dep) {
        "auto-formatelf: ignoring missing "@ + dep + " wanted by "@ + lossy(file)
    } else {
        "auto-formatelf: "@ + dep + " not found, wanted by "@ + lossy(file)
    }
}

/// What is said of all missing dependencies, and whether that is a failure: it is
/// when one of them is not ignored.
pub struct MissingReport {
    pub lines: Vec<String>,
    pub outcome: Result<()>,
}

/// Report the missing dependencies. Those that a pattern matches are no failure.
pub fn report_missing(missing: &Vec<(PathBuf, String)>, ignore: &Vec<String>) -> (r: MissingReport)
    ensures
        texts(r.lines@) == Seq::new(
            missing@.len(),
            |i: int|
                missing_line(
                    missing_views(missing@)[i].0,
                    missing_views(missing@)[i].1,
                    texts(ignore@),
                ),
        ),
        match r.outcome {
            Ok(_) => forall|i: int|
                0 <= i < missing@.len() ==> ignored(
                    texts(ignore@),
                    (#[trigger] missing_views(missing@)[i]).1,
                ),
            Err(e) => e@ == ErrorView::Missing(
                "auto-formatelf could not satisfy all dependencies; add them to --libs or pass --ignore-missing"@,
            ) && exists|i: int|
                0 <= i < missing@.len() && !ignored(
                    texts(ignore@),
                    (#[trigger] missing_views(missing@)[i]).1,
                ),
        },
{
    let ghost views = missing_views(missing@);
    let ghost want = Seq::new(
        missing@.len(),
        |i: int| missing_line(views[i].0, views[i].1, texts(ignore@)),
    );
    let mut lines: Vec<String> = Vec::new();
    let mut failed = false;
    let mut i: usize = 0;
    while i < missing.len()
        invariant
            views == missing_views(missing@),
            want == Seq::new(
                missing@.len(),
                |i: int| missing_line(views[i].0, views[i].1, texts(ignore@)),
            ),
            i <= missing@.len(),
            lines@.len() == i,
            forall|j: int| 0 <= j < i ==> (#[trigger] lines@[j])@ == want[j],
            failed == exists|j: int|
                0 <= j < i && !ignored(texts(ignore@), (#[trigger] views[j]).1),
        decreases missing@.len() - i,
    {
        let dep = missing[i].1.as_str();
        assert(views[i as int] == (path_bytes(missing@[i as int].0), dep@));
        let file = path_lossy(&missing[i].0);
        if is_ignored(ignore, dep) {
            let head = concat3("auto-formatelf: ignoring missing ", dep, " wanted by ");
            lines.push(concat(head.as_str(), file.as_str()));
        } else {
            assert(!ignored(texts(ignore@), views[i as int].1));
            let head = concat3("auto-formatelf: ", dep, " not found, wanted by ");
            lines.push(concat(head.as_str(), file.as_str()));
            failed = true;
        }
        assert(lines@[i as int]@ == want[i as int]);
        i += 1;
    }
    assert(texts(lines@) =~= want);
    let outcome = if failed {
        Err(
            Error::Missing(
                "auto-formatelf could not satisfy all dependencies; add them to --libs or pass --ignore-missing".to_owned(),
            ),
        )
    } else {
        Ok(())
    };
    MissingReport { lines, outcome }
}

} // verus!
