//! Resolve and wire up the shared libraries that ELF files depend on: look their
//! needed libraries up in a set of directories, and set the interpreter and the
//! run path accordingly. The disk is looked at elsewhere; here is what is made of
//! what was found.
use std::path::PathBuf;

use vstd::prelude::*;
use vstd::utf8::encode_utf8;

use crate::cli::lex_start;
use crate::dlopen::find_from;
use crate::error::{Error, ErrorView, Outcome, Result};
use crate::facts::{join_path, joined};
use crate::ir::{sht, Class, ElfImage, ImageView};
use crate::lex::{
    debug_path, debug_word, lemma_lead_len, lex_next, lex_sane, lex_state, lex_take, lex_take_all,
    missing_value, new_parser, next_arg, next_value, next_values, plain_run, unexpected_value, Arg,
    ArgView, LexState,
};
use crate::parser::{parse, parsed};
use crate::paths::{
    lossy, lossy_text, path_bytes, path_list, path_lossy, path_of, path_opt, path_text, place_list,
    place_of, same_place,
};
use crate::rpath::{read, run_path};
use crate::seqs::{first, first_from};
use crate::text::{
    chars_of, concat, concat3, debug_char, debug_chr, debug_str, debug_text, fields, join,
    join_texts, number, parse_number, same_text, split_fields, texts, trim, trim_text, utf8_text,
};

verus! {

/// What a library must match to be used: machine and class.
#[derive(Debug, Clone, Copy, PartialEq, Eq, Structural)]
pub struct Arch {
    pub machine: u16,
    pub elf64: bool,
}

pub const ELFOSABI_SYSV: u8 = 0;

pub const ELFOSABI_FREEBSD: u8 = 9;

pub const ELFOSABI_OPENBSD: u8 = 12;

pub open spec fn arch_of(v: ImageView) -> Arch {
    Arch { machine: v.ehdr.machine, elf64: v.enc.class is Elf64 }
}

impl Arch {
    /// Machine and class of a file.
    pub fn of(image: &ElfImage) -> (a: Arch)
        ensures
            a == arch_of(image@),
    {
        Arch {
            machine: image.ehdr.machine,
            elf64: match image.enc.class {
                Class::Elf64 => true,
                Class::Elf32 => false,
            },
        }
    }
}

/// Whether two OS ABIs go together: the base one goes with all.
pub open spec fn abi_fits(wanted: u8, got: u8) -> bool {
    wanted == got || wanted == ELFOSABI_SYSV || got == ELFOSABI_SYSV
}

/// Whether two OS ABIs go together.
pub fn osabi_compatible(wanted: u8, got: u8) -> (b: bool)
    ensures
        b == abi_fits(wanted, got),
{
    wanted == got || wanted == ELFOSABI_SYSV || got == ELFOSABI_SYSV
}

/// Whether a name ends in `.so` with something in front, or is text with `.so.`
/// in it.
pub open spec fn shared_object_name(name: Seq<u8>) -> bool {
    let n = name.len() as int;
    (n > 3 && name[n - 3] == 0x2e && name[n - 2] == 0x73 && name[n - 1] == 0x6f) || (utf8_text(
        name,
    ) matches Some(t) && find_from(t, ".so."@, 0) is Some)
}

/// Whether a file name is that of a shared object: a plain `.so` or a versioned
/// `.so.N`. Such names are always lower case.
pub fn is_shared_object(name: &[u8]) -> (b: bool)
    ensures
        b == shared_object_name(name@),
{
    let n = name.len();
    if n > 3 && name[n - 3] == 0x2e && name[n - 2] == 0x73 && name[n - 1] == 0x6f {
        return true;
    }
    match crate::text::text_of(name) {
        Some(t) => {
            let chars = chars_of(t);
            let pat = chars_of(".so.");
            proof {
                reveal_strlit(".so.");
            }
            crate::dlopen::find_text(&chars, &pat, 0).is_some()
        },
        None => false,
    }
}

/// Whether a file is the debug half of another: its code takes no space.
pub open spec fn separate_debug(v: ImageView) -> bool {
    v.find_section(".text"@) matches Some(k) && v.shdrs[k].sh_type == sht::NOBITS
}

/// Whether a file is the debug half of another, which is neither a library nor to
/// be patched.
pub fn is_separate_debug(image: &ElfImage) -> (b: bool)
    ensures
        b == separate_debug(image@),
{
    match image.find_section(".text") {
        Some(k) => image.shdrs[k].sh_type == sht::NOBITS,
        None => false,
    }
}

/// A directory to look in, and whether to look below it.
pub open spec fn root_views(v: Seq<(PathBuf, bool)>) -> Seq<(Seq<u8>, bool)> {
    Seq::new(v.len(), |i: int| (path_bytes(v[i].0), v[i].1))
}

/// A library that was read.
pub struct ParsedLib {
    pub name: String,
    pub arch: Arch,
    pub osabi: u8,
    /// The directories of its run path to look in next.
    pub rpath_dirs: Vec<(PathBuf, bool)>,
}

/// A [`ParsedLib`] with its texts and paths as sequences.
pub struct LibView {
    pub name: Seq<char>,
    pub arch: Arch,
    pub osabi: u8,
    pub rpath_dirs: Seq<(Seq<u8>, bool)>,
}

impl View for ParsedLib {
    type V = LibView;

    open spec fn view(&self) -> LibView {
        LibView {
            name: self.name@,
            arch: self.arch,
            osabi: self.osabi,
            rpath_dirs: root_views(self.rpath_dirs@),
        }
    }
}

/// The directories to follow among the first `n` of a run path: those that do not
/// depend on where the library is.
pub open spec fn followed(dirs: Seq<Seq<char>>, recursive: bool, n: int) -> Seq<(Seq<u8>, bool)>
    decreases n,
{
    if n <= 0 {
        Seq::empty()
    } else if find_from(dirs[n - 1], "$ORIGIN"@, 0) is Some {
        followed(dirs, recursive, n - 1)
    } else {
        followed(dirs, recursive, n - 1).push((encode_utf8(dirs[n - 1]), recursive))
    }
}

/// The library in the file `name` with the contents `data`, if it is a usable one:
/// an ELF file that is not the debug half of another, under a name that is text.
pub open spec fn library_in(name: Seq<u8>, data: Seq<u8>, recursive: bool) -> Option<LibView> {
    match parsed(data) {
        Err(_) => None,
        Ok(v) => if separate_debug(v) {
            None
        } else {
            match utf8_text(name) {
                None => None,
                Some(t) => Some(
                    LibView {
                        name: t,
                        arch: arch_of(v),
                        osabi: v.ehdr.os_abi,
                        rpath_dirs: match run_path(v) {
                            Ok(rp) => followed(
                                fields(rp, ':'),
                                recursive,
                                fields(rp, ':').len() as int,
                            ),
                            Err(_) => Seq::empty(),
                        },
                    },
                ),
            }
        },
    }
}

fn follow(rp: &str, recursive: bool) -> (out: Vec<(PathBuf, bool)>)
    ensures
        root_views(out@) == followed(fields(rp@, ':'), recursive, fields(rp@, ':').len() as int),
{
    let dirs = split_fields(rp, ':');
    let ghost names = texts(dirs@);
    let pat = chars_of("$ORIGIN");
    proof {
        reveal_strlit("$ORIGIN");
    }
    let mut out: Vec<(PathBuf, bool)> = Vec::new();
    let mut i: usize = 0;
    assert(root_views(out@) =~= Seq::empty());
    while i < dirs.len()
        invariant
            names == texts(dirs@),
            pat@ == "$ORIGIN"@,
            pat@.len() > 0,
            i <= dirs@.len(),
            root_views(out@) == followed(names, recursive, i as int),
        decreases dirs@.len() - i,
    {
        assert(names[i as int] == dirs@[i as int]@);
        let chars = chars_of(dirs[i].as_str());
        if crate::dlopen::find_text(&chars, &pat, 0).is_none() {
            let ghost before = root_views(out@);
            let p = path_of(dirs[i].as_str());
            out.push((p, recursive));
            assert(root_views(out@) =~= before.push((path_bytes(p), recursive)));
        }
        i += 1;
    }
    out
}

/// Read a shared object for the cache.
pub fn parse_lib(name: &[u8], data: &[u8], recursive: bool) -> (res: Option<ParsedLib>)
    ensures
        match res {
            Some(lib) => library_in(name@, data@, recursive) == Some(lib@),
            None => library_in(name@, data@, recursive) is None,
        },
{
    let image = match parse(data) {
        Ok(image) => image,
        Err(_) => {
            return None;
        },
    };
    if is_separate_debug(&image) {
        return None;
    }
    let name = match crate::text::text_of(name) {
        Some(t) => t.to_owned(),
        None => {
            return None;
        },
    };
    let rpath_dirs = match read(&image) {
        Ok(rp) => follow(rp.as_str(), recursive),
        Err(_) => {
            let none: Vec<(PathBuf, bool)> = Vec::new();
            assert(root_views(none@) =~= Seq::empty());
            none
        },
    };
    Some(ParsedLib { name, arch: Arch::of(&image), osabi: image.ehdr.os_abi, rpath_dirs })
}

/// A library in the cache: its name, what it matches, and the directory that it
/// is in.
pub struct CachedLib {
    pub name: String,
    pub arch: Arch,
    pub osabi: u8,
    pub dir: PathBuf,
}

/// A [`CachedLib`] with its text and path as sequences.
pub struct CachedView {
    pub name: Seq<char>,
    pub arch: Arch,
    pub osabi: u8,
    pub dir: Seq<u8>,
}

impl View for CachedLib {
    type V = CachedView;

    open spec fn view(&self) -> CachedView {
        CachedView {
            name: self.name@,
            arch: self.arch,
            osabi: self.osabi,
            dir: path_bytes(self.dir),
        }
    }
}

/// The libraries that were found, in the order that they were, and the places
/// that were looked at, none twice.
pub struct Cache {
    pub libs: Vec<CachedLib>,
    pub visited: Vec<PathBuf>,
}

/// A [`Cache`] with its contents as sequences.
#[verifier::ext_equal]
pub struct CacheView {
    pub libs: Seq<CachedView>,
    pub visited: Seq<(bool, Seq<Seq<u8>>)>,
}

impl View for Cache {
    type V = CacheView;

    open spec fn view(&self) -> CacheView {
        CacheView {
            libs: Seq::new(self.libs@.len(), |i: int| self.libs@[i]@),
            visited: place_list(self.visited@),
        }
    }
}

impl CacheView {
    /// No place was looked at twice.
    pub open spec fn wf(self) -> bool {
        forall|i: int, j: int|
            0 <= i < j < self.visited.len() ==> #[trigger] self.visited[i]
                != #[trigger] self.visited[j]
    }
}

/// Being the library `name` for `arch`, of an OS ABI that goes with `osabi`.
pub open spec fn lib_fits(name: Seq<char>, arch: Arch, osabi: u8) -> spec_fn(CachedView) -> bool {
    |l: CachedView| l.name == name && l.arch == arch && abi_fits(osabi, l.osabi)
}

/// The directory of the first library that fits.
pub open spec fn found_dir(
    c: CacheView,
    name: Seq<char>,
    arch: Arch,
    osabi: u8,
) -> Option<Seq<u8>> {
    match first(c.libs, lib_fits(name, arch, osabi)) {
        Some(k) => Some(c.libs[k].dir),
        None => None,
    }
}

/// What is at a place to look at.
pub enum Seen {
    /// A file.
    File,
    /// A directory, with what is in it: the path, the name, and whether it is
    /// itself a directory.
    Dir(Vec<Entry>),
    /// Nothing that can be read.
    Nothing,
}

/// Something in a directory.
pub struct Entry {
    pub path: PathBuf,
    pub name: Vec<u8>,
    pub is_dir: bool,
}

/// An [`Entry`] with its path and name as sequences.
pub struct EntryView {
    pub path: Seq<u8>,
    pub name: Seq<u8>,
    pub is_dir: bool,
}

impl View for Entry {
    type V = EntryView;

    open spec fn view(&self) -> EntryView {
        EntryView { path: path_bytes(self.path), name: self.name@, is_dir: self.is_dir }
    }
}

pub open spec fn entry_views(v: Seq<Entry>) -> Seq<EntryView> {
    Seq::new(v.len(), |i: int| v[i]@)
}

/// What is to be read, and where to look after that.
pub struct Wave {
    pub to_parse: Vec<(PathBuf, bool)>,
    pub next: Vec<(PathBuf, bool)>,
}

/// A [`Wave`] with its paths as sequences.
#[verifier::ext_equal]
pub struct WaveView {
    pub to_parse: Seq<(Seq<u8>, bool)>,
    pub next: Seq<(Seq<u8>, bool)>,
}

impl View for Wave {
    type V = WaveView;

    open spec fn view(&self) -> WaveView {
        WaveView { to_parse: root_views(self.to_parse@), next: root_views(self.next@) }
    }
}

/// The wave with the first `n` entries of a directory sorted in: directories to
/// look at next if the search goes below, shared objects to read, the rest not.
pub open spec fn listed(w: WaveView, entries: Seq<EntryView>, recursive: bool, n: int) -> WaveView
    decreases n,
{
    if n <= 0 {
        w
    } else {
        let before = listed(w, entries, recursive, n - 1);
        let e = entries[n - 1];
        if e.is_dir {
            if recursive {
                WaveView { next: before.next.push((e.path, true)), ..before }
            } else {
                before
            }
        } else if shared_object_name(e.name) {
            WaveView { to_parse: before.to_parse.push((e.path, recursive)), ..before }
        } else {
            before
        }
    }
}

/// The wave after looking at a place for the first time.
pub open spec fn looked(w: WaveView, path: Seq<u8>, recursive: bool, seen: Seen) -> WaveView {
    match seen {
        Seen::File => WaveView { to_parse: w.to_parse.push((path, recursive)), ..w },
        Seen::Dir(entries) => listed(
            w,
            entry_views(entries@),
            recursive,
            entry_views(entries@).len() as int,
        ),
        Seen::Nothing => w,
    }
}

/// The cache with one more library, in the directory `dir`.
pub open spec fn with_lib(c: CacheView, lib: LibView, dir: Seq<u8>) -> CacheView {
    CacheView {
        libs: c.libs.push(
            CachedView { name: lib.name, arch: lib.arch, osabi: lib.osabi, dir },
        ),
        ..c
    }
}

/// The cache of nothing.
pub open spec fn no_cache() -> CacheView {
    CacheView { libs: Seq::empty(), visited: Seq::empty() }
}

impl Cache {
    /// A cache of nothing.
    pub fn new() -> (c: Cache)
        ensures
            c@ == no_cache(),
            c@.wf(),
    {
        let c = Cache { libs: Vec::new(), visited: Vec::new() };
        assert(c@ =~= no_cache());
        c
    }

    /// Whether a place was looked at.
    pub fn is_visited(&self, path: &PathBuf) -> (b: bool)
        ensures
            b == self@.visited.contains(place_of(path_bytes(*path))),
    {
        let mut i: usize = 0;
        while i < self.visited.len()
            invariant
                i <= self.visited@.len(),
                forall|j: int| 0 <= j < i ==> #[trigger] self@.visited[j] != place_of(path_bytes(*path)),
            decreases self.visited@.len() - i,
        {
            if same_place(&self.visited[i], path) {
                assert(self@.visited[i as int] == place_of(path_bytes(*path)));
                return true;
            }
            i += 1;
        }
        false
    }

    /// Take note of what is at a place. A place that was looked at before, under a
    /// path with the same components, is passed over.
    pub fn expand(&mut self, wave: &mut Wave, path: PathBuf, recursive: bool, seen: &Seen)
        requires
            old(self)@.wf(),
        ensures
            final(self)@.wf(),
            old(self)@.visited.contains(place_of(path_bytes(path))) ==> final(self)@ == old(self)@
                && final(wave)@ == old(wave)@,
            !old(self)@.visited.contains(place_of(path_bytes(path))) ==> final(self)@ == (CacheView {
                visited: old(self)@.visited.push(place_of(path_bytes(path))),
                ..old(self)@
            }) && final(wave)@ == looked(old(wave)@, path_bytes(path), recursive, *seen),
    {
        if self.is_visited(&path) {
            return;
        }
        let ghost before = self@;
        self.visited.push(path.clone());
        proof {
            assert(self@.visited =~= before.visited.push(place_of(path_bytes(path))));
            assert(self@ =~= (CacheView {
                visited: before.visited.push(place_of(path_bytes(path))),
                ..before
            }));
            assert forall|i: int, j: int|
                0 <= i < j < self@.visited.len() implies #[trigger] self@.visited[i]
                != #[trigger] self@.visited[j] by {
                if j == before.visited.len() {
                    assert(before.visited[i] != place_of(path_bytes(path)));
                } else {
                    assert(before.visited[i] != before.visited[j]);
                }
            }
        }
        let ghost w = wave@;
        match seen {
            Seen::File => {
                wave.to_parse.push((path, recursive));
                assert(wave@.to_parse =~= w.to_parse.push((path_bytes(path), recursive)));
            },
            Seen::Dir(entries) => wave.list(entries, recursive),
            Seen::Nothing => {},
        }
    }

    /// Take a library that was read into the cache, and its run path into the
    /// wave.
    pub fn absorb(&mut self, wave: &mut Wave, lib: &ParsedLib, dir: PathBuf)
        ensures
            old(self)@.wf() ==> final(self)@.wf(),
            final(self)@ == with_lib(old(self)@, lib@, path_bytes(dir)),
            final(wave)@ == (WaveView { next: old(wave)@.next + lib@.rpath_dirs, ..old(wave)@ }),
    {
        let ghost before = self@;
        self.libs.push(
            CachedLib { name: lib.name.clone(), arch: lib.arch, osabi: lib.osabi, dir },
        );
        assert(self@ =~= with_lib(before, lib@, path_bytes(dir)));
        let ghost w = wave@;
        let ghost more = lib@.rpath_dirs;
        let mut i: usize = 0;
        assert(w.next + more.take(0) =~= w.next);
        while i < lib.rpath_dirs.len()
            invariant
                more == root_views(lib.rpath_dirs@),
                i <= lib.rpath_dirs@.len(),
                wave@ == (WaveView { next: w.next + more.take(i as int), ..w }),
            decreases lib.rpath_dirs@.len() - i,
        {
            let ghost at = wave@.next;
            let p = lib.rpath_dirs[i].0.clone();
            wave.next.push((p, lib.rpath_dirs[i].1));
            assert(wave@.next =~= at.push(more[i as int]));
            assert(at.push(more[i as int]) =~= w.next + more.take(i + 1));
            i += 1;
        }
        assert(more.take(more.len() as int) =~= more);
    }

    /// The directory of a library.
    pub fn find(&self, soname: &str, arch: Arch, osabi: u8) -> (res: Option<&PathBuf>)
        ensures
            match res {
                Some(dir) => found_dir(self@, soname@, arch, osabi) == Some(path_bytes(*dir)),
                None => found_dir(self@, soname@, arch, osabi) is None,
            },
    {
        let ghost p = lib_fits(soname@, arch, osabi);
        let mut i: usize = 0;
        while i < self.libs.len()
            invariant
                p == lib_fits(soname@, arch, osabi),
                i <= self.libs@.len(),
                first(self@.libs, p) == first_from(self@.libs, p, i as int),
            decreases self.libs@.len() - i,
        {
            assert(self@.libs[i as int] == self.libs@[i as int]@);
            if same_text(self.libs[i].name.as_str(), soname) && self.libs[i].arch == arch
                && osabi_compatible(osabi, self.libs[i].osabi) {
                return Some(&self.libs[i].dir);
            }
            i += 1;
        }
        None
    }
}

impl Wave {
    /// Nothing to read and nowhere to look.
    pub fn new() -> (w: Wave)
        ensures
            w@ == (WaveView { to_parse: Seq::empty(), next: Seq::empty() }),
    {
        let w = Wave { to_parse: Vec::new(), next: Vec::new() };
        assert(w@.to_parse =~= Seq::empty());
        assert(w@.next =~= Seq::empty());
        w
    }

    fn list(&mut self, entries: &Vec<Entry>, recursive: bool)
        ensures
            final(self)@ == listed(
                old(self)@,
                entry_views(entries@),
                recursive,
                entry_views(entries@).len() as int,
            ),
    {
        let ghost w = self@;
        let ghost views = entry_views(entries@);
        let mut i: usize = 0;
        while i < entries.len()
            invariant
                views == entry_views(entries@),
                i <= entries@.len(),
                self@ == listed(w, views, recursive, i as int),
            decreases entries@.len() - i,
        {
            assert(views[i as int] == entries@[i as int]@);
            let ghost before = self@;
            if entries[i].is_dir {
                if recursive {
                    let p = entries[i].path.clone();
                    self.next.push((p, true));
                    assert(self@.next =~= before.next.push((path_bytes(p), true)));
                }
            } else if is_shared_object(entries[i].name.as_slice()) {
                let p = entries[i].path.clone();
                self.to_parse.push((p, recursive));
                assert(self@.to_parse =~= before.to_parse.push((path_bytes(p), recursive)));
            }
            i += 1;
        }
    }
}

/// What is asked of a run.
pub struct Config {
    pub paths: Vec<PathBuf>,
    pub libs: Vec<PathBuf>,
    pub runtime_deps: Vec<PathBuf>,
    pub append_rpaths: Vec<PathBuf>,
    pub ignore_missing: Vec<String>,
    pub recursive: bool,
    pub keep_libc: bool,
    pub add_existing: bool,
    pub interpreter: PathBuf,
    pub libc_lib: Option<PathBuf>,
    pub page_size: Option<u64>,
    /// Number of workers; zero leaves it to the machine.
    pub jobs: usize,
}

/// A [`Config`] with its texts and paths as sequences.
#[verifier::ext_equal]
pub struct ConfigView {
    pub paths: Seq<Seq<u8>>,
    pub libs: Seq<Seq<u8>>,
    pub runtime_deps: Seq<Seq<u8>>,
    pub append_rpaths: Seq<Seq<u8>>,
    pub ignore_missing: Seq<Seq<char>>,
    pub recursive: bool,
    pub keep_libc: bool,
    pub add_existing: bool,
    pub interpreter: Seq<u8>,
    pub libc_lib: Option<Seq<u8>>,
    pub page_size: Option<u64>,
    pub jobs: usize,
}

impl View for Config {
    type V = ConfigView;

    open spec fn view(&self) -> ConfigView {
        ConfigView {
            paths: path_list(self.paths@),
            libs: path_list(self.libs@),
            runtime_deps: path_list(self.runtime_deps@),
            append_rpaths: path_list(self.append_rpaths@),
            ignore_missing: texts(self.ignore_missing@),
            recursive: self.recursive,
            keep_libc: self.keep_libc,
            add_existing: self.add_existing,
            interpreter: path_bytes(self.interpreter),
            libc_lib: path_opt(self.libc_lib),
            page_size: self.page_size,
            jobs: self.jobs,
        }
    }
}

/// What the arguments say so far.
struct Draft {
    cfg: Config,
    interpreter: Option<PathBuf>,
    jobs: Option<usize>,
}

/// A draft with its contents as sequences; the configuration's own interpreter
/// and number of workers are not yet decided.
#[verifier::ext_equal]
pub struct DraftView {
    pub cfg: ConfigView,
    pub interpreter: Option<Seq<u8>>,
    pub jobs: Option<usize>,
}

impl View for Draft {
    type V = DraftView;

    closed spec fn view(&self) -> DraftView {
        DraftView { cfg: self.cfg@, interpreter: path_opt(self.interpreter), jobs: self.jobs }
    }
}

/// What holds when no argument says otherwise.
pub open spec fn no_draft() -> DraftView {
    DraftView {
        cfg: ConfigView {
            paths: Seq::empty(),
            libs: Seq::empty(),
            runtime_deps: Seq::empty(),
            append_rpaths: Seq::empty(),
            ignore_missing: Seq::empty(),
            recursive: true,
            keep_libc: false,
            add_existing: true,
            interpreter: Seq::empty(),
            libc_lib: None,
            page_size: None,
            jobs: 0,
        },
        interpreter: None,
        jobs: None,
    }
}

/// The options.
#[derive(Debug, Clone, Copy, PartialEq, Eq, Structural)]
pub enum AutoFlag {
    Paths,
    Libs,
    RuntimeDependencies,
    AppendRpaths,
    IgnoreMissing,
    NoRecurse,
    KeepLibc,
    IgnoreExisting,
    Interpreter,
    Libc,
    Jobs,
    PageSize,
    ExtraArgs,
    Unknown,
}

/// The option that an argument is.
pub open spec fn auto_flag(arg: ArgView) -> AutoFlag {
    match arg {
        ArgView::Short(c) => if c == 'j' {
            AutoFlag::Jobs
        } else {
            AutoFlag::Unknown
        },
        ArgView::Value(_) => AutoFlag::Unknown,
        ArgView::Long(name) => if name == "paths"@ {
            AutoFlag::Paths
        } else if name == "libs"@ {
            AutoFlag::Libs
        } else if name == "runtime-dependencies"@ {
            AutoFlag::RuntimeDependencies
        } else if name == "append-rpaths"@ {
            AutoFlag::AppendRpaths
        } else if name == "ignore-missing"@ {
            AutoFlag::IgnoreMissing
        } else if name == "no-recurse"@ {
            AutoFlag::NoRecurse
        } else if name == "keep-libc"@ {
            AutoFlag::KeepLibc
        } else if name == "ignore-existing"@ {
            AutoFlag::IgnoreExisting
        } else if name == "interpreter"@ {
            AutoFlag::Interpreter
        } else if name == "libc"@ {
            AutoFlag::Libc
        } else if name == "jobs"@ {
            AutoFlag::Jobs
        } else if name == "page-size"@ {
            AutoFlag::PageSize
        } else if name == "extra-args"@ {
            AutoFlag::ExtraArgs
        } else {
            AutoFlag::Unknown
        },
    }
}

fn find_auto_flag(arg: &Arg) -> (f: AutoFlag)
    ensures
        f == auto_flag(arg@),
{
    match arg {
        Arg::Short(c) => if *c == 'j' {
            AutoFlag::Jobs
        } else {
            AutoFlag::Unknown
        },
        Arg::Value(_) => AutoFlag::Unknown,
        Arg::Long(s) => {
            let name = s.as_str();
            if same_text(name, "paths") {
                AutoFlag::Paths
            } else if same_text(name, "libs") {
                AutoFlag::Libs
            } else if same_text(name, "runtime-dependencies") {
                AutoFlag::RuntimeDependencies
            } else if same_text(name, "append-rpaths") {
                AutoFlag::AppendRpaths
            } else if same_text(name, "ignore-missing") {
                AutoFlag::IgnoreMissing
            } else if same_text(name, "no-recurse") {
                AutoFlag::NoRecurse
            } else if same_text(name, "keep-libc") {
                AutoFlag::KeepLibc
            } else if same_text(name, "ignore-existing") {
                AutoFlag::IgnoreExisting
            } else if same_text(name, "interpreter") {
                AutoFlag::Interpreter
            } else if same_text(name, "libc") {
                AutoFlag::Libc
            } else if same_text(name, "jobs") {
                AutoFlag::Jobs
            } else if same_text(name, "page-size") {
                AutoFlag::PageSize
            } else if same_text(name, "extra-args") {
                AutoFlag::ExtraArgs
            } else {
                AutoFlag::Unknown
            }
        },
    }
}

/// The debug form of an argument.
pub open spec fn arg_text(arg: ArgView) -> Seq<char> {
    match arg {
        ArgView::Short(c) => "Short("@ + debug_char(c) + ")"@,
        ArgView::Long(name) => "Long("@ + debug_text(name) + ")"@,
        ArgView::Value(b) => "Value("@ + debug_word(b) + ")"@,
    }
}

fn show_arg(arg: &Arg) -> (s: String)
    ensures
        s@ == arg_text(arg@),
{
    match arg {
        Arg::Short(c) => concat3("Short(", debug_chr(*c).as_str(), ")"),
        Arg::Long(name) => concat3("Long(", debug_str(name.as_str()).as_str(), ")"),
        Arg::Value(p) => concat3("Value(", debug_path(p).as_str(), ")"),
    }
}

/// The lossy texts of a list of words.
pub open spec fn lossy_list(v: Seq<Seq<u8>>) -> Seq<Seq<char>> {
    Seq::new(v.len(), |i: int| lossy(v[i]))
}

/// Where reading the arguments goes on, or why it fails.
pub enum AutoStep {
    More(LexState, DraftView),
    Done(ErrorView),
}

/// What an option with any number of values does with them.
pub open spec fn list_step(s: LexState, f: AutoFlag, d: DraftView) -> AutoStep {
    let (v, t) = lex_take_all(s);
    AutoStep::More(
        t,
        DraftView {
            cfg: match f {
                AutoFlag::Paths => ConfigView { paths: d.cfg.paths + v, ..d.cfg },
                AutoFlag::Libs => ConfigView { libs: d.cfg.libs + v, ..d.cfg },
                AutoFlag::RuntimeDependencies => ConfigView {
                    runtime_deps: d.cfg.runtime_deps + v,
                    ..d.cfg
                },
                AutoFlag::AppendRpaths => ConfigView {
                    append_rpaths: d.cfg.append_rpaths + v,
                    ..d.cfg
                },
                _ => ConfigView {
                    ignore_missing: d.cfg.ignore_missing + lossy_list(v),
                    ..d.cfg
                },
            },
            ..d
        },
    )
}

/// What an option with one value does with it.
pub open spec fn value_step(s: LexState, f: AutoFlag, d: DraftView) -> AutoStep {
    match lex_take(s) {
        None => AutoStep::Done(ErrorView::Cli("auto-formatelf: "@ + missing_value(s))),
        Some((b, t)) => match f {
            AutoFlag::Interpreter => AutoStep::More(t, DraftView { interpreter: Some(b), ..d }),
            AutoFlag::Libc => AutoStep::More(
                t,
                DraftView { cfg: ConfigView { libc_lib: Some(b), ..d.cfg }, ..d },
            ),
            AutoFlag::Jobs => match number(lossy(b)) {
                Some(n) => if n <= usize::MAX {
                    AutoStep::More(t, DraftView { jobs: Some(n as usize), ..d })
                } else {
                    AutoStep::Done(ErrorView::Cli("auto-formatelf: invalid --jobs"@))
                },
                None => AutoStep::Done(ErrorView::Cli("auto-formatelf: invalid --jobs"@)),
            },
            _ => match number(lossy(b)) {
                Some(n) => if n <= u64::MAX {
                    AutoStep::More(
                        t,
                        DraftView {
                            cfg: ConfigView { page_size: Some(n as u64), ..d.cfg },
                            ..d
                        },
                    )
                } else {
                    AutoStep::Done(ErrorView::Cli("auto-formatelf: invalid --page-size"@))
                },
                None => AutoStep::Done(ErrorView::Cli("auto-formatelf: invalid --page-size"@)),
            },
        },
    }
}

/// What an argument does. Everything behind `--extra-args` is dropped.
pub open spec fn arg_step(s: LexState, arg: ArgView, d: DraftView) -> AutoStep {
    match auto_flag(arg) {
        AutoFlag::NoRecurse => AutoStep::More(
            s,
            DraftView { cfg: ConfigView { recursive: false, ..d.cfg }, ..d },
        ),
        AutoFlag::KeepLibc => AutoStep::More(
            s,
            DraftView { cfg: ConfigView { keep_libc: true, ..d.cfg }, ..d },
        ),
        AutoFlag::IgnoreExisting => AutoStep::More(
            s,
            DraftView { cfg: ConfigView { add_existing: false, ..d.cfg }, ..d },
        ),
        AutoFlag::ExtraArgs => AutoStep::More(
            LexState { unread: Seq::empty(), attached: None, cluster: Seq::empty(), ..s },
            d,
        ),
        AutoFlag::Unknown => AutoStep::Done(
            ErrorView::Cli("auto-formatelf: unexpected "@ + arg_text(arg)),
        ),
        AutoFlag::Interpreter => value_step(s, AutoFlag::Interpreter, d),
        AutoFlag::Libc => value_step(s, AutoFlag::Libc, d),
        AutoFlag::Jobs => value_step(s, AutoFlag::Jobs, d),
        AutoFlag::PageSize => value_step(s, AutoFlag::PageSize, d),
        f => list_step(s, f, d),
    }
}

proof fn lemma_plain_run(s: LexState, i: int)
    requires
        0 <= i <= s.unread.len(),
    ensures
        0 <= plain_run(s, i) <= s.unread.len() - i,
    decreases s.unread.len() - i,
{
    if i < s.unread.len() {
        lemma_plain_run(s, i + 1);
    }
}

/// No argument puts words back.
proof fn lemma_arg_step(s: LexState, arg: ArgView, d: DraftView)
    ensures
        arg_step(s, arg, d) matches AutoStep::More(t, _) ==> t.unread.len() <= s.unread.len(),
{
    lemma_plain_run(s, 0);
}

/// What the arguments from `s` on say.
pub open spec fn drafted(s: LexState, d: DraftView) -> Outcome<DraftView>
    decreases s.unread.len(),
    via drafted_decreases
{
    match s.attached {
        Some(v) => Err(
            ErrorView::Cli("auto-formatelf: "@ + unexpected_value(s, debug_word(v))),
        ),
        None => match lex_next(s) {
            (None, _) => Ok(d),
            (Some(arg), t) => match arg_step(t, arg, d) {
                AutoStep::Done(e) => Err(e),
                AutoStep::More(u, b) => drafted(u, b),
            },
        },
    }
}

#[via_fn]
proof fn drafted_decreases(s: LexState, d: DraftView) {
    if let (Some(arg), t) = lex_next(s) {
        lemma_arg_step(t, arg, d);
    }
}

/// What the compiler wrapper's support files say, as far as they can be read.
pub struct NixSupport {
    /// Where the interpreter is written down.
    pub linker_file: PathBuf,
    pub linker: std::result::Result<Vec<u8>, String>,
    pub libc: Option<Vec<u8>>,
}

/// [`NixSupport`] with its contents as sequences.
pub struct SupportView {
    pub linker_file: Seq<u8>,
    pub linker: std::result::Result<Seq<u8>, Seq<char>>,
    pub libc: Option<Seq<u8>>,
}

impl View for NixSupport {
    type V = SupportView;

    open spec fn view(&self) -> SupportView {
        SupportView {
            linker_file: path_bytes(self.linker_file),
            linker: match self.linker {
                Ok(b) => Ok(b@),
                Err(e) => Err(e@),
            },
            libc: match self.libc {
                Some(b) => Some(b@),
                None => None,
            },
        }
    }
}

pub open spec fn support_opt(s: Option<NixSupport>) -> Option<SupportView> {
    match s {
        Some(s) => Some(s@),
        None => None,
    }
}

/// The interpreter that the support files name.
pub open spec fn default_interpreter_of(support: Option<SupportView>) -> Outcome<Seq<u8>> {
    match support {
        None => Err(
            ErrorView::Cli("auto-formatelf: no --interpreter and no $NIX_BINTOOLS"@),
        ),
        Some(s) => match s.linker {
            Ok(b) => Ok(encode_utf8(trim(lossy(b)))),
            Err(source) => Err(ErrorView::Io { path: s.linker_file, source }),
        },
    }
}

/// The directory of the C library that the support files name.
pub open spec fn default_libc_of(support: Option<SupportView>) -> Option<Seq<u8>> {
    match support {
        None => None,
        Some(s) => match s.libc {
            Some(b) => Some(encode_utf8(joined(trim(lossy(b)), "lib"@))),
            None => None,
        },
    }
}

/// The number of workers that the build's budget allows; zero where it does not
/// say.
pub open spec fn budget(cores: Option<Seq<char>>) -> usize {
    match cores {
        None => 0,
        Some(t) => match number(trim(t)) {
            Some(n) => if n <= usize::MAX {
                n as usize
            } else {
                0
            },
            None => 0,
        },
    }
}

/// What a command line asks for, with what it leaves open taken from the support
/// files and the build's budget.
pub open spec fn configured(
    words: Seq<Seq<u8>>,
    support: Option<SupportView>,
    cores: Option<Seq<char>>,
) -> Outcome<ConfigView> {
    match drafted(lex_start(words), no_draft()) {
        Err(e) => Err(e),
        Ok(d) => match (match d.interpreter {
            Some(p) => Ok(p),
            None => default_interpreter_of(support),
        }) {
            Err(e) => Err(e),
            Ok(interpreter) => Ok(
                ConfigView {
                    interpreter,
                    libc_lib: match d.cfg.libc_lib {
                        Some(p) => Some(p),
                        None => default_libc_of(support),
                    },
                    jobs: match d.jobs {
                        Some(n) => n,
                        None => budget(cores),
                    },
                    ..d.cfg
                },
            ),
        },
    }
}

pub(crate) fn copy_paths(out: &mut Vec<PathBuf>, more: &Vec<PathBuf>)
    ensures
        path_list(final(out)@) == path_list(old(out)@) + path_list(more@),
{
    let ghost start = path_list(out@);
    let ghost all = path_list(more@);
    let mut i: usize = 0;
    assert(start + all.take(0) =~= start);
    while i < more.len()
        invariant
            all == path_list(more@),
            i <= more@.len(),
            path_list(out@) == start + all.take(i as int),
        decreases more@.len() - i,
    {
        let ghost before = path_list(out@);
        out.push(more[i].clone());
        assert(path_list(out@) =~= before.push(all[i as int]));
        assert(before.push(all[i as int]) =~= start + all.take(i + 1));
        i += 1;
    }
    assert(all.take(all.len() as int) =~= all);
}

fn append_lossy(out: &mut Vec<String>, more: Vec<PathBuf>)
    ensures
        texts(final(out)@) == texts(old(out)@) + lossy_list(path_list(more@)),
{
    let ghost start = texts(out@);
    let ghost all = lossy_list(path_list(more@));
    let mut i: usize = 0;
    assert(start + all.take(0) =~= start);
    while i < more.len()
        invariant
            all == lossy_list(path_list(more@)),
            i <= more@.len(),
            texts(out@) == start + all.take(i as int),
        decreases more@.len() - i,
    {
        let ghost before = texts(out@);
        out.push(path_lossy(&more[i]));
        assert(texts(out@) =~= before.push(all[i as int]));
        assert(before.push(all[i as int]) =~= start + all.take(i + 1));
        i += 1;
    }
    assert(all.take(all.len() as int) =~= all);
}

/// The values of an option with any number of them; none count as an empty list.
fn multi(p: &mut lexopt::Parser) -> (v: Vec<PathBuf>)
    requires
        lex_state(*old(p)).cluster.len() == 0,
    ensures
        path_list(v@) == lex_take_all(lex_state(*old(p))).0,
        lex_state(*final(p)) == lex_take_all(lex_state(*old(p))).1,
{
    match next_values(p) {
        Some(v) => v,
        None => {
            let v: Vec<PathBuf> = Vec::new();
            assert(path_list(v@) =~= lex_take_all(lex_state(*old(p))).0);
            v
        },
    }
}

/// Whether `res` is what an argument does.
spec fn auto_stepped(res: Result<()>, p: lexopt::Parser, d: DraftView, want: AutoStep) -> bool {
    match (res, want) {
        (Ok(_), AutoStep::More(s, b)) => lex_state(p) == s && s.cluster.len() == 0 && d == b,
        (Err(e), AutoStep::Done(x)) => e@ == x,
        _ => false,
    }
}

fn do_list(p: &mut lexopt::Parser, f: AutoFlag, d: &mut Draft)
    requires
        lex_state(*old(p)).cluster.len() == 0,
    ensures
        auto_stepped(Ok(()), *final(p), final(d)@, list_step(lex_state(*old(p)), f, old(d)@)),
{
    let v = multi(p);
    match f {
        AutoFlag::Paths => copy_paths(&mut d.cfg.paths, &v),
        AutoFlag::Libs => copy_paths(&mut d.cfg.libs, &v),
        AutoFlag::RuntimeDependencies => copy_paths(&mut d.cfg.runtime_deps, &v),
        AutoFlag::AppendRpaths => copy_paths(&mut d.cfg.append_rpaths, &v),
        _ => append_lossy(&mut d.cfg.ignore_missing, v),
    }
}

fn do_value(p: &mut lexopt::Parser, f: AutoFlag, d: &mut Draft) -> (res: Result<()>)
    requires
        lex_state(*old(p)).cluster.len() == 0 || lex_state(*old(p)).attached is None,
    ensures
        auto_stepped(res, *final(p), final(d)@, value_step(lex_state(*old(p)), f, old(d)@)),
{
    let v = match next_value(p) {
        Ok(v) => v,
        Err(e) => {
            return Err(Error::Cli(concat("auto-formatelf: ", e.as_str())));
        },
    };
    match f {
        AutoFlag::Interpreter => {
            d.interpreter = Some(v);
        },
        AutoFlag::Libc => {
            d.cfg.libc_lib = Some(v);
        },
        AutoFlag::Jobs => match parse_number(path_lossy(&v).as_str()) {
            Some(n) => {
                if n > usize::MAX as u64 {
                    return Err(Error::Cli("auto-formatelf: invalid --jobs".to_owned()));
                }
                d.jobs = Some(n as usize);
            },
            None => {
                return Err(Error::Cli("auto-formatelf: invalid --jobs".to_owned()));
            },
        },
        _ => match parse_number(path_lossy(&v).as_str()) {
            Some(n) => {
                d.cfg.page_size = Some(n);
            },
            None => {
                return Err(Error::Cli("auto-formatelf: invalid --page-size".to_owned()));
            },
        },
    }
    Ok(())
}

fn drop_all(p: &mut lexopt::Parser)
    requires
        lex_state(*old(p)).cluster.len() == 0,
    ensures
        lex_state(*final(p)) == (LexState {
            unread: Seq::empty(),
            attached: None,
            cluster: Seq::empty(),
            ..lex_state(*old(p))
        }),
{
    let ghost s = lex_state(*p);
    while next_value(p).is_ok()
        invariant
            lex_state(*p).cluster.len() == 0,
            lex_state(*p) == (LexState {
                unread: lex_state(*p).unread,
                attached: lex_state(*p).attached,
                cluster: lex_state(*p).cluster,
                ..s
            }),
            s == lex_state(*old(p)),
        ensures
            lex_take(lex_state(*p)) is None,
            lex_state(*p) == (LexState {
                unread: lex_state(*p).unread,
                attached: lex_state(*p).attached,
                cluster: lex_state(*p).cluster,
                ..s
            }),
        decreases
                lex_state(*p).unread.len() + if lex_state(*p).attached is Some {
                    1int
                } else {
                    0
                },
    {
    }
    assert(lex_state(*p).unread =~= Seq::empty());
    assert(lex_state(*p).cluster =~= Seq::empty());
}

fn do_arg(p: &mut lexopt::Parser, arg: &Arg, d: &mut Draft) -> (res: Result<()>)
    requires
        lex_state(*old(p)).cluster.len() == 0 || auto_flag(arg@) is Unknown || (auto_flag(
            arg@,
        ) is Jobs && lex_state(*old(p)).attached is None),
    ensures
        auto_stepped(res, *final(p), final(d)@, arg_step(lex_state(*old(p)), arg@, old(d)@)),
{
    let f = find_auto_flag(arg);
    match f {
        AutoFlag::NoRecurse => {
            d.cfg.recursive = false;
        },
        AutoFlag::KeepLibc => {
            d.cfg.keep_libc = true;
        },
        AutoFlag::IgnoreExisting => {
            d.cfg.add_existing = false;
        },
        AutoFlag::ExtraArgs => drop_all(p),
        AutoFlag::Unknown => {
            return Err(
                Error::Cli(concat("auto-formatelf: unexpected ", show_arg(arg).as_str())),
            );
        },
        AutoFlag::Interpreter => do_value(p, f, d)?,
        AutoFlag::Libc => do_value(p, f, d)?,
        AutoFlag::Jobs => do_value(p, f, d)?,
        AutoFlag::PageSize => do_value(p, f, d)?,
        _ => do_list(p, f, d),
    }
    Ok(())
}

fn read_draft(raw: Vec<PathBuf>) -> (res: Result<Draft>)
    ensures
        match res {
            Ok(d) => drafted(lex_start(path_list(raw@)), no_draft()) == Outcome::Ok(d@),
            Err(e) => drafted(lex_start(path_list(raw@)), no_draft()) == Outcome::<DraftView>::Err(
                e@,
            ),
        },
{
    let ghost want = drafted(lex_start(path_list(raw@)), no_draft());
    let mut d = Draft {
        cfg: Config {
            paths: Vec::new(),
            libs: Vec::new(),
            runtime_deps: Vec::new(),
            append_rpaths: Vec::new(),
            ignore_missing: Vec::new(),
            recursive: true,
            keep_libc: false,
            add_existing: true,
            interpreter: path_of(""),
            libc_lib: None,
            page_size: None,
            jobs: 0,
        },
        interpreter: None,
        jobs: None,
    };
    proof {
        reveal_strlit("");
        assert(""@ =~= Seq::empty());
        assert(d@.cfg =~= no_draft().cfg);
        assert(d@ =~= no_draft());
    }
    let mut p = new_parser(raw);
    loop
        invariant
            want == drafted(lex_start(path_list(raw@)), no_draft()),
            lex_state(p).cluster.len() == 0,
            want == drafted(lex_state(p), d@),
        decreases lex_state(p).unread.len(),
    {
        let ghost s = lex_state(p);
        let ghost before = d@;
        let arg = match next_arg(&mut p) {
            Ok(Some(arg)) => arg,
            Ok(None) => {
                return Ok(d);
            },
            Err(e) => {
                return Err(Error::Cli(concat("auto-formatelf: ", e.as_str())));
            },
        };
        proof {
            lemma_arg_step(lex_next(s).1, arg@, before);
            if !lex_sane(s) {
                lemma_lead_len(s.unread[0].skip(1), 1);
                assert(auto_flag(arg@) is Unknown);
            }
        }
        do_arg(&mut p, &arg, &mut d)?;
    }
}

/// Parse a command line. What it leaves open is taken from the compiler wrapper's
/// support files, if there are any, and from the build's budget of cores.
pub fn parse_args(
    raw: Vec<PathBuf>,
    support: &Option<NixSupport>,
    cores: &Option<String>,
) -> (res: Result<Config>)
    ensures
        match res {
            Ok(c) => configured(
                path_list(raw@),
                support_opt(*support),
                match *cores {
                    Some(t) => Some(t@),
                    None => None,
                },
            ) == Outcome::Ok(c@),
            Err(e) => configured(
                path_list(raw@),
                support_opt(*support),
                match *cores {
                    Some(t) => Some(t@),
                    None => None,
                },
            ) == Outcome::<ConfigView>::Err(e@),
        },
{
    let d = read_draft(raw)?;
    let mut cfg = d.cfg;
    cfg.interpreter = match d.interpreter {
        Some(p) => p,
        None => default_interpreter(support)?,
    };
    if cfg.libc_lib.is_none() {
        cfg.libc_lib = default_libc(support);
    }
    cfg.jobs = match d.jobs {
        Some(n) => n,
        None => match cores {
            Some(t) => match parse_number(trim_text(t.as_str()).as_str()) {
                Some(n) => if n <= usize::MAX as u64 {
                    n as usize
                } else {
                    0
                },
                None => 0,
            },
            None => 0,
        },
    };
    Ok(cfg)
}

fn default_interpreter(support: &Option<NixSupport>) -> (res: Result<PathBuf>)
    ensures
        match res {
            Ok(p) => default_interpreter_of(support_opt(*support)) == Outcome::Ok(path_bytes(p)),
            Err(e) => default_interpreter_of(support_opt(*support)) == Outcome::<Seq<u8>>::Err(e@),
        },
{
    match support {
        None => Err(
            Error::Cli("auto-formatelf: no --interpreter and no $NIX_BINTOOLS".to_owned()),
        ),
        Some(s) => match &s.linker {
            Ok(b) => Ok(path_of(trim_text(lossy_text(b.as_slice()).as_str()).as_str())),
            Err(source) => Err(
                Error::Io { path: s.linker_file.clone(), source: source.clone() },
            ),
        },
    }
}

fn default_libc(support: &Option<NixSupport>) -> (res: Option<PathBuf>)
    ensures
        path_opt(res) == default_libc_of(support_opt(*support)),
{
    match support {
        None => None,
        Some(s) => match &s.libc {
            Some(b) => Some(
                path_of(
                    join_path(trim_text(lossy_text(b.as_slice()).as_str()).as_str(), "lib").as_str(),
                ),
            ),
            None => None,
        },
    }
}

/// Fail unless there is something to patch.
pub fn require_paths(cfg: &Config) -> (res: Result<()>)
    ensures
        match res {
            Ok(_) => cfg@.paths.len() > 0,
            Err(e) => cfg@.paths.len() == 0 && e@ == ErrorView::Cli(
                "auto-formatelf: no paths to patch"@,
            ),
        },
{
    assert(cfg@.paths.len() == cfg.paths@.len());
    if cfg.paths.len() == 0 {
        Err(Error::Cli("auto-formatelf: no paths to patch".to_owned()))
    } else {
        Ok(())
    }
}

/// Where to look for libraries: below what is to be patched, unless that is not
/// wanted, and in the given directories.
pub open spec fn roots_of(cfg: ConfigView) -> Seq<(Seq<u8>, bool)> {
    let own = Seq::new(cfg.paths.len(), |i: int| (cfg.paths[i], cfg.recursive));
    let given = Seq::new(cfg.libs.len(), |i: int| (cfg.libs[i], false));
    if cfg.add_existing {
        own + given
    } else {
        given
    }
}

fn push_roots(out: &mut Vec<(PathBuf, bool)>, paths: &Vec<PathBuf>, recursive: bool)
    ensures
        root_views(final(out)@) == root_views(old(out)@) + Seq::new(
            path_list(paths@).len(),
            |i: int| (path_list(paths@)[i], recursive),
        ),
{
    let ghost start = root_views(out@);
    let ghost all = Seq::new(
        path_list(paths@).len(),
        |i: int| (path_list(paths@)[i], recursive),
    );
    let mut i: usize = 0;
    assert(start + all.take(0) =~= start);
    while i < paths.len()
        invariant
            all == Seq::new(
                path_list(paths@).len(),
                |i: int| (path_list(paths@)[i], recursive),
            ),
            i <= paths@.len(),
            root_views(out@) == start + all.take(i as int),
        decreases paths@.len() - i,
    {
        let ghost before = root_views(out@);
        out.push((paths[i].clone(), recursive));
        assert(root_views(out@) =~= before.push(all[i as int]));
        assert(before.push(all[i as int]) =~= start + all.take(i + 1));
        i += 1;
    }
    assert(all.take(all.len() as int) =~= all);
}

/// Where to look for libraries.
pub fn roots(cfg: &Config) -> (out: Vec<(PathBuf, bool)>)
    ensures
        root_views(out@) == roots_of(cfg@),
{
    let mut out: Vec<(PathBuf, bool)> = Vec::new();
    assert(root_views(out@) =~= Seq::empty());
    if cfg.add_existing {
        push_roots(&mut out, &cfg.paths, cfg.recursive);
    }
    push_roots(&mut out, &cfg.libs, false);
    assert(root_views(out@) =~= roots_of(cfg@));
    out
}

/// The number of workers: as asked for, else as many as the machine has, if that
/// is known. Never less than one.
pub fn resolve_workers(jobs: usize, available: Option<usize>) -> (n: usize)
    ensures
        n == if jobs != 0 {
            jobs
        } else {
            match available {
                Some(k) => if k == 0 {
                    1
                } else {
                    k
                },
                None => 1,
            }
        },
{
    if jobs != 0 {
        return jobs;
    }
    match available {
        Some(k) => if k == 0 {
            1
        } else {
            k
        },
        None => 1,
    }
}

/// What is at a path, for the search of files to patch.
#[derive(Debug, Clone, Copy, PartialEq, Eq, Structural)]
pub enum Found {
    Symlink,
    Directory,
    File,
}

/// What to do with what is at a path.
#[derive(Debug, Clone, Copy, PartialEq, Eq, Structural)]
pub enum Visit {
    Skip,
    Descend,
    Take,
}

/// What the search of files to patch does at a path: symbolic links are not
/// followed; a directory is entered if it was given, or if the search goes below;
/// the rest is taken.
pub fn visit(found: Found, given: bool, recursive: bool) -> (v: Visit)
    ensures
        found is Symlink ==> v is Skip,
        found is File ==> v is Take,
        found is Directory && (given || recursive) ==> v is Descend,
        found is Directory && !given && !recursive ==> v is Skip,
{
    match found {
        Found::Symlink => Visit::Skip,
        Found::File => Visit::Take,
        Found::Directory => if given || recursive {
            Visit::Descend
        } else {
            Visit::Skip
        },
    }
}

/// What the files to patch are matched against.
pub struct Target {
    pub arch: Arch,
    pub osabi: u8,
    pub interpreter: String,
}

/// A [`Target`] with its text as a sequence.
pub struct TargetView {
    pub arch: Arch,
    pub osabi: u8,
    pub interpreter: Seq<char>,
}

impl View for Target {
    type V = TargetView;

    open spec fn view(&self) -> TargetView {
        TargetView { arch: self.arch, osabi: self.osabi, interpreter: self.interpreter@ }
    }
}

/// The target that an interpreter sets: its own machine, class and OS ABI.
pub open spec fn target_in(path: Seq<u8>, data: Seq<u8>) -> Outcome<TargetView> {
    match parsed(data) {
        Err(e) => Err(e),
        Ok(v) => match utf8_text(path) {
            None => Err(ErrorView::Cli("interpreter path is not UTF-8"@)),
            Some(t) => Ok(
                TargetView { arch: arch_of(v), osabi: v.ehdr.os_abi, interpreter: t },
            ),
        },
    }
}

/// The target that the interpreter in the file `path` with the contents `data`
/// sets.
pub fn target_of(path: &PathBuf, data: &[u8]) -> (res: Result<Target>)
    ensures
        match res {
            Ok(t) => target_in(path_bytes(*path), data@) == Outcome::Ok(t@),
            Err(e) => target_in(path_bytes(*path), data@) == Outcome::<TargetView>::Err(e@),
        },
{
    let image = parse(data)?;
    match path_text(path) {
        Some(interpreter) => Ok(
            Target { arch: Arch::of(&image), osabi: image.ehdr.os_abi, interpreter },
        ),
        None => Err(Error::Cli("interpreter path is not UTF-8".to_owned())),
    }
}

/// The texts of `v` without repetitions, each where it was first.
pub open spec fn distinct(v: Seq<Seq<char>>) -> Seq<Seq<char>>
    decreases v.len(),
{
    if v.len() == 0 {
        v
    } else {
        let d = distinct(v.drop_last());
        if d.contains(v.last()) {
            d
        } else {
            d.push(v.last())
        }
    }
}

/// A run path of the given directories, each once; none where there are none.
pub open spec fn joined_rpaths(dirs: Seq<Seq<u8>>) -> Option<Seq<char>> {
    let d = distinct(lossy_list(dirs));
    if d.len() == 0 {
        None
    } else {
        Some(join(d, ":"@))
    }
}

fn contains_text(v: &Vec<String>, s: &str) -> (b: bool)
    ensures
        b == texts(v@).contains(s@),
{
    let mut i: usize = 0;
    while i < v.len()
        invariant
            i <= v@.len(),
            forall|j: int| 0 <= j < i ==> #[trigger] texts(v@)[j] != s@,
        decreases v@.len() - i,
    {
        assert(texts(v@)[i as int] == v@[i as int]@);
        if same_text(v[i].as_str(), s) {
            return true;
        }
        i += 1;
    }
    false
}

/// Join directories to a run path, each once, in their order. Without any there
/// is no run path to set.
pub fn join_rpaths(rpaths: &Vec<PathBuf>) -> (res: Option<String>)
    ensures
        match res {
            Some(s) => joined_rpaths(path_list(rpaths@)) == Some(s@),
            None => joined_rpaths(path_list(rpaths@)) is None,
        },
{
    let ghost all = lossy_list(path_list(rpaths@));
    let mut out: Vec<String> = Vec::new();
    let mut i: usize = 0;
    assert(texts(out@) =~= distinct(all.take(0)));
    while i < rpaths.len()
        invariant
            all == lossy_list(path_list(rpaths@)),
            i <= rpaths@.len(),
            texts(out@) == distinct(all.take(i as int)),
        decreases rpaths@.len() - i,
    {
        let s = path_lossy(&rpaths[i]);
        assert(all.take(i + 1).drop_last() =~= all.take(i as int));
        assert(all.take(i + 1).last() == s@);
        if !contains_text(&out, s.as_str()) {
            let ghost before = texts(out@);
            let ghost t = s@;
            out.push(s);
            assert(texts(out@) =~= before.push(t));
        }
        i += 1;
    }
    assert(all.take(all.len() as int) =~= all);
    assert(texts(out@).len() == out@.len());
    if out.len() == 0 {
        None
    } else {
        Some(join_texts(&out, ":"))
    }
}

} // verus!
