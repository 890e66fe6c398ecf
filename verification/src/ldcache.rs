//! The library cache note: the resolved place of each needed library that is
//! searched for, so that the loader can skip the search of the run path.
use vstd::prelude::*;
use vstd::utf8::encode_utf8;

use crate::bytes::u32_bytes;
use crate::error::{Error, ErrorView, Outcome, Result};
use crate::facts::{
    exists_at, fact_views, find_fact, join_path, joined, opens_at, FactView, FileFact,
};
use crate::ir::{dt, pf, pt, shf, sht, ElfImage, Endian, ImageView, Phdr, Shdr};
use crate::ops::{dyn_string, needed, needed_of, or_empty, owned_or_empty, tag_text, with_string};
use crate::rpath::extended;
use crate::symbols::push_u32;
use crate::text::{chars_of, concat, concat3, fields, same_bytes, same_text, split_fields, texts};

verus! {

/// Type of the note.
pub const NT_NIXOS_LD_CACHE: u32 = 0x63a8_6cb6;

/// Whether `t` holds the character `c`.
pub open spec fn has_char(t: Seq<char>, c: char) -> bool {
    exists|i: int| 0 <= i < t.len() && #[trigger] t[i] == c
}

fn contains_char(s: &str, c: char) -> (b: bool)
    ensures
        b == has_char(s@, c),
{
    let chars = chars_of(s);
    let mut i: usize = 0;
    while i < chars.len()
        invariant
            chars@ == s@,
            i <= chars@.len(),
            forall|j: int| 0 <= j < i ==> #[trigger] s@[j] != c,
        decreases chars@.len() - i,
    {
        if chars[i] == c {
            assert(s@[i as int] == c);
            return true;
        }
        i += 1;
    }
    false
}

/// Whether `a` comes before `b` in the order of their bytes, from position `i` on.
pub open spec fn bytes_before(a: Seq<u8>, b: Seq<u8>, i: int) -> bool
    decreases b.len() - i,
{
    if i < 0 || i >= b.len() {
        false
    } else if i >= a.len() {
        true
    } else if a[i] != b[i] {
        a[i] < b[i]
    } else {
        bytes_before(a, b, i + 1)
    }
}

/// Whether the text `a` sorts before the text `b`.
pub open spec fn sorts_before(a: Seq<char>, b: Seq<char>) -> bool {
    bytes_before(encode_utf8(a), encode_utf8(b), 0)
}

fn text_before(a: &str, b: &str) -> (r: bool)
    ensures
        r == sorts_before(a@, b@),
{
    let x = a.as_bytes();
    let y = b.as_bytes();
    let mut i: usize = 0;
    while i < y.len()
        invariant
            x@ == encode_utf8(a@),
            y@ == encode_utf8(b@),
            i <= y@.len(),
            i <= x@.len(),
            sorts_before(a@, b@) == bytes_before(x@, y@, i as int),
        decreases y@.len() - i,
    {
        if i >= x.len() {
            return true;
        }
        if x[i] != y[i] {
            return x[i] < y[i];
        }
        i += 1;
    }
    false
}

/// What the cache holds: libraries in order, each with its places.
pub open spec fn with_place(
    cache: Seq<(Seq<char>, Seq<char>)>,
    lib: Seq<char>,
    place: Seq<char>,
) -> Seq<(Seq<char>, Seq<char>)>
    decreases cache.len(),
{
    if cache.len() == 0 || sorts_before(lib, cache[0].0) {
        seq![(lib, place)] + cache
    } else if cache[0].0 == lib {
        seq![(lib, extended(cache[0].1, place))] + cache.skip(1)
    } else {
        seq![cache[0]] + with_place(cache.skip(1), lib, place)
    }
}

/// Whether a directory cannot be resolved ahead of time: it has a token such as
/// `$ORIGIN`, or directories for particular hardware.
pub open spec fn unresolvable(facts: Seq<FactView>, dir: Seq<char>) -> bool {
    has_char(dir, '$') || exists_at(facts, joined(dir, "glibc-hwcaps"@))
}

/// What `dir` contributes for `lib`: the directory as a hint where it cannot be
/// resolved, else the library's path if it is there. A name with a slash is
/// opened directly, without a search.
pub open spec fn place_in(
    facts: Seq<FactView>,
    dir: Seq<char>,
    lib: Seq<char>,
) -> Option<Seq<char>> {
    if has_char(lib, '/') {
        None
    } else if unresolvable(facts, dir) {
        Some("?"@ + dir)
    } else if opens_at(facts, dir + "/"@ + lib) {
        Some("="@ + (dir + "/"@ + lib))
    } else {
        None
    }
}

/// The cache after looking for the first `n` libraries in `dir`.
pub open spec fn cached_dir(
    cache: Seq<(Seq<char>, Seq<char>)>,
    facts: Seq<FactView>,
    dir: Seq<char>,
    libs: Seq<Seq<char>>,
    n: int,
) -> Seq<(Seq<char>, Seq<char>)>
    decreases n,
{
    if n <= 0 {
        cache
    } else {
        let before = cached_dir(cache, facts, dir, libs, n - 1);
        match place_in(facts, dir, libs[n - 1]) {
            Some(place) => with_place(before, libs[n - 1], place),
            None => before,
        }
    }
}

/// The cache after looking in the first `n` directories.
pub open spec fn cached(
    facts: Seq<FactView>,
    dirs: Seq<Seq<char>>,
    libs: Seq<Seq<char>>,
    n: int,
) -> Seq<(Seq<char>, Seq<char>)>
    decreases n,
{
    if n <= 0 {
        Seq::empty()
    } else {
        cached_dir(cached(facts, dirs, libs, n - 1), facts, dirs[n - 1], libs, libs.len() as int)
    }
}

/// The first `n` entries of the cache as strings.
pub open spec fn cache_bytes(cache: Seq<(Seq<char>, Seq<char>)>, n: int) -> Seq<u8>
    decreases n,
{
    if n <= 0 {
        Seq::empty()
    } else {
        with_string(with_string(cache_bytes(cache, n - 1), cache[n - 1].0), cache[n - 1].1)
    }
}

/// Length rounded up to a multiple of four.
pub open spec fn padded_four(b: Seq<u8>) -> Seq<u8> {
    b + crate::seqs::zeros((4 - b.len() as int % 4) % 4)
}

/// The note with the description `desc`, before it is padded.
#[verifier::opaque]
pub open spec fn note_body(e: Endian, desc: Seq<u8>) -> Seq<u8> {
    u32_bytes(e, 6) + u32_bytes(e, (desc.len() % 0x1_0000_0000) as u32) + u32_bytes(
        e,
        NT_NIXOS_LD_CACHE,
    ) + with_string(Seq::empty(), "NixOS"@) + seq![0u8, 0u8] + desc
}

/// The note with the description `desc`.
pub open spec fn note_bytes(e: Endian, desc: Seq<u8>) -> Seq<u8> {
    padded_four(note_body(e, desc))
}

/// The header of a new note section: its size differs from that of its contents,
/// which marks it for placement.
pub open spec fn note_section(name: u32) -> Shdr {
    Shdr {
        name,
        sh_type: sht::NOTE,
        flags: shf::ALLOC,
        addr: 0,
        offset: 0,
        size: 0,
        link: 0,
        info: 0,
        addralign: 4,
        entsize: 0,
    }
}

/// The segment of a new note, which is pointed at it once it is placed.
pub open spec fn note_segment() -> Phdr {
    Phdr {
        p_type: pt::NOTE,
        flags: pf::R,
        offset: 0,
        vaddr: 0,
        paddr: 0,
        filesz: 0,
        memsz: 0,
        align: 4,
    }
}

/// The image with the note: refreshed where there is one, else as a new section
/// with a segment.
pub open spec fn note_added(v: ImageView, note: Seq<u8>) -> Outcome<ImageView> {
    match v.find_section(".note.nixos.ldcache"@) {
        Some(k) => if v.sections[k] == note {
            Ok(v)
        } else {
            Ok(
                ImageView {
                    sections: v.sections.update(k, note),
                    shdrs: v.shdrs.update(k, Shdr { size: 0, ..v.shdrs[k] }),
                    ..v
                },
            )
        },
        None => {
            let s = v.ehdr.shstrndx as int;
            if s >= v.sections.len() {
                Err(ErrorView::Missing("no section header string table"@))
            } else {
                let names = v.sections[s];
                Ok(
                    ImageView {
                        sections: v.sections.update(
                            s,
                            with_string(names, ".note.nixos.ldcache"@),
                        ).push(note),
                        shdrs: v.shdrs.push(
                            note_section((names.len() % 0x1_0000_0000) as u32),
                        ),
                        phdrs: v.phdrs.push(note_segment()),
                        ..v
                    },
                )
            }
        },
    }
}

/// The run path that the cache is built for: the first `DT_RUNPATH`, else the
/// first `DT_RPATH`.
pub open spec fn search_path(v: ImageView) -> Seq<char> {
    match tag_text(v, dt::RUNPATH) {
        Some(t) => t,
        None => or_empty(tag_text(v, dt::RPATH)),
    }
}

/// The image with its library cache, and a warning where none is written.
pub open spec fn cache_built(
    v: ImageView,
    facts: Seq<FactView>,
) -> Outcome<(ImageView, Option<Seq<char>>)> {
    match needed_of(v) {
        Err(e) => Err(e),
        Ok(libs) => if v.dynstr() is None {
            Err(ErrorView::Missing("no .dynstr"@))
        } else {
            let dirs = fields(search_path(v), ':');
            let cache = cached(facts, dirs, libs, dirs.len() as int);
            if libs.len() == 0 || dirs.len() == 0 {
                Ok(
                    (
                        v,
                        Some(
                            "warning: --build-resolution-cache: nothing to resolve; no cache written"@,
                        ),
                    ),
                )
            } else if cache.len() == 0 {
                Ok(
                    (
                        v,
                        Some(
                            "warning: --build-resolution-cache: no libraries resolved; no cache written"@,
                        ),
                    ),
                )
            } else {
                let desc = cache_bytes(cache, cache.len() as int).push(0);
                match note_added(v, note_bytes(v.enc.endian, desc)) {
                    Err(e) => Err(e),
                    Ok(w) => Ok((w, None)),
                }
            }
        },
    }
}

/// The libraries and places of a cache.
pub open spec fn cache_views(v: Seq<(String, String)>) -> Seq<(Seq<char>, Seq<char>)> {
    Seq::new(v.len(), |i: int| (v[i].0@, v[i].1@))
}

/// Where a library goes: behind those that sort before it.
proof fn lemma_with_place(
    cache: Seq<(Seq<char>, Seq<char>)>,
    lib: Seq<char>,
    place: Seq<char>,
    p: int,
)
    requires
        0 <= p <= cache.len(),
        forall|j: int| 0 <= j < p ==> (#[trigger] cache[j]).0 != lib && !sorts_before(
            lib,
            cache[j].0,
        ),
        p < cache.len() ==> sorts_before(lib, cache[p].0) || cache[p].0 == lib,
    ensures
        with_place(cache, lib, place) == if p < cache.len() && !sorts_before(lib, cache[p].0) {
            cache.update(p, (lib, extended(cache[p].1, place)))
        } else {
            cache.insert(p, (lib, place))
        },
    decreases p,
{
    if p == 0 {
        if cache.len() == 0 || sorts_before(lib, cache[0].0) {
            assert(seq![(lib, place)] + cache =~= cache.insert(0, (lib, place)));
        } else {
            assert(seq![(lib, extended(cache[0].1, place))] + cache.skip(1) =~= cache.update(
                0,
                (lib, extended(cache[0].1, place)),
            ));
        }
    } else {
        let rest = cache.skip(1);
        assert(cache[0].0 != lib && !sorts_before(lib, cache[0].0));
        assert forall|j: int| 0 <= j < p - 1 implies (#[trigger] rest[j]).0 != lib && !sorts_before(
            lib,
            rest[j].0,
        ) by {
            assert(rest[j] == cache[j + 1]);
        }
        if p < cache.len() {
            assert(rest[p - 1] == cache[p]);
        }
        lemma_with_place(rest, lib, place, p - 1);
        if p < cache.len() && !sorts_before(lib, cache[p].0) {
            assert(seq![cache[0]] + rest.update(
                p - 1,
                (lib, extended(cache[p].1, place)),
            ) =~= cache.update(p, (lib, extended(cache[p].1, place))));
        } else {
            assert(seq![cache[0]] + rest.insert(p - 1, (lib, place)) =~= cache.insert(
                p,
                (lib, place),
            ));
        }
    }
}

fn add_place(cache: &mut Vec<(String, String)>, lib: &str, place: &str)
    ensures
        cache_views(final(cache)@) == with_place(cache_views(old(cache)@), lib@, place@),
{
    let ghost before = cache_views(cache@);
    let mut p: usize = 0;
    while p < cache.len() && !same_text(cache[p].0.as_str(), lib) && !text_before(
        lib,
        cache[p].0.as_str(),
    )
        invariant
            before == cache_views(cache@),
            p <= cache@.len(),
            forall|j: int|
                0 <= j < p ==> (#[trigger] before[j]).0 != lib@ && !sorts_before(lib@, before[j].0),
        decreases cache@.len() - p,
    {
        assert(before[p as int] == (cache@[p as int].0@, cache@[p as int].1@));
        p += 1;
    }
    proof {
        if p < cache@.len() {
            assert(before[p as int] == (cache@[p as int].0@, cache@[p as int].1@));
        }
        lemma_with_place(before, lib@, place@, p as int);
    }
    if p < cache.len() && !text_before(lib, cache[p].0.as_str()) {
        let new = if cache[p].1.as_str().is_empty() {
            place.to_owned()
        } else {
            concat3(cache[p].1.as_str(), ":", place)
        };
        cache.set(p, (lib.to_owned(), new));
        assert(cache_views(cache@) =~= before.update(
            p as int,
            (lib@, extended(before[p as int].1, place@)),
        ));
    } else {
        cache.insert(p, (lib.to_owned(), place.to_owned()));
        assert(cache_views(cache@) =~= before.insert(p as int, (lib@, place@)));
    }
}

fn find_place(facts: &Vec<FileFact>, dir: &str, lib: &str) -> (res: Option<String>)
    ensures
        match res {
            Some(s) => place_in(fact_views(facts@), dir@, lib@) == Some(s@),
            None => place_in(fact_views(facts@), dir@, lib@) is None,
        },
{
    if contains_char(lib, '/') {
        return None;
    }
    let hwcaps = match find_fact(facts, join_path(dir, "glibc-hwcaps").as_str()) {
        Some(f) => f.exists,
        None => false,
    };
    if contains_char(dir, '$') || hwcaps {
        return Some(concat("?", dir));
    }
    let path = concat3(dir, "/", lib);
    match find_fact(facts, path.as_str()) {
        Some(f) => if f.opens {
            Some(concat("=", path.as_str()))
        } else {
            None
        },
        None => None,
    }
}

fn resolve(
    facts: &Vec<FileFact>,
    dirs: &Vec<String>,
    libs: &Vec<String>,
) -> (cache: Vec<(String, String)>)
    ensures
        cache_views(cache@) == cached(
            fact_views(facts@),
            texts(dirs@),
            texts(libs@),
            dirs@.len() as int,
        ),
{
    let ghost fv = fact_views(facts@);
    let ghost names = texts(dirs@);
    let ghost wanted = texts(libs@);
    let mut cache: Vec<(String, String)> = Vec::new();
    let mut i: usize = 0;
    assert(cache_views(cache@) =~= Seq::empty());
    while i < dirs.len()
        invariant
            fv == fact_views(facts@),
            names == texts(dirs@),
            wanted == texts(libs@),
            i <= dirs@.len(),
            cache_views(cache@) == cached(fv, names, wanted, i as int),
        decreases dirs@.len() - i,
    {
        let ghost start = cache_views(cache@);
        assert(names[i as int] == dirs@[i as int]@);
        let mut j: usize = 0;
        while j < libs.len()
            invariant
                fv == fact_views(facts@),
                wanted == texts(libs@),
                i < dirs@.len(),
                names[i as int] == dirs@[i as int]@,
                j <= libs@.len(),
                cache_views(cache@) == cached_dir(start, fv, names[i as int], wanted, j as int),
            decreases libs@.len() - j,
        {
            assert(wanted[j as int] == libs@[j as int]@);
            if let Some(place) = find_place(facts, dirs[i].as_str(), libs[j].as_str()) {
                add_place(&mut cache, libs[j].as_str(), place.as_str());
            }
            j += 1;
        }
        i += 1;
    }
    cache
}

fn describe(cache: &Vec<(String, String)>) -> (desc: Vec<u8>)
    ensures
        desc@ == cache_bytes(cache_views(cache@), cache@.len() as int).push(0),
{
    let ghost views = cache_views(cache@);
    let mut desc: Vec<u8> = Vec::new();
    let mut i: usize = 0;
    assert(desc@ =~= cache_bytes(views, 0));
    while i < cache.len()
        invariant
            views == cache_views(cache@),
            i <= cache@.len(),
            desc@ == cache_bytes(views, i as int),
        decreases cache@.len() - i,
    {
        assert(views[i as int] == (cache@[i as int].0@, cache@[i as int].1@));
        crate::ops::dynstr_append(&mut desc, cache[i].0.as_str());
        crate::ops::dynstr_append(&mut desc, cache[i].1.as_str());
        i += 1;
    }
    desc.push(0);
    desc
}

fn encode_body(e: Endian, desc: &Vec<u8>) -> (note: Vec<u8>)
    ensures
        note@ == note_body(e, desc@),
{
    reveal(note_body);
    let mut note: Vec<u8> = Vec::new();
    push_u32(e, &mut note, 6);
    let ghost first = u32_bytes(e, 6);
    assert(Seq::<u8>::empty() + first =~= first);
    push_u32(e, &mut note, (desc.len() as u64 % 0x1_0000_0000) as u32);
    push_u32(e, &mut note, NT_NIXOS_LD_CACHE);
    let mut name: Vec<u8> = Vec::new();
    crate::ops::dynstr_append(&mut name, "NixOS");
    note.extend_from_slice(name.as_slice());
    let ghost head = note@;
    note.push(0);
    note.push(0);
    assert(head.push(0).push(0) =~= head + seq![0u8, 0u8]);
    note.extend_from_slice(desc.as_slice());
    note
}

fn encode_note(e: Endian, desc: &Vec<u8>) -> (note: Vec<u8>)
    ensures
        note@ == note_bytes(e, desc@),
{
    let mut note = encode_body(e, desc);
    let ghost body = note@;
    let ghost pad = (4 - body.len() as int % 4) % 4;
    assert(body + crate::seqs::zeros(0) =~= note@);
    while note.len() % 4 != 0
        invariant
            pad == (4 - body.len() as int % 4) % 4,
            body.len() <= note@.len() <= body.len() + pad,
            note@ == body + crate::seqs::zeros(note@.len() - body.len()),
        decreases body.len() + pad - note@.len(),
    {
        let ghost n = note@.len() - body.len();
        note.push(0);
        assert(note@ =~= body + crate::seqs::zeros(n + 1));
    }
    note
}

/// Put the note into the image. Another run refreshes it and adds no second one.
fn add_note_section(image: &mut ElfImage, note: Vec<u8>) -> (res: Result<()>)
    requires
        old(image)@.wf(),
    ensures
        final(image)@.wf(),
        crate::ops::edited(res, old(image)@, final(image)@, note_added(old(image)@, note@)),
{
    let ghost v = image@;
    if let Some(k) = image.find_section(".note.nixos.ldcache") {
        assert(v.sections[k as int] == image.section_data@[k as int]@);
        if same_bytes(image.section_data[k].as_slice(), note.as_slice()) {
            return Ok(());
        }
        image.section_data[k] = note;
        let mut s = image.shdrs[k];
        s.size = 0;
        image.shdrs.set(k, s);
        assert(image@ =~= note_added(v, note@)->Ok_0);
        return Ok(());
    }
    if image.ehdr.shstrndx as usize >= image.section_data.len() {
        return Err(Error::Missing("no section header string table".to_owned()));
    }
    let s = image.ehdr.shstrndx as usize;
    assert(v.sections[s as int] == image.section_data@[s as int]@);
    let off = crate::ops::dynstr_append(&mut image.section_data[s], ".note.nixos.ldcache");
    image.shdrs.push(
        Shdr {
            name: (off % 0x1_0000_0000) as u32,
            sh_type: sht::NOTE,
            flags: shf::ALLOC,
            addr: 0,
            offset: 0,
            size: 0,
            link: 0,
            info: 0,
            addralign: 4,
            entsize: 0,
        },
    );
    image.section_data.push(note);
    image.phdrs.push(
        Phdr {
            p_type: pt::NOTE,
            flags: pf::R,
            offset: 0,
            vaddr: 0,
            paddr: 0,
            filesz: 0,
            memsz: 0,
            align: 4,
        },
    );
    assert(image@ =~= note_added(v, note@)->Ok_0);
    Ok(())
}

/// Build the library cache. Where there is nothing to write, says so.
pub fn build(image: &mut ElfImage, facts: &Vec<FileFact>) -> (res: Result<Option<String>>)
    requires
        old(image)@.wf(),
    ensures
        final(image)@.wf(),
        match res {
            Ok(None) => cache_built(old(image)@, fact_views(facts@)) == Outcome::Ok(
                (final(image)@, None::<Seq<char>>),
            ),
            Ok(Some(s)) => cache_built(old(image)@, fact_views(facts@)) == Outcome::Ok(
                (final(image)@, Some(s@)),
            ),
            Err(e) => cache_built(old(image)@, fact_views(facts@)) == Outcome::<
                (ImageView, Option<Seq<char>>),
            >::Err(e@) && final(image)@ == old(image)@,
        },
{
    let libs = needed(image)?;
    if image.dynstr().is_none() {
        return Err(Error::Missing("no .dynstr".to_owned()));
    }
    let path = match dyn_string(image, dt::RUNPATH) {
        Some(s) => s.to_owned(),
        None => owned_or_empty(dyn_string(image, dt::RPATH)),
    };
    let dirs = split_fields(path.as_str(), ':');
    assert(texts(dirs@).len() == dirs@.len() && texts(libs@).len() == libs@.len());
    if libs.len() == 0 || dirs.len() == 0 {
        return Ok(
            Some(
                "warning: --build-resolution-cache: nothing to resolve; no cache written".to_owned(),
            ),
        );
    }
    let cache = resolve(facts, &dirs, &libs);
    assert(cache_views(cache@).len() == cache@.len());
    if cache.len() == 0 {
        return Ok(
            Some(
                "warning: --build-resolution-cache: no libraries resolved; no cache written".to_owned(),
            ),
        );
    }
    let desc = describe(&cache);
    let note = encode_note(image.enc.endian, &desc);
    add_note_section(image, note)?;
    Ok(None)
}

} // verus!
