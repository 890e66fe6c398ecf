//! The libraries that are there are found, and only they.
use vstd::prelude::*;
use vstd::utf8::encode_utf8;

use crate::autoformatelf::{
    followed, found_dir, lib_fits, library_in, listed, roots_of, shared_object_name, with_lib, Arch,
    CacheView, ConfigView, EntryView, LibView, WaveView,
};
use crate::bytes::{lemma_u16_decode, lemma_widths, u16_at, u16_bytes};
use crate::dlopen::{find_from, stands_at};
use crate::ir::{lemma_section_from, ImageView};
use crate::laws::printing::{law_string_is_read, string_at};
use crate::ops::{sym_count, sym_is, sym_name_offset, version_cleared};
use crate::parser::parsed;
use crate::rpath::run_path;
use crate::seqs::{first, lemma_first_from};
use crate::text::{fields, lemma_utf8_text};

verus! {

/// Whether the text `part` is somewhere in the text `t`.
pub open spec fn occurs(t: Seq<char>, part: Seq<char>) -> bool {
    exists|i: int|
        0 <= i && i + part.len() <= t.len() && #[trigger] t.subrange(i, i + part.len()) == part
}

proof fn lemma_found(t: Seq<char>, part: Seq<char>, i: int)
    requires
        0 <= i,
        part.len() > 0,
    ensures
        find_from(t, part, i) is Some <==> exists|k: int|
            i <= k && k + part.len() <= t.len() && #[trigger] t.subrange(k, k + part.len()) == part,
    decreases t.len() - i,
{
    if i + part.len() <= t.len() {
        assert(t.subrange(i, i + part.len()) == t.subrange(i, (i + part.len()) as int));
        if !stands_at(t, part, i) {
            lemma_found(t, part, i + 1);
            if exists|k: int|
                i <= k && k + part.len() <= t.len() && #[trigger] t.subrange(k, k + part.len())
                    == part {
                let k = choose|k: int|
                    i <= k && k + part.len() <= t.len() && #[trigger] t.subrange(k, k + part.len())
                        == part;
                assert(k != i);
                assert(i + 1 <= k);
            }
        }
    }
}

/// A file is taken for a shared object when its name ends in `.so`, with something in
/// front, or, being text, has `.so.` in it.
pub proof fn law_shared_object_names(name: Seq<u8>, t: Seq<char>)
    requires
        name == encode_utf8(t),
    ensures
        shared_object_name(name) <==> (name.len() > 3 && name.skip(name.len() - 3) == seq![
            0x2eu8,
            0x73u8,
            0x6fu8,
        ]) || occurs(t, seq!['.', 's', 'o', '.']),
{
    let n = name.len() as int;
    reveal_strlit(".so.");
    assert(".so."@ =~= seq!['.', 's', 'o', '.']);
    lemma_utf8_text(name, t);
    lemma_found(t, ".so."@, 0);
    if n > 3 {
        let tail = name.skip(n - 3);
        assert(tail[0] == name[n - 3] && tail[1] == name[n - 2] && tail[2] == name[n - 1]);
        if name[n - 3] == 0x2e && name[n - 2] == 0x73 && name[n - 1] == 0x6f {
            assert(tail =~= seq![0x2eu8, 0x73u8, 0x6fu8]);
        }
    }
    if occurs(t, ".so."@) {
        let i = choose|i: int|
            0 <= i && i + ".so."@.len() <= t.len() && #[trigger] t.subrange(i, i + ".so."@.len())
                == ".so."@;
        assert(t.subrange(i, i + ".so."@.len()) == ".so."@);
    }
}

/// Looking at a directory leads to every shared object in it, and below it where the search
/// goes there, in their order, behind what was there before.
pub proof fn law_directory_is_listed(
    w: WaveView,
    entries: Seq<EntryView>,
    recursive: bool,
    n: int,
    i: int,
)
    requires
        0 <= i < n <= entries.len(),
    ensures
        ({
            let after = listed(w, entries, recursive, n);
            let e = entries[i];
            &&& after.to_parse.len() >= w.to_parse.len() && after.to_parse.take(
                w.to_parse.len() as int,
            ) == w.to_parse
            &&& after.next.len() >= w.next.len() && after.next.take(w.next.len() as int) == w.next
            &&& !e.is_dir && shared_object_name(e.name) ==> after.to_parse.skip(
                w.to_parse.len() as int,
            ).contains((e.path, recursive))
            &&& e.is_dir && recursive ==> after.next.skip(w.next.len() as int).contains(
                (e.path, true),
            )
            &&& !recursive ==> after.next == w.next
        }),
    decreases n,
{
    let after = listed(w, entries, recursive, n);
    let before = listed(w, entries, recursive, n - 1);
    lemma_listed_keeps(w, entries, recursive, n - 1);
    lemma_listed_keeps(w, entries, recursive, n);
    let a = w.to_parse.len() as int;
    let b = w.next.len() as int;
    if i < n - 1 {
        law_directory_is_listed(w, entries, recursive, n - 1, i);
        let e = entries[i];
        if !e.is_dir && shared_object_name(e.name) {
            let x = before.to_parse.skip(a);
            let k = choose|k: int| 0 <= k < x.len() && x[k] == (e.path, recursive);
            assert(after.to_parse.skip(a)[k] == (e.path, recursive));
        }
        if e.is_dir && recursive {
            let x = before.next.skip(b);
            let k = choose|k: int| 0 <= k < x.len() && x[k] == (e.path, true);
            assert(after.next.skip(b)[k] == (e.path, true));
        }
    } else {
        let e = entries[i];
        if !e.is_dir && shared_object_name(e.name) {
            let k = before.to_parse.len() - a;
            assert(after.to_parse.skip(a)[k] == (e.path, recursive));
        }
        if e.is_dir && recursive {
            let k = before.next.len() - b;
            assert(after.next.skip(b)[k] == (e.path, true));
        }
    }
}

proof fn lemma_listed_keeps(w: WaveView, entries: Seq<EntryView>, recursive: bool, n: int)
    requires
        0 <= n <= entries.len(),
    ensures
        ({
            let after = listed(w, entries, recursive, n);
            &&& after.to_parse.len() >= w.to_parse.len() && after.to_parse.take(
                w.to_parse.len() as int,
            ) == w.to_parse
            &&& after.next.len() >= w.next.len() && after.next.take(w.next.len() as int) == w.next
            &&& !recursive ==> after.next == w.next
        }),
    decreases n,
{
    if n > 0 {
        lemma_listed_keeps(w, entries, recursive, n - 1);
        let before = listed(w, entries, recursive, n - 1);
        let after = listed(w, entries, recursive, n);
        assert(after.to_parse.take(w.to_parse.len() as int) =~= before.to_parse.take(
            w.to_parse.len() as int,
        ));
        assert(after.next.take(w.next.len() as int) =~= before.next.take(w.next.len() as int));
    } else {
        assert(w.to_parse.take(w.to_parse.len() as int) =~= w.to_parse);
        assert(w.next.take(w.next.len() as int) =~= w.next);
    }
}

/// Looking at a directory leads to nothing but shared objects and directories in it.
pub proof fn law_nothing_else_is_listed(
    w: WaveView,
    entries: Seq<EntryView>,
    recursive: bool,
    n: int,
    k: int,
)
    requires
        0 <= n <= entries.len(),
    ensures
        ({
            let after = listed(w, entries, recursive, n);
            &&& w.to_parse.len() <= k < after.to_parse.len() ==> exists|i: int|
                0 <= i < n && !(#[trigger] entries[i]).is_dir && shared_object_name(entries[i].name)
                    && after.to_parse[k] == (entries[i].path, recursive)
            &&& w.next.len() <= k < after.next.len() ==> exists|i: int|
                0 <= i < n && (#[trigger] entries[i]).is_dir && recursive && after.next[k] == (
                    entries[i].path,
                    true,
                )
        }),
    decreases n,
{
    if n > 0 {
        law_nothing_else_is_listed(w, entries, recursive, n - 1, k);
        lemma_listed_keeps(w, entries, recursive, n - 1);
        let before = listed(w, entries, recursive, n - 1);
        let after = listed(w, entries, recursive, n);
        if w.to_parse.len() <= k < after.to_parse.len() {
            if k < before.to_parse.len() {
                let i = choose|i: int|
                    0 <= i < n - 1 && !(#[trigger] entries[i]).is_dir && shared_object_name(
                        entries[i].name,
                    ) && before.to_parse[k] == (entries[i].path, recursive);
                assert(after.to_parse[k] == (entries[i].path, recursive));
            } else {
                assert(after.to_parse[k] == (entries[n - 1].path, recursive));
            }
        }
        if w.next.len() <= k < after.next.len() {
            if k < before.next.len() {
                let i = choose|i: int|
                    0 <= i < n - 1 && (#[trigger] entries[i]).is_dir && recursive && before.next[k]
                        == (entries[i].path, true);
                assert(after.next[k] == (entries[i].path, true));
            } else {
                assert(after.next[k] == (entries[n - 1].path, true));
            }
        }
    }
}

/// Whether `places` are the directories among `dirs` that do not depend on where the
/// library is, and no other.
pub open spec fn follows_fixed(
    dirs: Seq<Seq<char>>,
    recursive: bool,
    places: Seq<(Seq<u8>, bool)>,
) -> bool {
    &&& forall|i: int|
        0 <= i < dirs.len() ==> occurs(#[trigger] dirs[i], "$ORIGIN"@) || places.contains(
            (encode_utf8(dirs[i]), recursive),
        )
    &&& forall|k: int| 0 <= k < places.len() ==> is_fixed(dirs, recursive, #[trigger] places[k])
}

/// Whether a place is one of the directories that do not depend on where the library is.
pub open spec fn is_fixed(dirs: Seq<Seq<char>>, recursive: bool, place: (Seq<u8>, bool)) -> bool {
    exists|i: int|
        0 <= i < dirs.len() && !occurs(#[trigger] dirs[i], "$ORIGIN"@) && place == (
            encode_utf8(dirs[i]),
            recursive,
        )
}

/// A file that can be read, has its code and is named by text is a library under that
/// name, of its own machine, class and OS ABI.
pub proof fn law_library_is_read(name: Seq<u8>, data: Seq<u8>, recursive: bool, t: Seq<char>)
    requires
        name == encode_utf8(t),
        parsed(data) matches Ok(v) && (v.find_section(".text"@) matches Some(k)
            ==> v.shdrs[k].sh_type != 8),
    ensures
        library_in(name, data, recursive) matches Some(l) && {
            let v = parsed(data)->Ok_0;
            &&& l.name == t
            &&& l.arch.machine == v.ehdr.machine
            &&& l.arch.elf64 == (v.enc.class is Elf64)
            &&& l.osabi == v.ehdr.os_abi
            &&& run_path(v) matches Ok(rp) ==> follows_fixed(
                fields(rp, ':'),
                recursive,
                l.rpath_dirs,
            )
        },
{
    lemma_utf8_text(name, t);
    let v = parsed(data)->Ok_0;
    if let Ok(rp) = run_path(v) {
        let dirs = fields(rp, ':');
        lemma_followed(dirs, recursive, dirs.len() as int);
        assert(dirs.take(dirs.len() as int) =~= dirs);
    }
}

proof fn lemma_followed(dirs: Seq<Seq<char>>, recursive: bool, n: int)
    requires
        0 <= n <= dirs.len(),
    ensures
        follows_fixed(dirs.take(n), recursive, followed(dirs, recursive, n)),
    decreases n,
{
    if n > 0 {
        lemma_followed(dirs, recursive, n - 1);
        reveal_strlit("$ORIGIN");
        lemma_found(dirs[n - 1], "$ORIGIN"@, 0);
        let head = dirs.take(n - 1);
        let part = dirs.take(n);
        let before = followed(dirs, recursive, n - 1);
        let after = followed(dirs, recursive, n);
        assert(find_from(dirs[n - 1], "$ORIGIN"@, 0) is Some == occurs(dirs[n - 1], "$ORIGIN"@));
        assert forall|i: int| 0 <= i < part.len() implies (occurs(#[trigger] part[i], "$ORIGIN"@)
            || after.contains((encode_utf8(part[i]), recursive))) by {
            let x = (encode_utf8(part[i]), recursive);
            if i < n - 1 {
                assert(head[i] == part[i]);
                if before.contains(x) {
                    let k = choose|k: int| 0 <= k < before.len() && before[k] == x;
                    assert(after[k] == x);
                }
            } else if !occurs(part[i], "$ORIGIN"@) {
                assert(after[before.len() as int] == x);
            }
        }
        assert forall|k: int| 0 <= k < after.len() implies is_fixed(
            part,
            recursive,
            #[trigger] after[k],
        ) by {
            if k < before.len() {
                assert(after[k] == before[k]);
                assert(is_fixed(head, recursive, before[k]));
                let i = choose|i: int|
                    0 <= i < head.len() && !occurs(#[trigger] head[i], "$ORIGIN"@) && before[k] == (
                        encode_utf8(head[i]),
                        recursive,
                    );
                assert(part[i] == head[i]);
            } else {
                assert(part[n - 1] == dirs[n - 1]);
            }
        }
    }
}

/// A library that is taken into the cache is found there from then on, in its directory,
/// unless one that was there before serves as well; and what was found before is found
/// where it was.
pub proof fn law_indexed_is_found(
    c: CacheView,
    l: LibView,
    dir: Seq<u8>,
    name: Seq<char>,
    arch: Arch,
    osabi: u8,
)
    ensures
        found_dir(c, name, arch, osabi) is Some ==> found_dir(
            with_lib(c, l, dir),
            name,
            arch,
            osabi,
        ) == found_dir(c, name, arch, osabi),
        found_dir(c, name, arch, osabi) is None ==> found_dir(
            with_lib(c, l, dir),
            name,
            arch,
            osabi,
        ) == if l.name == name && l.arch == arch && (l.osabi == osabi || l.osabi == 0 || osabi == 0) {
            Some(dir)
        } else {
            None
        },
{
    let p = lib_fits(name, arch, osabi);
    let after = with_lib(c, l, dir).libs;
    lemma_first_from(c.libs, p, 0);
    lemma_first_from(after, p, 0);
    let n = c.libs.len() as int;
    match first(c.libs, p) {
        Some(k) => {
            assert(after[k] == c.libs[k]);
            assert(p(after[k]));
            let j = first(after, p)->Some_0;
            if j < k {
                assert(after[j] == c.libs[j]);
                assert(!p(c.libs[j]));
            }
        },
        None => {
            if let Some(j) = first(after, p) {
                if j < n {
                    assert(after[j] == c.libs[j]);
                    assert(!p(c.libs[j]));
                }
            } else {
                assert(!p(after[n]));
            }
        },
    }
}

/// Libraries are looked for in the directories that are given, not below them, and, unless
/// that is not wanted, where the files to patch are.
pub proof fn law_roots(cfg: ConfigView)
    ensures
        forall|i: int|
            0 <= i < cfg.libs.len() ==> roots_of(cfg).contains((#[trigger] cfg.libs[i], false)),
        forall|i: int|
            0 <= i < cfg.paths.len() && cfg.add_existing ==> roots_of(cfg).contains(
                (#[trigger] cfg.paths[i], cfg.recursive),
            ),
        roots_of(cfg).len() == cfg.libs.len() + if cfg.add_existing {
            cfg.paths.len()
        } else {
            0
        },
{
    let all = roots_of(cfg);
    let skip = if cfg.add_existing {
        cfg.paths.len() as int
    } else {
        0
    };
    assert forall|i: int| 0 <= i < cfg.libs.len() implies all.contains(
        (#[trigger] cfg.libs[i], false),
    ) by {
        assert(all[skip + i] == (cfg.libs[i], false));
    }
    assert forall|i: int| 0 <= i < cfg.paths.len() && cfg.add_existing implies all.contains(
        (#[trigger] cfg.paths[i], cfg.recursive),
    ) by {
        assert(all[i] == (cfg.paths[i], cfg.recursive));
    }
}

/// Clearing the version of a symbol sets that of every symbol of the name to the global
/// one, and changes nothing else.
pub proof fn law_version_is_cleared(v: ImageView, sym: Seq<char>, i: int)
    requires
        v.wf(),
        v.find_section(".dynsym"@) is Some,
        v.find_section(".dynstr"@) is Some,
        v.find_section(".gnu.version"@) is Some,
        0 <= i < v.sections[v.find_section(".dynsym"@)->Some_0].len() as int / (if v.enc.class is Elf64 {
            24int
        } else {
            16
        }),
    ensures
        version_cleared(v, sym) matches Ok(w) ==> {
            let y = v.find_section(".dynsym"@)->Some_0;
            let s = v.find_section(".dynstr"@)->Some_0;
            let k = v.find_section(".gnu.version"@)->Some_0;
            let off = sym_name_offset(v, v.sections[y], i) as int;
            &&& w == (ImageView { sections: w.sections, ..v })
            &&& w.sections.len() == v.sections.len()
            &&& w.sections[k].len() == v.sections[k].len()
            &&& forall|j: int| 0 <= j < v.sections.len() && j != k ==> #[trigger] w.sections[j]
                == v.sections[j]
            &&& string_at(v.sections[s], off, sym) ==> u16_at(
                v.enc.endian,
                w.sections[k],
                2 * i,
            ) == 1
            &&& !string_at(v.sections[s], off, sym) ==> w.sections[k].subrange(2 * i, 2 * i + 2)
                == v.sections[k].subrange(2 * i, 2 * i + 2)
        },
{
    let y = v.find_section(".dynsym"@)->Some_0;
    let s = v.find_section(".dynstr"@)->Some_0;
    let k = v.find_section(".gnu.version"@)->Some_0;
    lemma_section_from(v, ".gnu.version"@, 0);
    law_string_is_read(v.sections[s], sym_name_offset(v, v.sections[y], i) as int, sym);
    if let Ok(w) = version_cleared(v, sym) {
        let b = w.sections[k];
        let one = u16_bytes(v.enc.endian, 1);
        lemma_widths(v.enc.endian);
        assert((2 * i) / 2 == i && (2 * i + 1) / 2 == i && (2 * i) % 2 == 0 && (2 * i + 1) % 2 == 1);
        assert(i < sym_count(v.enc.class, v.sections[y]));
        if sym_is(v, v.sections[y], v.sections[s], sym, i) {
            assert(b[2 * i] == one[0] && b[2 * i + 1] == one[1]);
            assert(b.subrange(2 * i, 2 * i + 2) =~= one);
            lemma_u16_decode(v.enc.endian, 1, b, 2 * i);
        } else {
            assert(b[2 * i] == v.sections[k][2 * i] && b[2 * i + 1] == v.sections[k][2 * i + 1]);
            assert(b.subrange(2 * i, 2 * i + 2) =~= v.sections[k].subrange(2 * i, 2 * i + 2));
        }
    }
}

} // verus!
