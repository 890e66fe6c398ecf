//! The library cache says of each library where the search of the run path would find it.
use vstd::prelude::*;
use vstd::utf8::encode_utf8;

use crate::bytes::{lemma_u32_decode, lemma_widths, u32_at};
use crate::cli::OperationView;
use crate::facts::{about, exists_at, joined, machine_at, machine_in, opens_at, FactView};
use crate::ir::{has_tag, Endian, ImageView};
use crate::laws::cache::{law_note_is_found, names_wf};
use crate::laws::edits::storable;
use crate::laws::printing::{law_string_is_read, string_at};
use crate::ldcache::{
    bytes_before, cache_bytes, cached, cached_dir, has_char, note_body, note_bytes, place_in,
    search_path, sorts_before, with_place,
};
use crate::ops::{applied, needed_of, string_offset, ModifiersView, ReportView, SurroundingsView};
use crate::seqs::{lemma_first_is, lemma_first_none};
use crate::text::{fields, join, lemma_utf8_text};

verus! {

/// What a directory of the run path has for a library: itself, to be searched at run time,
/// where it has a token in it or directories for particular hardware; else the library's
/// path, where that can be opened; else nothing.
pub open spec fn found_in_dir(
    facts: Seq<FactView>,
    dir: Seq<char>,
    lib: Seq<char>,
) -> Option<Seq<char>> {
    if dir.contains('$') || exists_at(facts, joined(dir, "glibc-hwcaps"@)) {
        Some(seq!['?'] + dir)
    } else if opens_at(facts, dir + seq!['/'] + lib) {
        Some(seq!['='] + dir + seq!['/'] + lib)
    } else {
        None
    }
}

/// What the directories of the run path have for a library, in their order.
pub open spec fn found_in_dirs(
    facts: Seq<FactView>,
    dirs: Seq<Seq<char>>,
    lib: Seq<char>,
) -> Seq<Seq<char>>
    decreases dirs.len(),
{
    if dirs.len() == 0 {
        Seq::empty()
    } else {
        let rest = found_in_dirs(facts, dirs.drop_last(), lib);
        match found_in_dir(facts, dirs.last(), lib) {
            Some(p) => rest.push(p),
            None => rest,
        }
    }
}

/// What the cache has for a library.
pub open spec fn entry_for(
    cache: Seq<(Seq<char>, Seq<char>)>,
    lib: Seq<char>,
    value: Seq<char>,
) -> bool {
    exists|i: int| 0 <= i < cache.len() && #[trigger] cache[i] == (lib, value)
}

/// Whether the libraries in the cache are in the order of their names, each once.
pub open spec fn in_order(cache: Seq<(Seq<char>, Seq<char>)>) -> bool {
    forall|i: int, j: int|
        0 <= i < j < cache.len() ==> sorts_before((#[trigger] cache[i]).0, (#[trigger] cache[j]).0)
}

proof fn lemma_order(a: Seq<u8>, b: Seq<u8>, c: Seq<u8>, i: int)
    requires
        0 <= i,
        i <= a.len(),
        i <= b.len(),
        i <= c.len(),
    ensures
        !bytes_before(a, a, i),
        bytes_before(a, b, i) && bytes_before(b, c, i) ==> bytes_before(a, c, i),
        a.skip(i) != b.skip(i) ==> bytes_before(a, b, i) || bytes_before(b, a, i),
    decreases a.len() - i,
{
    if i < a.len() && i < b.len() && i < c.len() {
        lemma_order(a, b, c, i + 1);
    } else if i < a.len() && i < b.len() {
        lemma_order(a, b, b, i + 1);
    }
    if i < a.len() {
        lemma_same_order(a, i);
    }
    if a.skip(i) != b.skip(i) {
        if i < a.len() && i < b.len() {
            if a[i] == b[i] {
                assert(a.skip(i) =~= seq![a[i]] + a.skip(i + 1));
                assert(b.skip(i) =~= seq![b[i]] + b.skip(i + 1));
            }
        } else {
            assert(a.len() == i && b.len() == i ==> a.skip(i) =~= b.skip(i));
        }
    }
}

proof fn lemma_same_order(a: Seq<u8>, i: int)
    requires
        0 <= i <= a.len(),
    ensures
        !bytes_before(a, a, i),
    decreases a.len() - i,
{
    if i < a.len() {
        lemma_same_order(a, i + 1);
    }
}

proof fn lemma_names_order(a: Seq<char>, b: Seq<char>, c: Seq<char>)
    ensures
        !sorts_before(a, a),
        sorts_before(a, b) && sorts_before(b, c) ==> sorts_before(a, c),
        a != b ==> sorts_before(a, b) || sorts_before(b, a),
{
    let (x, y, z) = (encode_utf8(a), encode_utf8(b), encode_utf8(c));
    lemma_order(x, y, z, 0);
    assert(x.skip(0) =~= x);
    assert(y.skip(0) =~= y);
    if x == y {
        lemma_utf8_text(x, a);
        lemma_utf8_text(x, b);
    }
}

/// One more place of a library: behind those that it has, and nothing of any other.
proof fn lemma_one_more(
    cache: Seq<(Seq<char>, Seq<char>)>,
    lib: Seq<char>,
    place: Seq<char>,
)
    requires
        in_order(cache),
    ensures
        in_order(with_place(cache, lib, place)),
        forall|x: Seq<char>, value: Seq<char>|
            x != lib ==> (#[trigger] entry_for(with_place(cache, lib, place), x, value)
                <==> entry_for(cache, x, value)),
        forall|value: Seq<char>| #[trigger]
            entry_for(cache, lib, value) ==> entry_for(
                with_place(cache, lib, place),
                lib,
                crate::rpath::extended(value, place),
            ),
        (forall|value: Seq<char>| !#[trigger] entry_for(cache, lib, value)) ==> entry_for(
            with_place(cache, lib, place),
            lib,
            place,
        ),
        forall|i: int|
            0 <= i < with_place(cache, lib, place).len() ==> (#[trigger] with_place(
                cache,
                lib,
                place,
            )[i]).0 == lib || exists|j: int|
                0 <= j < cache.len() && (#[trigger] cache[j]).0 == with_place(
                    cache,
                    lib,
                    place,
                )[i].0,
    decreases cache.len(),
{
    let after = with_place(cache, lib, place);
    if cache.len() == 0 || sorts_before(lib, cache[0].0) {
        assert(after == seq![(lib, place)] + cache);
        assert forall|i: int, j: int| 0 <= i < j < after.len() implies sorts_before(
            (#[trigger] after[i]).0,
            (#[trigger] after[j]).0,
        ) by {
            assert(after[j] == cache[j - 1]);
            if i == 0 {
                lemma_names_order(lib, cache[0].0, cache[j - 1].0);
            } else {
                assert(after[i] == cache[i - 1]);
            }
        }
        assert forall|x: Seq<char>, value: Seq<char>| x != lib implies (#[trigger] entry_for(
            after,
            x,
            value,
        ) <==> entry_for(cache, x, value)) by {
            if entry_for(cache, x, value) {
                let i = choose|i: int| 0 <= i < cache.len() && #[trigger] cache[i] == (x, value);
                assert(after[i + 1] == (x, value));
            }
            if entry_for(after, x, value) {
                let i = choose|i: int| 0 <= i < after.len() && #[trigger] after[i] == (x, value);
                assert(cache[i - 1] == (x, value));
            }
        }
        assert forall|value: Seq<char>| !#[trigger] entry_for(cache, lib, value) by {
            if entry_for(cache, lib, value) {
                let i = choose|i: int| 0 <= i < cache.len() && #[trigger] cache[i] == (lib, value);
                lemma_names_order(lib, cache[0].0, cache[i].0);
                lemma_names_order(lib, lib, lib);
                if i == 0 {
                } else {
                    assert(sorts_before(cache[0].0, cache[i].0));
                }
            }
        }
        assert(after[0] == (lib, place));
        assert(entry_for(after, lib, place));
        assert forall|i: int| 0 <= i < after.len() implies (#[trigger] after[i]).0 == lib || exists|
            j: int,
        |
            0 <= j < cache.len() && (#[trigger] cache[j]).0 == after[i].0 by {
            if i > 0 {
                assert(cache[i - 1] == after[i]);
            }
        }
    } else if cache[0].0 == lib {
        let new = crate::rpath::extended(cache[0].1, place);
        assert forall|i: int| 0 < i < cache.len() implies #[trigger] after[i] == cache[i] by {}
        assert(after[0] == (lib, new));
        assert forall|i: int, j: int| 0 <= i < j < after.len() implies sorts_before(
            (#[trigger] after[i]).0,
            (#[trigger] after[j]).0,
        ) by {
            assert(sorts_before(cache[i].0, cache[j].0));
        }
        assert forall|x: Seq<char>, value: Seq<char>| x != lib implies (#[trigger] entry_for(
            after,
            x,
            value,
        ) <==> entry_for(cache, x, value)) by {
            if entry_for(cache, x, value) {
                let i = choose|i: int| 0 <= i < cache.len() && #[trigger] cache[i] == (x, value);
                assert(after[i] == (x, value));
            }
            if entry_for(after, x, value) {
                let i = choose|i: int| 0 <= i < after.len() && #[trigger] after[i] == (x, value);
                assert(cache[i] == (x, value));
            }
        }
        assert forall|value: Seq<char>| #[trigger] entry_for(cache, lib, value) implies entry_for(
            after,
            lib,
            crate::rpath::extended(value, place),
        ) by {
            let i = choose|i: int| 0 <= i < cache.len() && #[trigger] cache[i] == (lib, value);
            if i > 0 {
                assert(sorts_before(cache[0].0, cache[i].0));
                lemma_names_order(lib, lib, lib);
            }
        }
        assert(entry_for(cache, lib, cache[0].1)) by {
            assert(cache[0] == (lib, cache[0].1));
        }
        assert forall|i: int| 0 <= i < after.len() implies (#[trigger] after[i]).0 == lib || exists|
            j: int,
        |
            0 <= j < cache.len() && (#[trigger] cache[j]).0 == after[i].0 by {
            if i > 0 {
                assert(cache[i] == after[i]);
            }
        }
    } else {
        let tail = cache.skip(1);
        assert forall|i: int, j: int| 0 <= i < j < tail.len() implies sorts_before(
            (#[trigger] tail[i]).0,
            (#[trigger] tail[j]).0,
        ) by {
            assert(sorts_before(cache[i + 1].0, cache[j + 1].0));
        }
        lemma_one_more(tail, lib, place);
        let rest = with_place(tail, lib, place);
        assert(after == seq![cache[0]] + rest);
        lemma_names_order(cache[0].0, lib, lib);
        assert forall|i: int, j: int| 0 <= i < j < after.len() implies sorts_before(
            (#[trigger] after[i]).0,
            (#[trigger] after[j]).0,
        ) by {
            assert(after[j] == rest[j - 1]);
            if i == 0 {
                if rest[j - 1].0 != lib {
                    let m = choose|m: int|
                        0 <= m < tail.len() && (#[trigger] tail[m]).0 == rest[j - 1].0;
                    assert(sorts_before(cache[0].0, cache[m + 1].0));
                }
            } else {
                assert(after[i] == rest[i - 1]);
            }
        }
        assert forall|x: Seq<char>, value: Seq<char>| #[trigger]
            entry_for(cache, x, value) <==> cache[0] == (x, value) || entry_for(tail, x, value) by {
            if entry_for(cache, x, value) {
                let i = choose|i: int| 0 <= i < cache.len() && #[trigger] cache[i] == (x, value);
                if i > 0 {
                    assert(tail[i - 1] == (x, value));
                }
            }
            if entry_for(tail, x, value) {
                let i = choose|i: int| 0 <= i < tail.len() && #[trigger] tail[i] == (x, value);
                assert(cache[i + 1] == (x, value));
            }
        }
        if forall|value: Seq<char>| !#[trigger] entry_for(cache, lib, value) {
            assert forall|value: Seq<char>| !#[trigger] entry_for(tail, lib, value) by {
                assert(!entry_for(cache, lib, value));
            }
            assert(entry_for(rest, lib, place));
            let i = choose|i: int| 0 <= i < rest.len() && #[trigger] rest[i] == (lib, place);
            assert(after[i + 1] == (lib, place));
        }
        assert forall|x: Seq<char>, value: Seq<char>| #[trigger]
            entry_for(after, x, value) <==> cache[0] == (x, value) || entry_for(rest, x, value) by {
            if entry_for(after, x, value) {
                let i = choose|i: int| 0 <= i < after.len() && #[trigger] after[i] == (x, value);
                if i > 0 {
                    assert(rest[i - 1] == (x, value));
                }
            }
            if cache[0] == (x, value) {
                assert(after[0] == (x, value));
            }
            if entry_for(rest, x, value) {
                let i = choose|i: int| 0 <= i < rest.len() && #[trigger] rest[i] == (x, value);
                assert(after[i + 1] == (x, value));
            }
        }
        assert forall|i: int| 0 <= i < after.len() implies (#[trigger] after[i]).0 == lib || exists|
            j: int,
        |
            0 <= j < cache.len() && (#[trigger] cache[j]).0 == after[i].0 by {
            if i > 0 {
                assert(after[i] == rest[i - 1]);
                if rest[i - 1].0 != lib {
                    let m = choose|m: int|
                        0 <= m < tail.len() && (#[trigger] tail[m]).0 == rest[i - 1].0;
                    assert(cache[m + 1].0 == after[i].0);
                }
            } else {
                assert(cache[0].0 == after[0].0);
            }
        }
    }
}

/// What a directory has for a library is that.
proof fn lemma_place_in(facts: Seq<FactView>, dir: Seq<char>, lib: Seq<char>)
    ensures
        place_in(facts, dir, lib) == if lib.contains('/') {
            None
        } else {
            found_in_dir(facts, dir, lib)
        },
{
    reveal_strlit("?");
    reveal_strlit("=");
    reveal_strlit("/");
    assert("?"@ =~= seq!['?']);
    assert("="@ =~= seq!['=']);
    assert("/"@ =~= seq!['/']);
    assert(has_char(lib, '/') == lib.contains('/'));
    assert(has_char(dir, '$') == dir.contains('$'));
    assert(seq!['='] + (dir + seq!['/'] + lib) =~= seq!['='] + dir + seq!['/'] + lib);
}

/// Whether the cache has for the library exactly the places `found`, one behind the other.
pub open spec fn tells(
    cache: Seq<(Seq<char>, Seq<char>)>,
    lib: Seq<char>,
    found: Seq<Seq<char>>,
) -> bool {
    if found.len() == 0 {
        forall|value: Seq<char>| !#[trigger] entry_for(cache, lib, value)
    } else {
        entry_for(cache, lib, join(found, seq![':']))
    }
}

proof fn lemma_found_nonempty(facts: Seq<FactView>, dirs: Seq<Seq<char>>, lib: Seq<char>)
    ensures
        forall|i: int|
            0 <= i < found_in_dirs(facts, dirs, lib).len() ==> (#[trigger] found_in_dirs(
                facts,
                dirs,
                lib,
            )[i]).len() > 0,
    decreases dirs.len(),
{
    if dirs.len() > 0 {
        lemma_found_nonempty(facts, dirs.drop_last(), lib);
        let rest = found_in_dirs(facts, dirs.drop_last(), lib);
        let all = found_in_dirs(facts, dirs, lib);
        assert forall|i: int| 0 <= i < all.len() implies (#[trigger] all[i]).len() > 0 by {
            if i < rest.len() {
                assert(all[i] == rest[i]);
            }
        }
    }
}

proof fn lemma_join_nonempty(parts: Seq<Seq<char>>)
    requires
        parts.len() > 0,
        parts[0].len() > 0,
    ensures
        join(parts, seq![':']).len() > 0,
    decreases parts.len(),
{
    if parts.len() > 1 {
        assert(parts.drop_last()[0] == parts[0]);
        lemma_join_nonempty(parts.drop_last());
    }
}

/// One directory, for the first `n` libraries.
proof fn lemma_one_dir(
    cache: Seq<(Seq<char>, Seq<char>)>,
    facts: Seq<FactView>,
    dirs: Seq<Seq<char>>,
    libs: Seq<Seq<char>>,
    n: int,
    j: int,
)
    requires
        dirs.len() > 0,
        0 <= n <= libs.len(),
        0 <= j < libs.len(),
        in_order(cache),
        forall|a: int, b: int| 0 <= a < b < libs.len() ==> #[trigger] libs[a] != #[trigger] libs[b],
        !libs[j].contains('/'),
        tells(cache, libs[j], found_in_dirs(facts, dirs.drop_last(), libs[j])),
    ensures
        in_order(cached_dir(cache, facts, dirs.last(), libs, n)),
        tells(
            cached_dir(cache, facts, dirs.last(), libs, n),
            libs[j],
            found_in_dirs(
                facts,
                if j < n {
                    dirs
                } else {
                    dirs.drop_last()
                },
                libs[j],
            ),
        ),
    decreases n,
{
    let dir = dirs.last();
    if n > 0 {
        lemma_one_dir(cache, facts, dirs, libs, n - 1, j);
        let before = cached_dir(cache, facts, dir, libs, n - 1);
        let lib = libs[n - 1];
        lemma_place_in(facts, dir, lib);
        if let Some(p) = place_in(facts, dir, lib) {
            lemma_one_more(before, lib, p);
            let after = with_place(before, lib, p);
            if j == n - 1 {
                let found = found_in_dirs(facts, dirs.drop_last(), lib);
                lemma_found_nonempty(facts, dirs.drop_last(), lib);
                assert(found.push(p).drop_last() =~= found);
                reveal_strlit(":");
                assert(":"@ =~= seq![':']);
                if found.len() > 0 {
                    lemma_join_nonempty(found);
                    assert(entry_for(before, lib, join(found, seq![':'])));
                }
            } else {
                assert(libs[j] != lib);
                let found = found_in_dirs(
                    facts,
                    if j < n - 1 {
                        dirs
                    } else {
                        dirs.drop_last()
                    },
                    libs[j],
                );
                if found.len() == 0 {
                    assert forall|value: Seq<char>| !#[trigger] entry_for(
                        after,
                        libs[j],
                        value,
                    ) by {
                        assert(!entry_for(before, libs[j], value));
                    }
                } else {
                    assert(entry_for(before, libs[j], join(found, seq![':'])));
                }
            }
        }
    }
}

/// The cache has, of each library that is searched for, what the directories of the run path
/// have, in their order; of one that none has it has nothing. A library whose name has a
/// slash is not searched for.
pub proof fn law_cache_resolves(
    facts: Seq<FactView>,
    dirs: Seq<Seq<char>>,
    libs: Seq<Seq<char>>,
    j: int,
)
    requires
        0 <= j < libs.len(),
        !libs[j].contains('/'),
        forall|a: int, b: int| 0 <= a < b < libs.len() ==> #[trigger] libs[a] != #[trigger] libs[b],
    ensures
        in_order(cached(facts, dirs, libs, dirs.len() as int)),
        tells(
            cached(facts, dirs, libs, dirs.len() as int),
            libs[j],
            found_in_dirs(facts, dirs, libs[j]),
        ),
{
    lemma_cached(facts, dirs, libs, dirs.len() as int, j);
    assert(dirs.take(dirs.len() as int) =~= dirs);
}

proof fn lemma_cached(
    facts: Seq<FactView>,
    dirs: Seq<Seq<char>>,
    libs: Seq<Seq<char>>,
    n: int,
    j: int,
)
    requires
        0 <= n <= dirs.len(),
        0 <= j < libs.len(),
        !libs[j].contains('/'),
        forall|a: int, b: int| 0 <= a < b < libs.len() ==> #[trigger] libs[a] != #[trigger] libs[b],
    ensures
        in_order(cached(facts, dirs, libs, n)),
        tells(
            cached(facts, dirs, libs, n),
            libs[j],
            found_in_dirs(facts, dirs.take(n), libs[j]),
        ),
    decreases n,
{
    if n > 0 {
        lemma_cached(facts, dirs, libs, n - 1, j);
        let part = dirs.take(n);
        assert(part.drop_last() =~= dirs.take(n - 1));
        assert(part.last() == dirs[n - 1]);
        lemma_one_dir(
            cached(facts, dirs, libs, n - 1),
            facts,
            part,
            libs,
            libs.len() as int,
            j,
        );
    }
}

/// The note of the cache is one of its type and owner, with the description behind them,
/// padded to a multiple of four.
pub proof fn law_note_is_one(e: Endian, desc: Seq<u8>)
    requires
        desc.len() <= u32::MAX,
    ensures
        ({
            let note = note_bytes(e, desc);
            &&& u32_at(e, note, 0) == 6
            &&& u32_at(e, note, 4) == desc.len()
            &&& u32_at(e, note, 8) == 0x63a8_6cb6
            &&& note.len() >= 20 + desc.len()
            &&& note.subrange(12, 20) == seq![0x4eu8, 0x69u8, 0x78u8, 0x4fu8, 0x53u8, 0, 0, 0]
            &&& note.subrange(20, 20 + desc.len() as int) == desc
            &&& note.len() % 4 == 0
            &&& note.len() < 20 + desc.len() + 4
        }),
{
    let note = note_bytes(e, desc);
    reveal(note_body);
    lemma_widths(e);
    reveal_strlit("NixOS");
    vstd::utf8::is_ascii_chars_encode_utf8("NixOS"@);
    let b = note_body(e, desc);
    let name = crate::ops::with_string(Seq::empty(), "NixOS"@);
    assert(name.len() == 6);
    assert(name =~= seq![0x4eu8, 0x69u8, 0x78u8, 0x4fu8, 0x53u8, 0]);
    assert(b.len() == 20 + desc.len());
    assert(note.subrange(0, 4) =~= crate::bytes::u32_bytes(e, 6));
    lemma_u32_decode(e, 6, note, 0);
    assert(note.subrange(4, 8) =~= crate::bytes::u32_bytes(e, desc.len() as u32));
    lemma_u32_decode(e, desc.len() as u32, note, 4);
    assert(note.subrange(8, 12) =~= crate::bytes::u32_bytes(e, 0x63a8_6cb6));
    lemma_u32_decode(e, 0x63a8_6cb6, note, 8);
    assert(note.subrange(12, 20) =~= name + seq![0u8, 0u8]);
    assert(name + seq![0u8, 0u8] =~= seq![0x4eu8, 0x69u8, 0x78u8, 0x4fu8, 0x53u8, 0, 0, 0]);
    assert(note.subrange(20, 20 + desc.len() as int) =~= desc);
}

/// What is known of a path is what the first fact about it says.
pub proof fn law_facts_are_told(facts: Seq<FactView>, path: Seq<char>, k: int)
    ensures
        0 <= k < facts.len() && facts[k].path == path && (forall|j: int|
            0 <= j < k ==> (#[trigger] facts[j]).path != path) ==> {
            &&& exists_at(facts, path) == facts[k].exists
            &&& opens_at(facts, path) == facts[k].opens
            &&& machine_at(facts, path) == machine_in(facts[k].head)
        },
        (forall|j: int| 0 <= j < facts.len() ==> (#[trigger] facts[j]).path != path) ==> !exists_at(
            facts,
            path,
        ) && !opens_at(facts, path) && machine_at(facts, path) is None,
{
    if 0 <= k < facts.len() && facts[k].path == path && (forall|j: int|
        0 <= j < k ==> (#[trigger] facts[j]).path != path) {
        lemma_first_is(facts, about(path), 0, k);
    }
    if forall|j: int| 0 <= j < facts.len() ==> (#[trigger] facts[j]).path != path {
        lemma_first_none(facts, about(path), 0);
    }
}

/// The run path that the cache is for is what the first entry of the newer tag says, or,
/// where there is none, the first of the older.
pub proof fn law_search_path_is_named(v: ImageView, i: int, t: Seq<char>)
    requires
        v.dynstr() is Some,
        0 <= i < v.dynamic.len(),
        v.dynamic[i].tag == 29 || v.dynamic[i].tag == 15,
        forall|j: int| 0 <= j < i ==> (#[trigger] v.dynamic[j]).tag != v.dynamic[i].tag,
        v.dynamic[i].tag == 15 ==> forall|j: int|
            0 <= j < v.dynamic.len() ==> (#[trigger] v.dynamic[j]).tag != 29,
        string_at(v.dynstr()->Some_0, v.dynamic[i].val as int % 0x1_0000_0000, t),
    ensures
        search_path(v) == t,
{
    law_string_is_read(v.dynstr()->Some_0, string_offset(v.dynamic[i]), t);
    lemma_first_is(v.dynamic, has_tag(v.dynamic[i].tag), 0, i);
    if v.dynamic[i].tag == 15 {
        lemma_first_none(v.dynamic, has_tag(29), 0);
    }
}

/// Whether `b` has, from `p` up to `q`, the name and the value of a library, each with a NUL
/// behind it.
pub open spec fn written_at(b: Seq<u8>, one: (Seq<char>, Seq<char>), p: int, q: int) -> bool {
    let name = encode_utf8(one.0);
    let value = encode_utf8(one.1);
    &&& 0 <= p
    &&& q == p + name.len() + 1 + value.len() + 1
    &&& q <= b.len()
    &&& string_at(b, p, one.0)
    &&& string_at(b, p + name.len() + 1, one.1)
}

/// The cache is written as its strings, for each library its name and then its value, each
/// with a NUL behind it. Gives the place of each library, and behind them the end.
pub proof fn law_cache_is_written(cache: Seq<(Seq<char>, Seq<char>)>, n: int) -> (at: Seq<int>)
    requires
        0 <= n <= cache.len(),
        forall|i: int|
            0 <= i < cache.len() ==> storable((#[trigger] cache[i]).0) && storable(cache[i].1),
    ensures
        at.len() == n + 1,
        at[0] == 0,
        at[n] == cache_bytes(cache, n).len(),
        forall|i: int|
            0 <= i < n ==> written_at(
                cache_bytes(cache, n),
                #[trigger] cache[i],
                at[i],
                at[i + 1],
            ),
    decreases n,
{
    if n == 0 {
        seq![0int]
    } else {
        let before = law_cache_is_written(cache, n - 1);
        let a = cache_bytes(cache, n - 1);
        let b = cache_bytes(cache, n);
        let at = before.push(b.len() as int);
        let one = cache[n - 1];
        assert(b =~= a + encode_utf8(one.0) + seq![0u8] + encode_utf8(one.1) + seq![0u8]);
        lemma_one_written(a, b, one);
        assert(b.take(a.len() as int) =~= a);
        assert forall|i: int| 0 <= i < n implies written_at(
            b,
            #[trigger] cache[i],
            at[i],
            at[i + 1],
        ) by {
            if i < n - 1 {
                assert(written_at(a, cache[i], before[i], before[i + 1]));
                lemma_written_nul(a, b, at[i], cache[i].0);
                lemma_written_nul(a, b, at[i] + encode_utf8(cache[i].0).len() + 1, cache[i].1);
            }
        }
        at
    }
}

proof fn lemma_one_written(a: Seq<u8>, b: Seq<u8>, one: (Seq<char>, Seq<char>))
    requires
        b == a + encode_utf8(one.0) + seq![0u8] + encode_utf8(one.1) + seq![0u8],
        storable(one.0),
        storable(one.1),
    ensures
        written_at(b, one, a.len() as int, b.len() as int),
{
    let x = encode_utf8(one.0);
    let y = encode_utf8(one.1);
    let p = a.len() as int;
    let q = p + x.len() + 1;
    assert(b.subrange(p, p + x.len()) =~= x);
    assert(b.subrange(q, q + y.len()) =~= y);
}

proof fn lemma_written_nul(a: Seq<u8>, b: Seq<u8>, p: int, t: Seq<char>)
    requires
        string_at(a, p, t),
        p + encode_utf8(t).len() < a.len() <= b.len(),
        b.take(a.len() as int) == a,
    ensures
        string_at(b, p, t),
{
    let x = encode_utf8(t);
    assert(b.subrange(p, p + x.len()) =~= a.subrange(p, p + x.len()));
    assert(b.take(a.len() as int)[p + x.len()] == b[p + x.len()]);
}

/// Building the cache puts it in the section of its name, with one NUL behind it; where
/// there is nothing to search for, nowhere to search, or nothing was found, the file stays
/// and a warning says so.
pub proof fn law_cache_operation(
    v: ImageView,
    r: ReportView,
    mods: ModifiersView,
    around: SurroundingsView,
)
    requires
        names_wf(v),
        v.find_section(".note.nixos.ldcache"@) matches Some(k) ==> v.ehdr.shstrndx != k,
        needed_of(v) is Ok,
        v.dynstr() is Some,
    ensures
        applied(v, r, OperationView::BuildResolutionCache, mods, around) matches Ok((w, s)) && {
            let libs = needed_of(v)->Ok_0;
            let dirs = fields(search_path(v), ':');
            let cache = cached(around.files, dirs, libs, dirs.len() as int);
            if cache.len() > 0 && libs.len() > 0 && dirs.len() > 0 {
                &&& s == r
                &&& w.find_section(".note.nixos.ldcache"@) matches Some(k) && 0 <= k
                    < w.sections.len() && w.sections[k] == note_bytes(
                    v.enc.endian,
                    cache_bytes(cache, cache.len() as int) + seq![0u8],
                )
            } else {
                &&& w == v
                &&& s.lines == r.lines
                &&& s.warnings.len() == r.warnings.len() + 1
                &&& s.warnings.drop_last() == r.warnings
            }
        },
{
    let libs = needed_of(v)->Ok_0;
    let dirs = fields(search_path(v), ':');
    let cache = cached(around.files, dirs, libs, dirs.len() as int);
    let desc = cache_bytes(cache, cache.len() as int);
    assert(desc.push(0) =~= desc + seq![0u8]);
    law_note_is_found(v, note_bytes(v.enc.endian, desc.push(0)));
    if let Ok((_, s)) = applied(v, r, OperationView::BuildResolutionCache, mods, around) {
        if s.warnings.len() > 0 {
            assert(s.warnings.len() == r.warnings.len() + 1 ==> s.warnings.drop_last()
                =~= r.warnings);
        }
    }
}

} // verus!
