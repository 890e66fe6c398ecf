//! The libraries that a file may load at run time, as it declares them in a note.
use vstd::prelude::*;

use crate::bytes::u32_at;
use crate::ir::{sht, ElfImage, Endian, ImageView};
use crate::text::{
    chars_of, split, split_text, string_of, text_of, texts, trim, trim_text, utf8_text,
};

verus! {

/// Type of the note.
pub const NT_FDO_DLOPEN: u32 = 0x407c_0c0a;

/// Whether `pat` stands in `s` at `i`.
pub open spec fn stands_at(s: Seq<char>, pat: Seq<char>, i: int) -> bool {
    i + pat.len() <= s.len() && s.subrange(i, (i + pat.len()) as int) == pat
}

/// The first place at or after `i` where `pat` stands in `s`.
pub open spec fn find_from(s: Seq<char>, pat: Seq<char>, i: int) -> Option<int>
    decreases s.len() - i,
{
    if i < 0 || i + pat.len() > s.len() {
        None
    } else if stands_at(s, pat, i) {
        Some(i)
    } else if i >= s.len() {
        None
    } else {
        find_from(s, pat, i + 1)
    }
}

/// The text in quotes, if `t`, without the white space around it, is that.
pub open spec fn quoted(t: Seq<char>) -> Option<Seq<char>> {
    let u = trim(t);
    if u.len() >= 2 && u[0] == '"' && u.last() == '"' {
        Some(u.subrange(1, u.len() - 1))
    } else {
        None
    }
}

/// The quoted texts among the first `n` pieces.
pub open spec fn quoted_in(pieces: Seq<Seq<char>>, n: int) -> Seq<Seq<char>>
    decreases n,
{
    if n <= 0 {
        Seq::empty()
    } else {
        match quoted(pieces[n - 1]) {
            Some(t) => quoted_in(pieces, n - 1).push(t),
            None => quoted_in(pieces, n - 1),
        }
    }
}

/// The names in a list: its quoted texts between commas.
pub open spec fn names_in(list: Seq<char>) -> Seq<Seq<char>> {
    let p = split(list, ',');
    quoted_in(p, p.len() as int)
}

/// The key that announces a list of names, with its quotes.
pub open spec fn soname_key() -> Seq<char> {
    "\"soname\""@
}

/// The lists of names in `json`: after each `"soname"` key, what stands between
/// the next brackets. Lists without names are passed over.
pub open spec fn name_lists(json: Seq<char>) -> Seq<Seq<Seq<char>>>
    decreases json.len(),
    via name_lists_decreases
{
    match find_from(json, soname_key(), 0) {
        None => Seq::empty(),
        Some(k) => {
            let rest = json.skip(k + 8);
            match find_from(rest, "["@, 0) {
                None => Seq::empty(),
                Some(open) => match find_from(rest, "]"@, open) {
                    None => Seq::empty(),
                    Some(close) => {
                        let names = names_in(rest.subrange(open + 1, close));
                        let more = name_lists(rest.skip(close));
                        if names.len() == 0 {
                            more
                        } else {
                            seq![names] + more
                        }
                    },
                },
            }
        },
    }
}

#[via_fn]
proof fn name_lists_decreases(json: Seq<char>) {
    reveal_strlit("\"soname\"");
    lemma_find_from(json, soname_key(), 0);
    if let Some(k) = find_from(json, soname_key(), 0) {
        let rest = json.skip(k + 8);
        lemma_find_from(rest, "["@, 0);
        if let Some(open) = find_from(rest, "["@, 0) {
            lemma_find_from(rest, "]"@, open);
        }
    }
}

/// The lists of names in a vector of vectors.
pub open spec fn list_views(v: Seq<Vec<String>>) -> Seq<Seq<Seq<char>>> {
    Seq::new(v.len(), |i: int| texts(v[i]@))
}

proof fn lemma_find_from(s: Seq<char>, pat: Seq<char>, i: int)
    requires
        0 <= i,
    ensures
        find_from(s, pat, i) matches Some(k) ==> i <= k && k + pat.len() <= s.len() && stands_at(
            s,
            pat,
            k,
        ),
    decreases s.len() - i,
{
    if i + pat.len() <= s.len() && !stands_at(s, pat, i) && i < s.len() {
        lemma_find_from(s, pat, i + 1);
    }
}

/// The first place at or after `from` where `pat` stands in `s`.
pub(crate) fn find_text(s: &Vec<char>, pat: &Vec<char>, from: usize) -> (res: Option<usize>)
    requires
        pat@.len() > 0,
    ensures
        match res {
            Some(k) => find_from(s@, pat@, from as int) == Some(k as int) && from <= k && k
                + pat@.len() <= s@.len(),
            None => find_from(s@, pat@, from as int) is None,
        },
{
    let n = pat.len();
    let mut i: usize = from;
    while i <= s.len() && n <= s.len() - i
        invariant
            n == pat@.len(),
            n > 0,
            from <= i,
            find_from(s@, pat@, from as int) == find_from(s@, pat@, i as int),
        decreases s@.len() + 1 - i,
    {
        let mut j: usize = 0;
        while j < n && s[i + j] == pat[j]
            invariant
                n == pat@.len(),
                j <= n,
                i + n <= s.len(),
                forall|k: int| 0 <= k < j ==> s@[i + k] == pat@[k],
            decreases n - j,
        {
            j += 1;
        }
        if j == n {
            assert(s@.subrange(i as int, i + n) =~= pat@);
            return Some(i);
        }
        assert(!stands_at(s@, pat@, i as int)) by {
            if stands_at(s@, pat@, i as int) {
                assert(s@.subrange(i as int, i + n)[j as int] == pat@[j as int]);
            }
        }
        i += 1;
    }
    None
}

fn unquote(s: &str) -> (res: Option<String>)
    ensures
        match res {
            Some(t) => quoted(s@) == Some(t@),
            None => quoted(s@) is None,
        },
{
    let u = trim_text(s);
    let chars = chars_of(u.as_str());
    let n = chars.len();
    if n >= 2 && chars[0] == '"' && chars[n - 1] == '"' {
        Some(string_of(&chars, 1, n - 1))
    } else {
        None
    }
}

fn read_names(list: &str) -> (out: Vec<String>)
    ensures
        texts(out@) == names_in(list@),
{
    let pieces = split_text(list, ',');
    let ghost all = texts(pieces@);
    let mut out: Vec<String> = Vec::new();
    let mut i: usize = 0;
    assert(texts(out@) =~= Seq::empty());
    while i < pieces.len()
        invariant
            all == texts(pieces@),
            i <= pieces@.len(),
            texts(out@) == quoted_in(all, i as int),
        decreases pieces@.len() - i,
    {
        assert(all[i as int] == pieces@[i as int]@);
        if let Some(t) = unquote(pieces[i].as_str()) {
            let ghost before = texts(out@);
            out.push(t);
            assert(texts(out@) =~= before.push(t@));
        }
        i += 1;
    }
    out
}

/// Where things are in the rest of a text, seen from the text as a whole.
proof fn lemma_find_shift(s: Seq<char>, pat: Seq<char>, base: int, i: int)
    requires
        0 <= base <= s.len(),
        0 <= i,
    ensures
        find_from(s, pat, base + i) == (match find_from(s.skip(base), pat, i) {
            Some(k) => Some(base + k),
            None => None,
        }),
    decreases s.len() - base - i,
{
    let r = s.skip(base);
    if base + i + pat.len() <= s.len() {
        assert(r.subrange(i, (i + pat.len()) as int) =~= s.subrange(
            base + i,
            (base + i + pat.len()) as int,
        ));
        if !stands_at(r, pat, i) && i < r.len() {
            lemma_find_shift(s, pat, base, i + 1);
        }
    }
}

/// The lists of names in the JSON of a dlopen note. The schema is a flat array of
/// objects, and names never hold quotes or commas, so that each `"soname"` key
/// and the brackets behind it are enough.
pub fn parse_dlopen_json(json: &str) -> (out: Vec<Vec<String>>)
    ensures
        list_views(out@) == name_lists(json@),
{
    let chars = chars_of(json);
    let key = chars_of("\"soname\"");
    let open_mark = chars_of("[");
    let close_mark = chars_of("]");
    proof {
        reveal_strlit("\"soname\"");
        reveal_strlit("[");
        reveal_strlit("]");
    }
    let mut out: Vec<Vec<String>> = Vec::new();
    let mut at: usize = 0;
    assert(json@.skip(0) =~= json@);
    assert(list_views(out@) + name_lists(json@.skip(0)) =~= name_lists(json@));
    loop
        invariant
            chars@ == json@,
            key@ == soname_key(),
            key@.len() == 8,
            open_mark@ == "["@,
            open_mark@.len() == 1,
            open_mark@[0] == '[',
            close_mark@ == "]"@,
            close_mark@.len() == 1,
            close_mark@[0] == ']',
            at <= chars@.len(),
            name_lists(json@) == list_views(out@) + name_lists(json@.skip(at as int)),
        decreases chars@.len() - at,
    {
        let ghost rest = json@.skip(at as int);
        proof {
            lemma_find_shift(json@, soname_key(), at as int, 0);
        }
        let k = match find_text(&chars, &key, at) {
            Some(k) => k,
            None => {
                assert(list_views(out@) + Seq::empty() =~= list_views(out@));
                return out;
            },
        };
        assert(chars@.len() == chars.len());
        let from: usize = k + 8;
        let ghost tail = json@.skip(from as int);
        proof {
            assert(rest.skip(k - at + 8) =~= tail);
            lemma_find_shift(json@, "["@, from as int, 0);
        }
        let open = match find_text(&chars, &open_mark, from) {
            Some(o) => o,
            None => {
                assert(list_views(out@) + Seq::empty() =~= list_views(out@));
                return out;
            },
        };
        proof {
            lemma_find_shift(json@, "]"@, from as int, open - from);
        }
        let close = match find_text(&chars, &close_mark, open) {
            Some(c) => c,
            None => {
                assert(list_views(out@) + Seq::empty() =~= list_views(out@));
                return out;
            },
        };
        proof {
            lemma_find_from(json@, "["@, from as int);
            lemma_find_from(json@, "]"@, open as int);
            assert(json@.subrange(open as int, open + 1)[0] == '[');
            assert(json@.subrange(close as int, close + 1)[0] == ']');
            assert(open < close);
            assert(tail.subrange(open - from + 1, close - from) =~= json@.subrange(
                open + 1,
                close as int,
            ));
            assert(tail.skip(close - from) =~= json@.skip(close as int));
        }
        let list = string_of(&chars, open + 1, close);
        let names = read_names(list.as_str());
        assert(texts(names@).len() == names@.len());
        let ghost before = list_views(out@);
        let ghost more = name_lists(json@.skip(close as int));
        if names.len() > 0 {
            let ghost n = texts(names@);
            out.push(names);
            assert(list_views(out@) =~= before.push(n));
            assert(before + (seq![n] + more) =~= list_views(out@) + more);
        }
        at = close;
    }
}

/// `n` rounded up to a multiple of four.
pub open spec fn align_four(n: int) -> int {
    (n + 3) / 4 * 4
}

/// `t` without the NULs at its end.
pub open spec fn trim_nuls(t: Seq<char>) -> Seq<char>
    decreases t.len(),
{
    if t.len() > 0 && t.last() == '\0' {
        trim_nuls(t.drop_last())
    } else {
        t
    }
}

/// The lists of names in a note: one of this type, with an owner that starts with
/// `FDO`, whose description is text.
pub open spec fn note_lists(kind: u32, owner: Seq<u8>, desc: Seq<u8>) -> Seq<Seq<Seq<char>>> {
    if kind == NT_FDO_DLOPEN && owner.len() >= 3 && owner[0] == 0x46 && owner[1] == 0x44
        && owner[2] == 0x4f {
        match utf8_text(desc) {
            Some(t) => name_lists(trim_nuls(t)),
            None => Seq::empty(),
        }
    } else {
        Seq::empty()
    }
}

/// The lists of names in the notes of `data` from position `o` on. Owner and
/// description of a note are each padded to a multiple of four; a note that
/// reaches past the end holds nothing.
pub open spec fn lists_from(e: Endian, data: Seq<u8>, o: int) -> Seq<Seq<Seq<char>>>
    decreases
            if o <= data.len() {
                data.len() - o
            } else {
                0
            },
{
    if o < 0 || o + 12 > data.len() {
        Seq::empty()
    } else {
        let n = u32_at(e, data, o) as int;
        let d = u32_at(e, data, o + 4) as int;
        let owner = o + 12;
        let desc = align_four(owner + n);
        let rest = lists_from(e, data, align_four(desc + d));
        if owner + n <= data.len() && desc + d <= data.len() {
            note_lists(
                u32_at(e, data, o + 8),
                data.subrange(owner, owner + n),
                data.subrange(desc, desc + d),
            ) + rest
        } else {
            rest
        }
    }
}

/// The libraries that a file may load at run time: each list holds alternatives.
pub open spec fn dlopen_lists(v: ImageView) -> Seq<Seq<Seq<char>>> {
    match v.find_section(".note.dlopen"@) {
        None => Seq::empty(),
        Some(k) => if v.shdrs[k].sh_type != sht::NOTE {
            Seq::empty()
        } else {
            lists_from(v.enc.endian, v.sections[k], 0)
        },
    }
}

fn without_nuls(s: &str) -> (t: String)
    ensures
        t@ == trim_nuls(s@),
{
    let chars = chars_of(s);
    let mut n: usize = chars.len();
    assert(s@.take(s@.len() as int) =~= s@);
    while n > 0 && chars[n - 1] == '\0'
        invariant
            chars@ == s@,
            n <= chars@.len(),
            trim_nuls(s@) == trim_nuls(s@.take(n as int)),
        decreases n,
    {
        assert(s@.take(n as int).drop_last() =~= s@.take(n - 1));
        n -= 1;
    }
    assert(s@.subrange(0, n as int) =~= s@.take(n as int));
    string_of(&chars, 0, n)
}

fn read_note(kind: u32, owner: &[u8], desc: &[u8]) -> (out: Vec<Vec<String>>)
    ensures
        list_views(out@) == note_lists(kind, owner@, desc@),
{
    if kind == NT_FDO_DLOPEN && owner.len() >= 3 && owner[0] == 0x46 && owner[1] == 0x44
        && owner[2] == 0x4f {
        if let Some(t) = text_of(desc) {
            return parse_dlopen_json(without_nuls(t).as_str());
        }
    }
    let out: Vec<Vec<String>> = Vec::new();
    assert(list_views(out@) =~= Seq::empty());
    out
}

/// Append copies of `more`.
pub(crate) fn append_lists(out: &mut Vec<Vec<String>>, more: Vec<Vec<String>>)
    ensures
        list_views(final(out)@) == list_views(old(out)@) + list_views(more@),
{
    let ghost start = list_views(out@);
    let ghost all = list_views(more@);
    let mut i: usize = 0;
    assert(start + all.take(0) =~= start);
    while i < more.len()
        invariant
            all == list_views(more@),
            i <= more@.len(),
            list_views(out@) == start + all.take(i as int),
        decreases more@.len() - i,
    {
        let ghost before = list_views(out@);
        out.push(copy_texts(&more[i]));
        assert(list_views(out@) =~= before.push(all[i as int]));
        assert(before.push(all[i as int]) =~= start + all.take(i + 1));
        i += 1;
    }
    assert(all.take(all.len() as int) =~= all);
}

/// A copy of a list of strings.
pub(crate) fn copy_texts(v: &Vec<String>) -> (out: Vec<String>)
    ensures
        texts(out@) == texts(v@),
{
    let mut out: Vec<String> = Vec::new();
    let mut i: usize = 0;
    while i < v.len()
        invariant
            out@.len() == i <= v@.len(),
            forall|j: int| 0 <= j < i ==> (#[trigger] out@[j])@ == v@[j]@,
        decreases v@.len() - i,
    {
        out.push(v[i].clone());
        i += 1;
    }
    assert(texts(out@) =~= texts(v@));
    out
}

/// The libraries that a file may load at run time. Most files declare none.
pub fn dlopen_deps(image: &ElfImage) -> (out: Vec<Vec<String>>)
    requires
        image@.wf(),
    ensures
        list_views(out@) == dlopen_lists(image@),
{
    let mut out: Vec<Vec<String>> = Vec::new();
    assert(list_views(out@) =~= Seq::empty());
    let k = match image.find_section(".note.dlopen") {
        Some(k) => k,
        None => {
            return out;
        },
    };
    if image.shdrs[k].sh_type != sht::NOTE {
        return out;
    }
    let e = image.enc.endian;
    let data = image.section_data[k].as_slice();
    let len = data.len() as u128;
    let ghost all = lists_from(e, data@, 0);
    let mut o: u128 = 0;
    assert(all =~= list_views(out@) + lists_from(e, data@, 0));
    while o + 12 <= len
        invariant
            len == data@.len(),
            len == data.len(),
            o <= len + 0x2_0000_0010,
            all == list_views(out@) + lists_from(e, data@, o as int),
        decreases len + 0x2_0000_0010 - o,
    {
        let at = o as usize;
        let n: u128 = e.read_u32(data, at) as u128;
        let d: u128 = e.read_u32(data, at + 4) as u128;
        let kind: u32 = e.read_u32(data, at + 8);
        let owner: u128 = o + 12;
        let desc: u128 = (owner + n + 3) / 4 * 4;
        let next: u128 = (desc + d + 3) / 4 * 4;
        let ghost rest = lists_from(e, data@, next as int);
        let ghost before = list_views(out@);
        if owner + n <= len && desc + d <= len {
            let lists = read_note(
                kind,
                &data[owner as usize..(owner + n) as usize],
                &data[desc as usize..(desc + d) as usize],
            );
            let ghost found = list_views(lists@);
            append_lists(&mut out, lists);
            assert(before + (found + rest) =~= list_views(out@) + rest);
        }
        o = next;
    }
    assert(list_views(out@) + Seq::empty() =~= list_views(out@));
    out
}

} // verus!
