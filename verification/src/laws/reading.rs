//! Texts that are read: rename maps, and the lists of libraries that are loaded at run time.
use vstd::prelude::*;

use crate::bytes::u32_at;
use crate::dlopen::{
    align_four, dlopen_lists, find_from, lists_from, name_lists, names_in, quoted, quoted_in,
    soname_key, stands_at, trim_nuls,
};
use crate::error::Outcome;
use crate::ir::{Endian, ImageView};
use crate::seqs::lemma_filter_push;
use crate::symbols::{map_pairs, symbol_map, without_cr};
use crate::text::{
    is_char, is_white, join, nonempty, pieces, split, trim, trim_end, trim_start, utf8_text, white,
    words,
};

verus! {

/// A text that goes on without a separator.
proof fn lemma_run(a: Seq<char>, t: Seq<char>, p: spec_fn(char) -> bool)
    requires
        forall|i: int| 0 <= i < t.len() ==> !p(#[trigger] t[i]),
    ensures
        pieces(a, p).len() > 0,
        pieces(a + t, p) == pieces(a, p).drop_last().push(pieces(a, p).last() + t),
    decreases t.len(),
{
    lemma_some(a, p);
    let head = pieces(a, p);
    if t.len() == 0 {
        assert(a + t =~= a);
        assert(head.last() + t =~= head.last());
        assert(head.drop_last().push(head.last()) =~= head);
    } else {
        let u = t.drop_last();
        assert forall|i: int| 0 <= i < u.len() implies !p(#[trigger] u[i]) by {
            assert(t[i] == u[i]);
        }
        lemma_run(a, u, p);
        assert((a + t).drop_last() =~= a + u);
        assert((a + t).last() == t.last());
        assert(!p(t[t.len() - 1]));
        assert((head.last() + u).push(t.last()) =~= head.last() + t);
        assert(pieces(a + t, p) =~= head.drop_last().push(head.last() + t));
    }
}

proof fn lemma_some(a: Seq<char>, p: spec_fn(char) -> bool)
    ensures
        pieces(a, p).len() > 0,
    decreases a.len(),
{
    if a.len() > 0 {
        lemma_some(a.drop_last(), p);
    }
}

/// A separator, and what goes on behind it.
proof fn lemma_break(a: Seq<char>, c: char, t: Seq<char>, p: spec_fn(char) -> bool)
    requires
        p(c),
        forall|i: int| 0 <= i < t.len() ==> !p(#[trigger] t[i]),
    ensures
        pieces(a + seq![c] + t, p) == pieces(a, p).push(t),
{
    let b = a + seq![c];
    assert(b.drop_last() =~= a);
    assert(b.last() == c);
    lemma_run(b, t, p);
    assert(pieces(b, p).drop_last() =~= pieces(a, p));
    assert(Seq::<char>::empty() + t =~= t);
}

/// Whether a text is a word: it has characters, none of them white space.
pub open spec fn is_word(t: Seq<char>) -> bool {
    t.len() > 0 && forall|i: int| 0 <= i < t.len() ==> !is_white(#[trigger] t[i])
}

/// The first `n` pairs of a rename map, as a text: a line with two words for each.
pub open spec fn map_text(pairs: Seq<(Seq<char>, Seq<char>)>, n: int) -> Seq<char>
    decreases n,
{
    if n <= 0 {
        Seq::empty()
    } else {
        map_text(pairs, n - 1) + pairs[n - 1].0 + seq![' '] + pairs[n - 1].1 + seq!['\n']
    }
}

spec fn pair_line(pair: (Seq<char>, Seq<char>)) -> Seq<char> {
    pair.0 + seq![' '] + pair.1
}

proof fn lemma_two_words(a: Seq<char>, b: Seq<char>)
    requires
        is_word(a),
        is_word(b),
    ensures
        words(a + seq![' '] + b) == seq![a, b],
{
    let e = Seq::<char>::empty();
    lemma_run(e, a, white());
    assert(e + a =~= a);
    assert(pieces(e, white()).drop_last() =~= Seq::empty());
    assert(pieces(a, white()) =~= Seq::empty().push(a));
    lemma_break(a, ' ', b, white());
    reveal(Seq::filter);
    let none = Seq::<Seq<char>>::empty();
    lemma_filter_push(none, a, nonempty());
    lemma_filter_push(none.push(a), b, nonempty());
    assert(none.filter(nonempty()) =~= none);
    assert(words(a + seq![' '] + b) =~= seq![a, b]);
}

proof fn lemma_map_lines(pairs: Seq<(Seq<char>, Seq<char>)>, n: int)
    requires
        0 <= n <= pairs.len(),
        forall|i: int|
            0 <= i < pairs.len() ==> is_word((#[trigger] pairs[i]).0) && is_word(pairs[i].1),
    ensures
        split(map_text(pairs, n), '\n') == Seq::new(n as nat, |i: int| pair_line(pairs[i])).push(
            Seq::empty(),
        ),
    decreases n,
{
    let p = is_char('\n');
    let lines = Seq::new(n as nat, |i: int| pair_line(pairs[i]));
    if n > 0 {
        lemma_map_lines(pairs, n - 1);
        let before = map_text(pairs, n - 1);
        let (a, b) = pairs[n - 1];
        let line = pair_line(pairs[n - 1]);
        assert(is_word(pairs[n - 1].0) && is_word(pairs[n - 1].1));
        assert forall|i: int| 0 <= i < line.len() implies !p(#[trigger] line[i]) by {
            if i < a.len() {
                assert(!is_white(a[i]));
            } else if i > a.len() {
                assert(!is_white(b[i - a.len() - 1]));
            }
        }
        lemma_run(before, line, p);
        let short = Seq::new((n - 1) as nat, |i: int| pair_line(pairs[i]));
        assert(short.push(Seq::empty()).drop_last() =~= short);
        assert(Seq::<char>::empty() + line =~= line);
        assert(pieces(before + line, p) == short.push(line));
        lemma_break(before + line, '\n', Seq::empty(), p);
        assert(before + line + seq!['\n'] + Seq::empty() =~= map_text(pairs, n));
        assert(lines =~= short.push(line));
    } else {
        assert(lines.push(Seq::empty()) =~= seq![Seq::<char>::empty()]);
    }
}

/// A rename map that is written, one pair a line, reads back.
pub proof fn law_map_reads_back(pairs: Seq<(Seq<char>, Seq<char>)>)
    requires
        forall|i: int|
            0 <= i < pairs.len() ==> is_word((#[trigger] pairs[i]).0) && is_word(pairs[i].1),
    ensures
        symbol_map(map_text(pairs, pairs.len() as int)) == Outcome::<
            Seq<(Seq<char>, Seq<char>)>,
        >::Ok(pairs),
{
    let n = pairs.len() as int;
    lemma_map_lines(pairs, n);
    let lines = split(map_text(pairs, n), '\n');
    lemma_map_pairs(pairs, lines, n);
    assert(lines[n] =~= Seq::empty());
    let e = Seq::<char>::empty();
    reveal(Seq::filter);
    let none = Seq::<Seq<char>>::empty();
    assert(pieces(e, white()) =~= none.push(e));
    lemma_filter_push(none, e, nonempty());
    assert(none.filter(nonempty()) =~= none);
    assert(words(e).len() == 0);
    assert(pairs.take(n) =~= pairs);
}

proof fn lemma_map_pairs(pairs: Seq<(Seq<char>, Seq<char>)>, lines: Seq<Seq<char>>, n: int)
    requires
        0 <= n <= pairs.len(),
        forall|i: int|
            0 <= i < pairs.len() ==> is_word((#[trigger] pairs[i]).0) && is_word(pairs[i].1),
        lines == Seq::new(pairs.len(), |i: int| pair_line(pairs[i])).push(Seq::empty()),
    ensures
        map_pairs(lines, n) == Outcome::<Seq<(Seq<char>, Seq<char>)>>::Ok(pairs.take(n)),
    decreases n,
{
    if n > 0 {
        lemma_map_pairs(pairs, lines, n - 1);
        let (a, b) = pairs[n - 1];
        assert(is_word(pairs[n - 1].0) && is_word(pairs[n - 1].1));
        let line = pair_line(pairs[n - 1]);
        assert(lines[n - 1] == line);
        assert(line.last() == b.last());
        assert(!is_white(b[b.len() - 1]));
        assert(without_cr(line) == line);
        lemma_two_words(a, b);
        assert(pairs.take(n - 1).push((a, b)) =~= pairs.take(n));
    } else {
        assert(pairs.take(0) =~= Seq::empty());
    }
}

/// What stands first is found.
proof fn lemma_stands_first(s: Seq<char>, pat: Seq<char>, i: int, k: int)
    requires
        0 <= i <= k,
        pat.len() > 0,
        stands_at(s, pat, k),
        forall|j: int| i <= j < k ==> !#[trigger] stands_at(s, pat, j),
    ensures
        find_from(s, pat, i) == Some(k),
    decreases k - i,
{
    if i < k {
        assert(!stands_at(s, pat, i));
        lemma_stands_first(s, pat, i + 1, k);
    }
}

/// A character that stands first is found.
proof fn lemma_char_first(s: Seq<char>, c: char, i: int, k: int)
    requires
        0 <= i <= k < s.len(),
        s[k] == c,
        forall|j: int| i <= j < k ==> #[trigger] s[j] != c,
    ensures
        find_from(s, seq![c], i) == Some(k),
{
    let pat = seq![c];
    assert(s.subrange(k, k + 1) =~= pat);
    assert(stands_at(s, pat, k));
    assert forall|j: int| i <= j < k implies !#[trigger] stands_at(s, pat, j) by {
        assert(s[j] != c);
        if stands_at(s, pat, j) {
            assert(s.subrange(j, (j + pat.len()) as int)[0] == s[j]);
        }
    }
    lemma_stands_first(s, pat, i, k);
}

/// Behind the first key for a list of names, what stands between the next brackets is read as
/// one, and reading goes on behind it.
pub proof fn law_list_is_read(
    before: Seq<char>,
    between: Seq<char>,
    body: Seq<char>,
    after: Seq<char>,
)
    requires
        !between.contains('['),
        !body.contains(']'),
        forall|i: int|
            0 <= i < before.len() ==> !#[trigger] stands_at(
                before + soname_key() + between + seq!['['] + body + seq![']'] + after,
                soname_key(),
                i,
            ),
    ensures
        name_lists(before + soname_key() + between + seq!['['] + body + seq![']'] + after) == (
        if names_in(body).len() == 0 {
            Seq::empty()
        } else {
            seq![names_in(body)]
        }) + name_lists(seq![']'] + after),
{
    let key = soname_key();
    let json = before + key + between + seq!['['] + body + seq![']'] + after;
    let k = before.len() as int;
    reveal_strlit("\"soname\"");
    reveal_strlit("[");
    reveal_strlit("]");
    assert("["@ =~= seq!['[']);
    assert("]"@ =~= seq![']']);
    assert(key.len() == 8);
    assert(json.subrange(k, k + 8) =~= key);
    assert(stands_at(json, key, k));
    lemma_stands_first(json, key, 0, k);
    let rest = json.skip(k + 8);
    let open = between.len() as int;
    let close = open + 1 + body.len();
    assert(rest =~= between + seq!['['] + body + seq![']'] + after);
    assert forall|j: int| 0 <= j < open implies #[trigger] rest[j] != '[' by {
        assert(between.contains(between[j]));
    }
    lemma_char_first(rest, '[', 0, open);
    assert forall|j: int| open <= j < close implies #[trigger] rest[j] != ']' by {
        if j > open {
            assert(body.contains(body[j - open - 1]));
        }
    }
    lemma_char_first(rest, ']', open, close);
    assert(rest.subrange(open + 1, close) =~= body);
    assert(rest.skip(close) =~= seq![']'] + after);
    let more = name_lists(rest.skip(close));
    assert(Seq::<Seq<Seq<char>>>::empty() + more =~= more);
}

/// A text without the key for a list of names has none.
pub proof fn law_no_list(json: Seq<char>)
    requires
        forall|i: int| 0 <= i ==> !#[trigger] stands_at(json, soname_key(), i),
    ensures
        name_lists(json).len() == 0,
{
    lemma_not_found(json, soname_key(), 0);
}

proof fn lemma_not_found(s: Seq<char>, pat: Seq<char>, i: int)
    requires
        0 <= i,
        forall|j: int| i <= j ==> !#[trigger] stands_at(s, pat, j),
    ensures
        find_from(s, pat, i) is None,
    decreases s.len() - i,
{
    if i + pat.len() <= s.len() {
        assert(!stands_at(s, pat, i));
        if i < s.len() {
            lemma_not_found(s, pat, i + 1);
        }
    }
}

/// Whether a text is all white space.
pub open spec fn all_white(t: Seq<char>) -> bool {
    forall|i: int| 0 <= i < t.len() ==> is_white(#[trigger] t[i])
}

/// A name in a list: in quotes, with white space around it.
pub open spec fn list_item(a: Seq<char>, name: Seq<char>, b: Seq<char>) -> Seq<char> {
    a + seq!['"'] + name + seq!['"'] + b
}

proof fn lemma_trim_end(t: Seq<char>, b: Seq<char>)
    requires
        all_white(b),
        t.len() > 0,
        !is_white(t.last()),
    ensures
        trim_end(t + b) == t,
    decreases b.len(),
{
    if b.len() > 0 {
        assert((t + b).last() == b[b.len() - 1]);
        assert((t + b).drop_last() =~= t + b.drop_last());
        assert forall|i: int| 0 <= i < b.drop_last().len() implies is_white(
            #[trigger] b.drop_last()[i],
        ) by {
            assert(b.drop_last()[i] == b[i]);
        }
        lemma_trim_end(t, b.drop_last());
    } else {
        assert(t + b =~= t);
    }
}

proof fn lemma_trim_start(a: Seq<char>, t: Seq<char>)
    requires
        all_white(a),
        t.len() > 0,
        !is_white(t[0]),
    ensures
        trim_start(a + t) == t,
    decreases a.len(),
{
    if a.len() > 0 {
        assert((a + t)[0] == a[0]);
        assert((a + t).skip(1) =~= a.skip(1) + t);
        assert((a + t).drop_first() =~= a.skip(1) + t);
        assert forall|i: int| 0 <= i < a.skip(1).len() implies is_white(#[trigger] a.skip(1)[i]) by {
            assert(a.skip(1)[i] == a[i + 1]);
        }
        lemma_trim_start(a.skip(1), t);
    } else {
        assert(a + t =~= t);
    }
}

/// Quotes are read off, and the white space around them.
proof fn lemma_quoted(a: Seq<char>, name: Seq<char>, b: Seq<char>)
    requires
        all_white(a),
        all_white(b),
    ensures
        quoted(list_item(a, name, b)) == Some(name),
{
    let x = seq!['"'] + name + seq!['"'];
    let t = list_item(a, name, b);
    assert(x.last() == '"' && x[0] == '"');
    lemma_trim_end(a + x, b);
    assert((a + x).last() == x.last());
    assert(t =~= a + x + b);
    lemma_trim_start(a, x);
    lemma_trim_end(x, b);
    lemma_trim_start(a, x + b);
    assert(a + (x + b) =~= t);
    assert((x + b)[0] == '"');
    assert(trim(t) == x);
    assert(x.subrange(1, x.len() - 1) =~= name);
}

/// The names in a list of quoted names with commas between them are those.
pub proof fn law_names_are_read(
    before: Seq<Seq<char>>,
    names: Seq<Seq<char>>,
    after: Seq<Seq<char>>,
)
    requires
        names.len() > 0,
        before.len() == names.len(),
        after.len() == names.len(),
        forall|i: int|
            0 <= i < names.len() ==> !(#[trigger] names[i]).contains(',') && all_white(before[i])
                && all_white(after[i]),
    ensures
        names_in(
            join(
                Seq::new(names.len(), |i: int| list_item(before[i], names[i], after[i])),
                seq![','],
            ),
        ) == names,
{
    let items = Seq::new(names.len(), |i: int| list_item(before[i], names[i], after[i]));
    assert forall|i: int| 0 <= i < items.len() implies !(#[trigger] items[i]).contains(',') by {
        assert(!names[i].contains(','));
        let t = items[i];
        assert forall|j: int| 0 <= j < t.len() implies t[j] != ',' by {
            let (a, n) = (before[i].len() as int, names[i].len() as int);
            if j < a {
                assert(is_white(before[i][j]));
            } else if a < j <= a + n {
                assert(names[i].contains(names[i][j - a - 1]));
            } else if j > a + n + 1 {
                assert(is_white(after[i][j - a - n - 2]));
            }
        }
    }
    lemma_split_join(items);
    lemma_all_quoted(before, names, after, items, items.len() as int);
    assert(names.take(names.len() as int) =~= names);
}

proof fn lemma_split_join(parts: Seq<Seq<char>>)
    requires
        parts.len() > 0,
        forall|i: int| 0 <= i < parts.len() ==> !(#[trigger] parts[i]).contains(','),
    ensures
        split(join(parts, seq![',']), ',') == parts,
    decreases parts.len(),
{
    let p = is_char(',');
    let last = parts.last();
    assert(!parts[parts.len() - 1].contains(','));
    assert forall|i: int| 0 <= i < last.len() implies !p(#[trigger] last[i]) by {
        assert(last.contains(last[i]));
    }
    if parts.len() == 1 {
        let e = Seq::<char>::empty();
        lemma_run(e, last, p);
        assert(e + last =~= last);
        assert(pieces(e, p).drop_last() =~= Seq::empty());
        assert(split(last, ',') =~= parts);
    } else {
        let head = parts.drop_last();
        assert forall|i: int| 0 <= i < head.len() implies !(#[trigger] head[i]).contains(',') by {
            assert(head[i] == parts[i]);
        }
        lemma_split_join(head);
        lemma_break(join(head, seq![',']), ',', last, p);
        assert(head.push(last) =~= parts);
    }
}

proof fn lemma_all_quoted(
    before: Seq<Seq<char>>,
    names: Seq<Seq<char>>,
    after: Seq<Seq<char>>,
    items: Seq<Seq<char>>,
    n: int,
)
    requires
        0 <= n <= names.len(),
        before.len() == names.len(),
        after.len() == names.len(),
        forall|i: int|
            0 <= i < names.len() ==> !(#[trigger] names[i]).contains(',') && all_white(before[i])
                && all_white(after[i]),
        items == Seq::new(names.len(), |i: int| list_item(before[i], names[i], after[i])),
    ensures
        quoted_in(items, n) == names.take(n),
    decreases n,
{
    if n > 0 {
        lemma_all_quoted(before, names, after, items, n - 1);
        assert(!names[n - 1].contains(','));
        lemma_quoted(before[n - 1], names[n - 1], after[n - 1]);
        assert(names.take(n - 1).push(names[n - 1]) =~= names.take(n));
    } else {
        assert(names.take(0) =~= Seq::empty());
    }
}

/// A note in a section of notes is read where it stands: its owner and its description, each
/// up to a multiple of four, and then the next one. One for libraries that are loaded at run
/// time gives the lists that its text has; any other gives none.
pub proof fn law_note_is_read(e: Endian, data: Seq<u8>, o: int)
    requires
        0 <= o,
        o % 4 == 0,
        o + 12 <= data.len(),
        ({
            let n = u32_at(e, data, o) as int;
            let d = u32_at(e, data, o + 4) as int;
            o + 12 + (n + 3) / 4 * 4 + d <= data.len()
        }),
    ensures
        ({
            let n = u32_at(e, data, o) as int;
            let d = u32_at(e, data, o + 4) as int;
            let at = o + 12 + (n + 3) / 4 * 4;
            let owner = data.subrange(o + 12, o + 12 + n);
            let desc = data.subrange(at, at + d);
            lists_from(e, data, o) == (if u32_at(e, data, o + 8) == 0x407c_0c0a && n >= 3
                && owner.take(3) == seq![0x46u8, 0x44u8, 0x4fu8] {
                match utf8_text(desc) {
                    Some(t) => name_lists(trim_nuls(t)),
                    None => Seq::empty(),
                }
            } else {
                Seq::empty()
            }) + lists_from(e, data, at + (d + 3) / 4 * 4)
        }),
{
    let n = u32_at(e, data, o) as int;
    let d = u32_at(e, data, o + 4) as int;
    let at = o + 12 + (n + 3) / 4 * 4;
    let owner = data.subrange(o + 12, o + 12 + n);
    assert(align_four(o + 12 + n) == at);
    assert(align_four(at + d) == at + (d + 3) / 4 * 4);
    if n >= 3 {
        let head = owner.take(3);
        assert(head[0] == owner[0] && head[1] == owner[1] && head[2] == owner[2]);
        if owner[0] == 0x46 && owner[1] == 0x44 && owner[2] == 0x4f {
            assert(head =~= seq![0x46u8, 0x44u8, 0x4fu8]);
        }
    }
}

/// The libraries that a file may load at run time are those that its section of such notes
/// lists.
pub proof fn law_lists_of_file(v: ImageView)
    ensures
        dlopen_lists(v) == match v.find_section(".note.dlopen"@) {
            Some(k) => if v.shdrs[k].sh_type == 7 {
                lists_from(v.enc.endian, v.sections[k], 0)
            } else {
                Seq::empty()
            },
            None => Seq::empty(),
        },
{
}

} // verus!
