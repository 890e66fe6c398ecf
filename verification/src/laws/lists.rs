//! Texts that are lists: taken apart and put together.
use vstd::prelude::*;
use vstd::utf8::encode_utf8;

use crate::laws::edits::{lemma_encode_concat, lemma_storable_concat, storable};
use crate::seqs::lemma_filter_push;
use crate::text::{fields, join, nonempty, split};

verus! {

/// Whether a text can be an item of a list with the separator `sep`.
pub open spec fn is_item(t: Seq<char>, sep: char) -> bool {
    t.len() > 0 && !t.contains(sep)
}

/// The last piece of a text that goes on, and those before it.
proof fn lemma_pieces_append(a: Seq<char>, t: Seq<char>, sep: char)
    requires
        !t.contains(sep),
    ensures
        split(a, sep).len() > 0,
        split(a + t, sep) == split(a, sep).drop_last().push(split(a, sep).last() + t),
    decreases t.len(),
{
    lemma_pieces_some(a, sep);
    let head = split(a, sep);
    if t.len() == 0 {
        assert(a + t =~= a);
        assert(head.last() + t =~= head.last());
        assert(head.drop_last().push(head.last()) =~= head);
    } else {
        let u = t.drop_last();
        assert forall|i: int| 0 <= i < u.len() implies u[i] != sep by {
            assert(t[i] == u[i]);
            assert(t.contains(t[i]));
        }
        assert(t.contains(t.last()));
        lemma_pieces_append(a, u, sep);
        assert((a + t).drop_last() =~= a + u);
        assert((a + t).last() == t.last());
        assert((head.last() + u).push(t.last()) =~= head.last() + t);
        assert(split(a + t, sep) =~= head.drop_last().push(head.last() + t));
    }
}

proof fn lemma_pieces_some(a: Seq<char>, sep: char)
    ensures
        split(a, sep).len() > 0,
        forall|i: int|
            0 <= i < split(a, sep).len() ==> !(#[trigger] split(a, sep)[i]).contains(sep),
    decreases a.len(),
{
    if a.len() > 0 {
        lemma_pieces_some(a.drop_last(), sep);
        let head = split(a.drop_last(), sep);
        let all = split(a, sep);
        assert forall|i: int| 0 <= i < all.len() implies !(#[trigger] all[i]).contains(sep) by {
            if a.last() == sep {
                if i < head.len() {
                    assert(all[i] == head[i]);
                }
            } else if i < head.len() - 1 {
                assert(all[i] == head[i]);
            } else {
                let last = head.last();
                assert(!head[head.len() - 1].contains(sep));
                assert forall|j: int| 0 <= j < all[i].len() implies all[i][j] != sep by {
                    if j < last.len() {
                        assert(last.contains(last[j]));
                    }
                }
            }
        }
    }
}

/// A separator and an item behind it add that item.
proof fn lemma_pieces_item(a: Seq<char>, t: Seq<char>, sep: char)
    requires
        !t.contains(sep),
    ensures
        split(a + seq![sep] + t, sep) == split(a, sep).push(t),
{
    let b = a + seq![sep];
    assert(b.drop_last() =~= a);
    assert(b.last() == sep);
    assert(split(b, sep) == split(a, sep).push(Seq::empty()));
    lemma_pieces_append(b, t, sep);
    assert(split(b, sep).drop_last() =~= split(a, sep));
    assert(Seq::<char>::empty() + t =~= t);
}

/// A list that is put together and taken apart again is the list that it was.
pub proof fn law_items_read_back(parts: Seq<Seq<char>>, sep: char)
    requires
        forall|i: int| 0 <= i < parts.len() ==> is_item(#[trigger] parts[i], sep),
    ensures
        fields(join(parts, seq![sep]), sep) == parts,
    decreases parts.len(),
{
    reveal(Seq::filter);
    let p = nonempty();
    if parts.len() == 0 {
        let s = Seq::<char>::empty();
        let none = Seq::<Seq<char>>::empty();
        assert(split(s, sep) =~= none.push(s));
        lemma_filter_push(none, s, p);
        assert(none.filter(p) =~= none);
        assert(fields(s, sep) =~= parts);
    } else {
        let last = parts.last();
        assert(is_item(parts[parts.len() - 1], sep));
        if parts.len() == 1 {
            let e = Seq::<char>::empty();
            lemma_pieces_append(e, last, sep);
            assert(e + last =~= last);
            assert(split(e, sep).drop_last() =~= Seq::empty());
            assert(split(last, sep) =~= Seq::empty().push(last));
            lemma_filter_push(Seq::empty(), last, p);
            assert(fields(last, sep) =~= parts);
        } else {
            let head = parts.drop_last();
            assert forall|i: int| 0 <= i < head.len() implies is_item(#[trigger] head[i], sep) by {
                assert(head[i] == parts[i]);
            }
            law_items_read_back(head, sep);
            let a = join(head, seq![sep]);
            lemma_pieces_item(a, last, sep);
            lemma_filter_push(split(a, sep), last, p);
            assert(head.push(last) =~= parts);
        }
    }
}

/// What a list is taken apart into are items.
pub proof fn law_fields_are_items(s: Seq<char>, sep: char)
    ensures
        forall|i: int| 0 <= i < fields(s, sep).len() ==> is_item(#[trigger] fields(s, sep)[i], sep),
{
    lemma_pieces_some(s, sep);
    let all = split(s, sep);
    assert forall|i: int| 0 <= i < fields(s, sep).len() implies is_item(
        #[trigger] fields(s, sep)[i],
        sep,
    ) by {
        all.lemma_filter_pred(nonempty(), i);
        assert(fields(s, sep).contains(fields(s, sep)[i]));
        all.lemma_filter_contains_rev(nonempty(), fields(s, sep)[i]);
        let k = choose|k: int| 0 <= k < all.len() && all[k] == fields(s, sep)[i];
        assert(!all[k].contains(sep));
    }
}

/// A text that is taken apart, empty pieces and all, and put together is the text that
/// it was.
pub proof fn law_pieces_join(s: Seq<char>, sep: char)
    ensures
        join(split(s, sep), seq![sep]) == s,
    decreases s.len(),
{
    let c = seq![sep];
    if s.len() == 0 {
        assert(s =~= Seq::empty());
        assert(split(s, sep) == seq![Seq::<char>::empty()]);
    } else {
        let t = s.drop_last();
        law_pieces_join(t, sep);
        lemma_pieces_some(t, sep);
        let head = split(t, sep);
        let all = split(s, sep);
        if s.last() == sep {
            assert(all.drop_last() =~= head);
            assert(t + c + Seq::empty() =~= s);
        } else {
            assert(all.drop_last() =~= head.drop_last());
            let j = join(head.drop_last(), c);
            if head.len() > 1 {
                assert(j + c + head.last().push(s.last()) =~= (j + c + head.last()).push(s.last()));
            }
            assert(t.push(s.last()) =~= s);
        }
    }
}

/// What is part of a text that can be stored can be stored.
proof fn lemma_storable_parts(a: Seq<char>, b: Seq<char>)
    requires
        storable(a + b),
    ensures
        storable(a),
        storable(b),
{
    lemma_encode_concat(a, b);
    let (x, y) = (encode_utf8(a), encode_utf8(b));
    let z = encode_utf8(a + b);
    assert forall|i: int| 0 <= i < x.len() implies #[trigger] x[i] != 0 by {
        assert(z[i] == x[i]);
    }
    assert forall|i: int| 0 <= i < y.len() implies #[trigger] y[i] != 0 by {
        assert(z[x.len() + i] == y[i]);
    }
}

/// The pieces of a text that can be stored can be stored.
proof fn lemma_storable_pieces(parts: Seq<Seq<char>>, sep: Seq<char>)
    requires
        storable(join(parts, sep)),
    ensures
        forall|i: int| 0 <= i < parts.len() ==> storable(#[trigger] parts[i]),
    decreases parts.len(),
{
    if parts.len() > 1 {
        let head = join(parts.drop_last(), sep);
        lemma_storable_parts(head + sep, parts.last());
        lemma_storable_parts(head, sep);
        lemma_storable_pieces(parts.drop_last(), sep);
        assert forall|i: int| 0 <= i < parts.len() implies storable(#[trigger] parts[i]) by {
            if i < parts.len() - 1 {
                assert(parts.drop_last()[i] == parts[i]);
            }
        }
    }
}

/// The items of a text that can be stored can be stored.
pub proof fn lemma_storable_fields(s: Seq<char>, sep: char)
    requires
        storable(s),
    ensures
        forall|i: int| 0 <= i < fields(s, sep).len() ==> storable(#[trigger] fields(s, sep)[i]),
{
    law_pieces_join(s, sep);
    let all = split(s, sep);
    lemma_storable_pieces(all, seq![sep]);
    assert forall|i: int| 0 <= i < fields(s, sep).len() implies storable(
        #[trigger] fields(s, sep)[i],
    ) by {
        assert(fields(s, sep).contains(fields(s, sep)[i]));
        all.lemma_filter_contains_rev(nonempty(), fields(s, sep)[i]);
    }
}

/// A list of items that can be stored can be stored.
pub proof fn lemma_storable_join(parts: Seq<Seq<char>>, sep: Seq<char>)
    requires
        storable(sep),
        forall|i: int| 0 <= i < parts.len() ==> storable(#[trigger] parts[i]),
    ensures
        storable(join(parts, sep)),
    decreases parts.len(),
{
    if parts.len() == 0 {
    } else if parts.len() == 1 {
        assert(storable(parts[0]));
    } else {
        assert forall|i: int| 0 <= i < parts.drop_last().len() implies storable(
            #[trigger] parts.drop_last()[i],
        ) by {
            assert(parts.drop_last()[i] == parts[i]);
        }
        lemma_storable_join(parts.drop_last(), sep);
        lemma_storable_concat(join(parts.drop_last(), sep), sep);
        assert(storable(parts[parts.len() - 1]));
        lemma_storable_concat(join(parts.drop_last(), sep) + sep, parts.last());
    }
}

} // verus!
