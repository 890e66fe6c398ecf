//! Searching and overwriting sequences.
use vstd::prelude::*;

verus! {

/// Index of the first element at or after `i` that satisfies `p`.
pub open spec fn first_from<T>(s: Seq<T>, p: spec_fn(T) -> bool, i: int) -> Option<int>
    decreases s.len() - i,
{
    if i < 0 || i >= s.len() {
        None
    } else if p(s[i]) {
        Some(i)
    } else {
        first_from(s, p, i + 1)
    }
}

/// Index of the first element that satisfies `p`.
pub open spec fn first<T>(s: Seq<T>, p: spec_fn(T) -> bool) -> Option<int> {
    first_from(s, p, 0)
}

/// `s` with `b` written over it from position `o` on.
pub open spec fn splice(s: Seq<u8>, o: int, b: Seq<u8>) -> Seq<u8> {
    Seq::new(
        s.len(),
        |i: int|
            if o <= i < o + b.len() {
                b[i - o]
            } else {
                s[i]
            },
    )
}

/// `n` zero bytes.
pub open spec fn zeros(n: int) -> Seq<u8> {
    Seq::new(n as nat, |i: int| 0u8)
}

/// `first_from` finds the least index that satisfies the predicate, and finds
/// one exactly when there is one.
pub proof fn lemma_first_from<T>(s: Seq<T>, p: spec_fn(T) -> bool, i: int)
    requires
        0 <= i,
    ensures
        first_from(s, p, i) matches Some(k) ==> {
            &&& i <= k < s.len()
            &&& p(s[k])
            &&& forall|j: int| i <= j < k ==> !p(#[trigger] s[j])
        },
        first_from(s, p, i) is None ==> forall|j: int| i <= j < s.len() ==> !p(#[trigger] s[j]),
    decreases s.len() - i,
{
    if i < s.len() && !p(s[i]) {
        lemma_first_from(s, p, i + 1);
    }
}

/// An index that satisfies the predicate, with none before it, is the one
/// that `first_from` finds.
pub proof fn lemma_first_is<T>(s: Seq<T>, p: spec_fn(T) -> bool, i: int, k: int)
    requires
        0 <= i <= k < s.len(),
        p(s[k]),
        forall|j: int| i <= j < k ==> !p(#[trigger] s[j]),
    ensures
        first_from(s, p, i) == Some(k),
    decreases k - i,
{
    if i < k {
        assert(!p(s[i]));
        lemma_first_is(s, p, i + 1, k);
    }
}

/// Where nothing satisfies the predicate, `first_from` finds nothing.
pub proof fn lemma_first_none<T>(s: Seq<T>, p: spec_fn(T) -> bool, i: int)
    requires
        0 <= i,
        forall|j: int| i <= j < s.len() ==> !p(#[trigger] s[j]),
    ensures
        first_from(s, p, i) is None,
    decreases s.len() - i,
{
    if i < s.len() {
        assert(!p(s[i]));
        lemma_first_none(s, p, i + 1);
    }
}

/// Filtering a sequence grown by one element.
pub proof fn lemma_filter_push<T>(s: Seq<T>, x: T, p: spec_fn(T) -> bool)
    ensures
        s.push(x).filter(p) == if p(x) {
            s.filter(p).push(x)
        } else {
            s.filter(p)
        },
{
    reveal(Seq::filter);
    assert(s.push(x).drop_last() =~= s);
}

/// One more element of a prefix, filtered.
pub proof fn lemma_filter_take<T>(s: Seq<T>, i: int, p: spec_fn(T) -> bool)
    requires
        0 <= i < s.len(),
    ensures
        s.take(i + 1).filter(p) == if p(s[i]) {
            s.take(i).filter(p).push(s[i])
        } else {
            s.take(i).filter(p)
        },
{
    assert(s.take(i + 1) =~= s.take(i).push(s[i]));
    lemma_filter_push(s.take(i), s[i], p);
}

} // verus!
