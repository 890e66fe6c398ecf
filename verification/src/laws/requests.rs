//! What holds of requests: the command line, patterns, and lists of directories.
use vstd::prelude::*;

use crate::autoformatelf::distinct;
use crate::cli::{parse_step, parsed_from, ArgsView, AtFileView, ParsedView, Step};
use crate::glob::matches_glob;
use crate::lex::LexState;

verus! {

/// Whether `a` is the beginning of `b`.
pub open spec fn begins<T>(a: Seq<T>, b: Seq<T>) -> bool {
    a.len() <= b.len() && b.take(a.len() as int) == a
}

/// A step of parsing adds at most one operation, behind the others, and at most
/// one file.
proof fn lemma_step_adds(s: LexState, a: ArgsView, files: Seq<AtFileView>)
    ensures
        parse_step(s, a, files) matches Step::More(_, b) ==> begins(a.ops, b.ops) && begins(
            a.files,
            b.files,
        ),
{
    if let Step::More(_, b) = parse_step(s, a, files) {
        assert(b.ops.take(a.ops.len() as int) =~= a.ops);
        assert(b.files.take(a.files.len() as int) =~= a.files);
    }
}

/// Operations and files are performed in the order in which the command line gives
/// them: what was read first stays first.
pub proof fn law_order_is_kept(s: LexState, a: ArgsView, files: Seq<AtFileView>)
    ensures
        parsed_from(s, a, files) matches Ok(ParsedView::Run(b)) ==> begins(a.ops, b.ops) && begins(
            a.files,
            b.files,
        ),
    decreases s.unread.len(),
{
    crate::cli::lemma_parse_step(s, a, files);
    lemma_step_adds(s, a, files);
    match parse_step(s, a, files) {
        Step::More(t, b) => {
            law_order_is_kept(t, b, files);
            if let Ok(ParsedView::Run(c)) = parsed_from(s, a, files) {
                assert(c.ops.take(a.ops.len() as int) =~= c.ops.take(b.ops.len() as int).take(
                    a.ops.len() as int,
                ));
                assert(c.files.take(a.files.len() as int) =~= c.files.take(
                    b.files.len() as int,
                ).take(a.files.len() as int));
            }
        },
        Step::Done(_) => {
            assert(a.ops.take(a.ops.len() as int) =~= a.ops);
            assert(a.files.take(a.files.len() as int) =~= a.files);
        },
    }
}

/// A pattern without wildcards matches itself and nothing else.
pub proof fn law_glob_literal(p: Seq<char>, t: Seq<char>)
    requires
        forall|i: int| 0 <= i < p.len() ==> #[trigger] p[i] != '*' && p[i] != '?',
    ensures
        matches_glob(p, t) <==> p == t,
    decreases p.len(),
{
    if p.len() > 0 {
        assert(p[0] != '*' && p[0] != '?');
        let q = p.skip(1);
        assert forall|i: int| 0 <= i < q.len() implies #[trigger] q[i] != '*' && q[i] != '?' by {
            assert(q[i] == p[i + 1]);
        }
        if t.len() > 0 {
            law_glob_literal(q, t.skip(1));
            if q == t.skip(1) && p[0] == t[0] {
                assert forall|i: int| 0 <= i < p.len() implies p[i] == t[i] by {
                    if i > 0 {
                        assert(q[i - 1] == t.skip(1)[i - 1]);
                    }
                }
                assert(p =~= t);
            }
        }
    } else {
        assert(t.len() == 0 ==> p =~= t);
    }
}

/// A star at the end of a pattern matches whatever follows.
pub proof fn law_glob_star(p: Seq<char>, t: Seq<char>, rest: Seq<char>)
    requires
        forall|i: int| 0 <= i < p.len() ==> #[trigger] p[i] != '*' && p[i] != '?',
        p == t,
    ensures
        matches_glob(p.push('*'), t + rest),
    decreases p.len(),
{
    let q = p.push('*');
    if p.len() == 0 {
        assert(t + rest =~= rest);
        lemma_star(rest);
        assert(q =~= seq!['*']);
    } else {
        assert(p[0] != '*');
        let a = p.skip(1);
        assert forall|i: int| 0 <= i < a.len() implies #[trigger] a[i] != '*' && a[i] != '?' by {
            assert(a[i] == p[i + 1]);
        }
        law_glob_star(a, t.skip(1), rest);
        assert(q.skip(1) =~= a.push('*'));
        assert((t + rest).skip(1) =~= t.skip(1) + rest);
    }
}

proof fn lemma_star(t: Seq<char>)
    ensures
        matches_glob(seq!['*'], t),
    decreases t.len(),
{
    let s = seq!['*'];
    assert(s.skip(1).len() == 0);
    if t.len() > 0 {
        lemma_star(t.skip(1));
    } else {
        assert(matches_glob(s.skip(1), t));
    }
}

/// A list without repetitions has the texts of the list that it was made from,
/// each of them once.
pub proof fn law_distinct(v: Seq<Seq<char>>)
    ensures
        forall|x: Seq<char>| #[trigger] distinct(v).contains(x) <==> v.contains(x),
        forall|i: int, j: int|
            0 <= i < j < distinct(v).len() ==> #[trigger] distinct(v)[i]
                != #[trigger] distinct(v)[j],
    decreases v.len(),
{
    if v.len() > 0 {
        let t = v.drop_last();
        let d = distinct(t);
        law_distinct(t);
        assert forall|x: Seq<char>| #[trigger] distinct(v).contains(x) <==> v.contains(x) by {
            if v.contains(x) {
                let i = choose|i: int| 0 <= i < v.len() && v[i] == x;
                if i < t.len() {
                    assert(t[i] == x);
                    assert(t.contains(x));
                    assert(d.contains(x));
                    let j = choose|j: int| 0 <= j < d.len() && d[j] == x;
                    assert(distinct(v)[j] == x);
                } else if !d.contains(x) {
                    assert(distinct(v)[d.len() as int] == x);
                }
            }
            if distinct(v).contains(x) {
                let j = choose|j: int| 0 <= j < distinct(v).len() && distinct(v)[j] == x;
                if j < d.len() {
                    assert(d[j] == x);
                    assert(d.contains(x));
                    let i = choose|i: int| 0 <= i < t.len() && t[i] == x;
                    assert(v[i] == x);
                } else {
                    assert(v[v.len() - 1] == x);
                }
            }
        }
        assert forall|i: int, j: int| 0 <= i < j < distinct(v).len() implies #[trigger] distinct(
            v,
        )[i] != #[trigger] distinct(v)[j] by {
            if j < d.len() {
                assert(d[i] != d[j]);
            } else {
                assert(distinct(v)[i] == d[i]);
            }
        }
    }
}

/// What comes more than once is kept where it comes first, and the order stays. Gives the
/// places of what is kept.
pub proof fn law_distinct_keeps_the_first(v: Seq<Seq<char>>) -> (at: Seq<int>)
    ensures
        at.len() == distinct(v).len(),
        forall|i: int, j: int| 0 <= i < j < at.len() ==> #[trigger] at[i] < #[trigger] at[j],
        forall|i: int|
            0 <= i < at.len() ==> 0 <= #[trigger] at[i] < v.len() && v[at[i]] == distinct(v)[i],
        forall|i: int, j: int|
            0 <= i < at.len() && 0 <= j < at[i] ==> #[trigger] v[j] != v[#[trigger] at[i]],
    decreases v.len(),
{
    if v.len() == 0 {
        Seq::empty()
    } else {
        let u = v.drop_last();
        let before = law_distinct_keeps_the_first(u);
        law_distinct(u);
        let d = distinct(u);
        let n = v.len() - 1;
        if d.contains(v.last()) {
            assert forall|i: int, j: int| 0 <= i < before.len() && 0 <= j < before[i] implies
                #[trigger] v[j] != v[#[trigger] before[i]] by {
                assert(u[j] == v[j] && u[before[i]] == v[before[i]]);
            }
            before
        } else {
            let at = before.push(n);
            assert forall|i: int, j: int| 0 <= i < at.len() && 0 <= j < at[i] implies
                #[trigger] v[j] != v[#[trigger] at[i]] by {
                assert(u[j] == v[j]);
                if i < before.len() {
                    assert(at[i] == before[i]);
                    assert(u[before[i]] == v[before[i]]);
                } else {
                    assert(u.contains(u[j]));
                }
            }
            at
        }
    }
}

/// What a pattern matches, by its first character: an empty one the empty text; a star
/// any run of characters; a question mark any one character; any other character itself.
pub proof fn law_glob_meaning(p: Seq<char>, t: Seq<char>)
    ensures
        matches_glob(Seq::empty(), t) <==> t.len() == 0,
        matches_glob(seq!['*'] + p, t) <==> exists|k: int|
            0 <= k <= t.len() && matches_glob(p, #[trigger] t.skip(k)),
        matches_glob(seq!['?'] + p, t) <==> t.len() > 0 && matches_glob(p, t.skip(1)),
        forall|c: char|
            c != '*' && c != '?' ==> (#[trigger] matches_glob(seq![c] + p, t) <==> t.len() > 0
                && t[0] == c && matches_glob(p, t.skip(1))),
{
    lemma_star_any(p, t);
    assert((seq!['?'] + p).skip(1) =~= p);
    assert forall|c: char| c != '*' && c != '?' implies (#[trigger] matches_glob(seq![c] + p, t)
        <==> t.len() > 0 && t[0] == c && matches_glob(p, t.skip(1))) by {
        assert((seq![c] + p).skip(1) =~= p);
    }
}

proof fn lemma_star_any(p: Seq<char>, t: Seq<char>)
    ensures
        matches_glob(seq!['*'] + p, t) <==> exists|k: int|
            0 <= k <= t.len() && matches_glob(p, #[trigger] t.skip(k)),
    decreases t.len(),
{
    let q = seq!['*'] + p;
    assert(q.skip(1) =~= p);
    assert(t.skip(0) =~= t);
    if t.len() > 0 {
        let u = t.skip(1);
        lemma_star_any(p, u);
        if matches_glob(q, u) {
            let k = choose|k: int| 0 <= k <= u.len() && matches_glob(p, #[trigger] u.skip(k));
            assert(u.skip(k) =~= t.skip(k + 1));
        }
        if exists|k: int| 0 <= k <= t.len() && matches_glob(p, #[trigger] t.skip(k)) {
            let k = choose|k: int| 0 <= k <= t.len() && matches_glob(p, #[trigger] t.skip(k));
            if k > 0 {
                assert(u.skip(k - 1) =~= t.skip(k));
                assert(matches_glob(p, u.skip(k - 1)));
            }
        }
    }
}

} // verus!
