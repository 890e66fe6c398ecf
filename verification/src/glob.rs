//! Shell-style patterns: `*` stands for any run of characters, `?` for one.
use vstd::prelude::*;

use crate::text::chars_of;

verus! {

/// Whether the pattern `p` matches all of `t`.
pub open spec fn matches_glob(p: Seq<char>, t: Seq<char>) -> bool
    decreases p.len() + t.len(),
{
    if p.len() == 0 {
        t.len() == 0
    } else if p[0] == '*' {
        matches_glob(p.skip(1), t) || (t.len() > 0 && matches_glob(p, t.skip(1)))
    } else {
        t.len() > 0 && (p[0] == '?' || p[0] == t[0]) && matches_glob(p.skip(1), t.skip(1))
    }
}

/// Whether the rest of the pattern from `i` on matches the rest of the text from
/// `j` on, for every `j`, given the answers for the pattern from `i + 1` on.
fn glob_row(p: &Vec<char>, t: &Vec<char>, i: usize, below: &Vec<bool>) -> (row: Vec<bool>)
    requires
        i < p@.len(),
        below@.len() == t@.len() + 1,
        forall|j: int|
            0 <= j <= t@.len() ==> #[trigger] below@[j] == matches_glob(p@.skip(i + 1), t@.skip(j)),
    ensures
        row@.len() == t@.len() + 1,
        forall|j: int|
            0 <= j <= t@.len() ==> #[trigger] row@[j] == matches_glob(p@.skip(i as int), t@.skip(j)),
{
    let ghost rest = p@.skip(i as int);
    let n = t.len();
    let c = p[i];
    let total = below.len();
    let mut back: Vec<bool> = Vec::new();
    let mut left: usize = total;
    assert(rest.skip(1) =~= p@.skip(i + 1));
    while left > 0
        invariant
            i < p@.len(),
            c == p@[i as int],
            n == t@.len(),
            total == n + 1,
            left <= total,
            rest == p@.skip(i as int),
            rest.skip(1) == p@.skip(i + 1),
            below@.len() == total,
            forall|k: int|
                0 <= k <= t@.len() ==> #[trigger] below@[k] == matches_glob(
                    p@.skip(i + 1),
                    t@.skip(k),
                ),
            back@.len() == total - left,
            forall|k: int|
                0 <= k < back@.len() ==> #[trigger] back@[k] == matches_glob(rest, t@.skip(n - k)),
        decreases left,
    {
        let j: usize = left - 1;
        proof {
            if j < n {
                assert(t@.skip(j as int).skip(1) =~= t@.skip(j + 1));
            }
        }
        let hit = if c == '*' {
            below[j] || (j < n && back[n - (j + 1)])
        } else {
            j < n && (c == '?' || c == t[j]) && below[j + 1]
        };
        back.push(hit);
        left -= 1;
    }
    let mut row: Vec<bool> = Vec::new();
    while row.len() < total
        invariant
            n == t@.len(),
            total == n + 1,
            back@.len() == total,
            rest == p@.skip(i as int),
            forall|k: int|
                0 <= k < back@.len() ==> #[trigger] back@[k] == matches_glob(rest, t@.skip(n - k)),
            row@.len() <= total,
            forall|j: int|
                0 <= j < row@.len() ==> #[trigger] row@[j] == matches_glob(rest, t@.skip(j)),
        decreases total - row@.len(),
    {
        let hit = back[n - row.len()];
        row.push(hit);
    }
    row
}

/// Whether `pattern` matches all of `text`.
pub fn glob_match(pattern: &str, text: &str) -> (b: bool)
    ensures
        b == matches_glob(pattern@, text@),
{
    let p = chars_of(pattern);
    let t = chars_of(text);
    let mut row: Vec<bool> = Vec::new();
    let mut j: usize = 0;
    while j < t.len()
        invariant
            p@ == pattern@,
            t@ == text@,
            j <= t@.len(),
            row@.len() == j,
            forall|k: int|
                0 <= k < j ==> #[trigger] row@[k] == matches_glob(
                    p@.skip(p@.len() as int),
                    t@.skip(k),
                ),
        decreases t@.len() - j,
    {
        row.push(false);
        j += 1;
    }
    row.push(true);
    let mut i: usize = p.len();
    while i > 0
        invariant
            p@ == pattern@,
            t@ == text@,
            i <= p@.len(),
            row@.len() == t@.len() + 1,
            forall|k: int|
                0 <= k <= t@.len() ==> #[trigger] row@[k] == matches_glob(
                    p@.skip(i as int),
                    t@.skip(k),
                ),
        decreases i,
    {
        row = glob_row(&p, &t, i - 1, &row);
        i -= 1;
    }
    assert(p@.skip(0) =~= p@);
    assert(t@.skip(0) =~= t@);
    row[0]
}

} // verus!
