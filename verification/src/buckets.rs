//! Grouping numbered items by bucket: the stable order that a hash table with
//! contiguous chains needs.
use vstd::prelude::*;

verus! {

/// The bucket of item `p`.
pub open spec fn bucket(h: Seq<u32>, nb: int, p: int) -> int {
    h[p] as int % nb
}

/// How many of the first `n` items are in bucket `b`.
pub open spec fn members(h: Seq<u32>, nb: int, b: int, n: int) -> int
    decreases n,
{
    if n <= 0 {
        0
    } else {
        members(h, nb, b, n - 1) + if bucket(h, nb, n - 1) == b {
            1int
        } else {
            0
        }
    }
}

/// How many of the first `n` items are in a bucket before `b`.
pub open spec fn below(h: Seq<u32>, nb: int, b: int, n: int) -> int
    decreases b,
{
    if b <= 0 {
        0
    } else {
        below(h, nb, b - 1, n) + members(h, nb, b - 1, n)
    }
}

/// The place of item `p` when the items are grouped by bucket, those of one
/// bucket in the order they had.
pub open spec fn rank(h: Seq<u32>, nb: int, p: int) -> int {
    below(h, nb, bucket(h, nb, p), h.len() as int) + members(h, nb, bucket(h, nb, p), p)
}

/// The item at place `k`.
pub open spec fn item_at(h: Seq<u32>, nb: int, k: int) -> int {
    choose|p: int| 0 <= p < h.len() && #[trigger] rank(h, nb, p) == k
}

proof fn lemma_members(h: Seq<u32>, nb: int, b: int, p: int, q: int)
    requires
        0 <= p <= q,
    ensures
        0 <= members(h, nb, b, p) <= members(h, nb, b, q) <= q,
        p < q && bucket(h, nb, p) == b ==> members(h, nb, b, p) < members(h, nb, b, q),
    decreases q,
{
    if q > 0 {
        lemma_members(h, nb, b, if p < q {
            p
        } else {
            q - 1
        }, q - 1);
        if p == q {
            lemma_members(h, nb, b, q - 1, q - 1);
        }
    }
}

pub proof fn lemma_below(h: Seq<u32>, nb: int, b: int, c: int, n: int)
    requires
        0 <= b <= c,
        0 <= n,
    ensures
        0 <= below(h, nb, b, n) <= below(h, nb, c, n),
        b < c ==> below(h, nb, b, n) + members(h, nb, b, n) <= below(h, nb, c, n),
    decreases c,
{
    if c > 0 {
        lemma_members(h, nb, c - 1, n, n);
        if b < c {
            lemma_below(h, nb, b, c - 1, n);
        } else {
            lemma_below(h, nb, c - 1, c - 1, n);
        }
    }
}

proof fn lemma_below_step(h: Seq<u32>, nb: int, b: int, n: int)
    requires
        0 <= n < h.len(),
        0 < nb,
        0 <= b,
    ensures
        below(h, nb, b, n + 1) == below(h, nb, b, n) + if bucket(h, nb, n) < b {
            1int
        } else {
            0
        },
    decreases b,
{
    if b > 0 {
        lemma_below_step(h, nb, b - 1, n);
        vstd::arithmetic::div_mod::lemma_mod_bound(h[n] as int, nb);
    } else {
        vstd::arithmetic::div_mod::lemma_mod_bound(h[n] as int, nb);
    }
}

/// Every item is in some bucket.
pub proof fn lemma_total(h: Seq<u32>, nb: int, n: int)
    requires
        0 <= n <= h.len(),
        0 < nb,
    ensures
        below(h, nb, nb, n) == n,
    decreases n,
{
    if n > 0 {
        lemma_total(h, nb, n - 1);
        lemma_below_step(h, nb, nb, n - 1);
        vstd::arithmetic::div_mod::lemma_mod_bound(h[n - 1] as int, nb);
    } else {
        lemma_below_zero(h, nb, nb);
    }
}

proof fn lemma_below_zero(h: Seq<u32>, nb: int, b: int)
    requires
        0 <= b,
    ensures
        below(h, nb, b, 0) == 0,
    decreases b,
{
    if b > 0 {
        lemma_below_zero(h, nb, b - 1);
    }
}

/// The place of an item lies in its bucket's group, and in the table.
pub proof fn lemma_rank(h: Seq<u32>, nb: int, p: int)
    requires
        0 <= p < h.len(),
        0 < nb,
    ensures
        0 <= bucket(h, nb, p) < nb,
        0 <= below(h, nb, bucket(h, nb, p), h.len() as int) <= rank(h, nb, p),
        rank(h, nb, p) < below(h, nb, bucket(h, nb, p) + 1, h.len() as int) <= h.len(),
{
    let b = bucket(h, nb, p);
    let n = h.len() as int;
    vstd::arithmetic::div_mod::lemma_mod_bound(h[p] as int, nb);
    lemma_members(h, nb, b, p, n);
    lemma_below(h, nb, b, b + 1, n);
    lemma_below(h, nb, b + 1, nb, n);
    lemma_total(h, nb, n);
}

/// Different items have different places; those of one bucket stay in order, and
/// those of an earlier bucket come first.
pub proof fn lemma_rank_order(h: Seq<u32>, nb: int, p: int, q: int)
    requires
        0 <= p < h.len(),
        0 <= q < h.len(),
        0 < nb,
        bucket(h, nb, p) < bucket(h, nb, q) || bucket(h, nb, p) == bucket(h, nb, q) && p < q,
    ensures
        rank(h, nb, p) < rank(h, nb, q),
{
    lemma_rank(h, nb, p);
    lemma_rank(h, nb, q);
    let n = h.len() as int;
    if bucket(h, nb, p) < bucket(h, nb, q) {
        lemma_below(h, nb, bucket(h, nb, p) + 1, bucket(h, nb, q), n);
    } else {
        lemma_members(h, nb, bucket(h, nb, p), p, q);
    }
}

/// The bucket whose group holds place `k`.
proof fn lemma_group(h: Seq<u32>, nb: int, k: int, c: int) -> (b: int)
    requires
        0 <= k < below(h, nb, c, h.len() as int),
        0 <= c <= nb,
    ensures
        0 <= b < c,
        below(h, nb, b, h.len() as int) <= k < below(h, nb, b + 1, h.len() as int),
    decreases c,
{
    if below(h, nb, c - 1, h.len() as int) <= k {
        c - 1
    } else {
        lemma_group(h, nb, k, c - 1)
    }
}

/// The item of bucket `b` with `m` others of it before.
proof fn lemma_nth(h: Seq<u32>, nb: int, b: int, m: int, n: int) -> (p: int)
    requires
        0 <= m < members(h, nb, b, n),
        0 <= n <= h.len(),
    ensures
        0 <= p < n,
        bucket(h, nb, p) == b,
        members(h, nb, b, p) == m,
    decreases n,
{
    if members(h, nb, b, n - 1) > m {
        lemma_nth(h, nb, b, m, n - 1)
    } else {
        n - 1
    }
}

/// Grouping is a permutation: every place has exactly one item.
pub proof fn lemma_item_at(h: Seq<u32>, nb: int, k: int)
    requires
        0 <= k < h.len(),
        0 < nb,
    ensures
        0 <= item_at(h, nb, k) < h.len(),
        rank(h, nb, item_at(h, nb, k)) == k,
        forall|p: int| 0 <= p < h.len() && #[trigger] rank(h, nb, p) == k ==> p == item_at(
            h,
            nb,
            k,
        ),
{
    let n = h.len() as int;
    lemma_total(h, nb, n);
    let b = lemma_group(h, nb, k, nb);
    let p = lemma_nth(h, nb, b, k - below(h, nb, b, n), n);
    assert(rank(h, nb, p) == k);
    let q = item_at(h, nb, k);
    assert forall|p: int| 0 <= p < h.len() && #[trigger] rank(h, nb, p) == k implies p == q by {
        lemma_same_rank(h, nb, p, q);
    }
}

/// An item is the one at its place.
pub proof fn lemma_item_at_rank(h: Seq<u32>, nb: int, p: int)
    requires
        0 <= p < h.len(),
        0 < nb,
    ensures
        item_at(h, nb, rank(h, nb, p)) == p,
{
    lemma_rank(h, nb, p);
    lemma_item_at(h, nb, rank(h, nb, p));
}

proof fn lemma_same_rank(h: Seq<u32>, nb: int, p: int, q: int)
    requires
        0 <= p < h.len(),
        0 <= q < h.len(),
        0 < nb,
        rank(h, nb, p) == rank(h, nb, q),
    ensures
        p == q,
{
    if p != q {
        if bucket(h, nb, p) < bucket(h, nb, q) || bucket(h, nb, p) == bucket(h, nb, q) && p < q {
            lemma_rank_order(h, nb, p, q);
        } else {
            lemma_rank_order(h, nb, q, p);
        }
    }
}

/// Items grouped by bucket.
pub struct Grouping {
    /// Where each item goes.
    pub old2new: Vec<usize>,
    /// Where each item comes from.
    pub new2old: Vec<usize>,
    /// Where each bucket's group starts.
    pub starts: Vec<usize>,
}

impl Grouping {
    /// Whether this is the grouping of the items with the hashes `h` by `nb` buckets.
    pub open spec fn groups(self, h: Seq<u32>, nb: int) -> bool {
        &&& self.old2new@.len() == h.len()
        &&& forall|p: int|
            0 <= p < h.len() ==> #[trigger] self.old2new@[p] == rank(h, nb, p)
        &&& forall|p: int| 0 <= p < h.len() ==> #[trigger] self.old2new@[p] < h.len()
        &&& self.new2old@.len() == h.len()
        &&& forall|k: int| 0 <= k < h.len() ==> #[trigger] self.new2old@[k] == item_at(h, nb, k)
        &&& forall|k: int| 0 <= k < h.len() ==> #[trigger] self.new2old@[k] < h.len()
        &&& self.starts@.len() == nb
        &&& forall|b: int|
            0 <= b < nb ==> #[trigger] self.starts@[b] == below(h, nb, b, h.len() as int)
    }
}

/// A vector of `n` zeros.
pub fn zero_vec(n: usize) -> (v: Vec<usize>)
    ensures
        v@.len() == n,
        forall|i: int| 0 <= i < n ==> #[trigger] v@[i] == 0,
{
    let mut v: Vec<usize> = Vec::new();
    while v.len() < n
        invariant
            v@.len() <= n,
            forall|i: int| 0 <= i < v@.len() ==> #[trigger] v@[i] == 0,
        decreases n - v@.len(),
    {
        v.push(0);
    }
    v
}

/// How many items each bucket has.
fn count_members(h: &Vec<u32>, nb: usize) -> (counts: Vec<usize>)
    requires
        0 < nb <= u32::MAX,
    ensures
        counts@.len() == nb,
        forall|b: int|
            0 <= b < nb ==> #[trigger] counts@[b] == members(h@, nb as int, b, h@.len() as int),
{
    let mut counts = zero_vec(nb);
    let mut p: usize = 0;
    while p < h.len()
        invariant
            0 < nb <= u32::MAX,
            counts@.len() == nb,
            p <= h@.len(),
            forall|b: int|
                0 <= b < nb ==> #[trigger] counts@[b] == members(h@, nb as int, b, p as int),
        decreases h@.len() - p,
    {
        let b: usize = h[p] as usize % nb;
        assert(b == bucket(h@, nb as int, p as int));
        proof {
            lemma_members(h@, nb as int, b as int, p as int, p as int);
        }
        let c = counts[b];
        counts.set(b, c + 1);
        p += 1;
    }
    counts
}

/// Where each bucket's group starts.
fn group_starts(h: &Vec<u32>, nb: usize) -> (starts: Vec<usize>)
    requires
        0 < nb <= u32::MAX,
    ensures
        starts@.len() == nb,
        forall|b: int|
            0 <= b < nb ==> #[trigger] starts@[b] == below(h@, nb as int, b, h@.len() as int),
{
    let counts = count_members(h, nb);
    let total = h.len();
    let mut starts: Vec<usize> = Vec::new();
    let mut sum: usize = 0;
    proof {
        lemma_total(h@, nb as int, h@.len() as int);
    }
    while starts.len() < nb
        invariant
            total == h@.len(),
            below(h@, nb as int, nb as int, total as int) == total,
            counts@.len() == nb,
            forall|b: int|
                0 <= b < nb ==> #[trigger] counts@[b] == members(
                    h@,
                    nb as int,
                    b,
                    h@.len() as int,
                ),
            starts@.len() <= nb,
            sum == below(h@, nb as int, starts@.len() as int, total as int),
            forall|b: int|
                0 <= b < starts@.len() ==> #[trigger] starts@[b] == below(
                    h@,
                    nb as int,
                    b,
                    h@.len() as int,
                ),
        decreases nb - starts@.len(),
    {
        let b = starts.len();
        proof {
            lemma_below(h@, nb as int, b + 1, nb as int, total as int);
        }
        starts.push(sum);
        sum = sum + counts[b];
    }
    starts
}

/// Group items by bucket, those of one bucket in the order they have.
pub fn group(h: &Vec<u32>, nb: usize) -> (g: Grouping)
    requires
        0 < nb <= u32::MAX,
    ensures
        g.groups(h@, nb as int),
{
    let starts = group_starts(h, nb);
    let total = h.len();
    let mut next: Vec<usize> = Vec::new();
    while next.len() < nb
        invariant
            starts@.len() == nb,
            next@.len() <= nb,
            forall|b: int| 0 <= b < next@.len() ==> #[trigger] next@[b] == starts@[b],
        decreases nb - next@.len(),
    {
        let s = starts[next.len()];
        next.push(s);
    }
    let mut old2new: Vec<usize> = Vec::new();
    let mut new2old = zero_vec(total);
    let mut p: usize = 0;
    while p < h.len()
        invariant
            0 < nb <= u32::MAX,
            total == h@.len(),
            p <= h@.len(),
            next@.len() == nb,
            forall|b: int|
                0 <= b < nb ==> #[trigger] next@[b] == below(h@, nb as int, b, h@.len() as int)
                    + members(h@, nb as int, b, p as int),
            old2new@.len() == p,
            forall|q: int| 0 <= q < p ==> #[trigger] old2new@[q] == rank(h@, nb as int, q),
            new2old@.len() == h@.len(),
            forall|q: int| 0 <= q < p ==> new2old@[#[trigger] rank(h@, nb as int, q)] == q,
        decreases h@.len() - p,
    {
        let b: usize = h[p] as usize % nb;
        assert(b == bucket(h@, nb as int, p as int));
        let k = next[b];
        proof {
            lemma_rank(h@, nb as int, p as int);
            assert(k == rank(h@, nb as int, p as int));
            assert forall|q: int| 0 <= q < p implies #[trigger] rank(h@, nb as int, q) != k by {
                if rank(h@, nb as int, q) == k {
                    lemma_same_rank(h@, nb as int, q, p as int);
                }
            }
            assert forall|q: int| 0 <= q < p implies 0 <= #[trigger] rank(h@, nb as int, q)
                < h@.len() by {
                lemma_rank(h@, nb as int, q);
            }
        }
        old2new.push(k);
        new2old.set(k, p);
        next.set(b, k + 1);
        p += 1;
    }
    proof {
        assert forall|k: int| 0 <= k < h@.len() implies #[trigger] new2old@[k] == item_at(
            h@,
            nb as int,
            k,
        ) by {
            lemma_item_at(h@, nb as int, k);
            assert(new2old@[rank(h@, nb as int, item_at(h@, nb as int, k))] == item_at(
                h@,
                nb as int,
                k,
            ));
        }
        assert forall|b: int| 0 <= b < nb implies #[trigger] starts@[b] == below(
            h@,
            nb as int,
            b,
            h@.len() as int,
        ) by {}
    }
    proof {
        assert forall|p: int| 0 <= p < h@.len() implies #[trigger] old2new@[p] < h@.len() by {
            lemma_rank(h@, nb as int, p);
        }
        assert forall|k: int| 0 <= k < h@.len() implies #[trigger] new2old@[k] < h@.len() by {
            lemma_item_at(h@, nb as int, k);
        }
    }
    Grouping { old2new, new2old, starts }
}

} // verus!
