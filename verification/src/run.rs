//! Searching one monotonic run of samples for a value.
use vstd::prelude::*;
use crate::bound::Bound;
use crate::order::{compare, lawful, lemma_chain, obeys_order, order_of, same, Order};

verus! {

/// The number of samples in a row, from index `from` on, whose relation to `v` is `want`.
pub open spec fn streak<T: PartialOrd>(s: Seq<T>, v: T, want: Option<Order>, from: int) -> nat
    decreases s.len() - from,
{
    if 0 <= from < s.len() && order_of(s[from], v) == want {
        1 + streak(s, v, want, from + 1)
    } else {
        0
    }
}

/// Index `k` parts the samples: the one before it, if any, stands to `v` as
/// `dir` says, and the one at it, if any, does not.
pub open spec fn is_boundary<T: PartialOrd>(s: Seq<T>, v: T, dir: Option<Order>, k: int) -> bool {
    &&& 0 <= k <= s.len()
    &&& k > 0 ==> order_of(s[k - 1], v) == dir
    &&& k < s.len() ==> order_of(s[k], v) != dir
}

/// The samples that stand to `v` as `dir` says all come before the others.
pub open spec fn partitioned<T: PartialOrd>(s: Seq<T>, v: T, dir: Option<Order>) -> bool {
    forall|i: int, j: int|
        #![trigger order_of(s[i], v), order_of(s[j], v)]
        0 <= i < j < s.len() && order_of(s[j], v) == dir ==> order_of(s[i], v) == dir
}

/// Every step from row `p` up to row `q` goes in direction `dir` or is flat.
pub open spec fn leans<T: PartialOrd>(s: Seq<T>, p: int, q: int, dir: Order) -> bool {
    forall|i: int|
        p <= i < q ==> #[trigger] order_of(s[i], s[i + 1]) == Some(dir) || order_of(s[i], s[i + 1])
            == Some(Order::Equal)
}

/// The rows from `p` to `q` are monotonic: no step rises where another falls.
pub open spec fn monotonic<T: PartialOrd>(s: Seq<T>, p: int, q: int) -> bool {
    leans(s, p, q, Order::Less) || leans(s, p, q, Order::Greater)
}

/// The single rows `from`, `from + 1`, ..., `count` of them.
pub open spec fn singles(from: int, count: nat) -> Seq<Bound> {
    Seq::new(count, |i: int| Bound::Single((from + i) as usize))
}

/// The bounds of `v` in the run `s`, which starts at row `offset`, where `k`
/// samples come before `v`: the first or the last row where none or all do,
/// every row in a row that equals `v` where the sample at `k` does, and else
/// the two rows around `v`. A sample equals `v` where the order finds the two equal.
pub open spec fn bounds_at<T: PartialOrd>(s: Seq<T>, v: T, offset: int, k: int) -> Seq<Bound> {
    if k == 0 {
        seq![Bound::Single(offset as usize)]
    } else if k == s.len() {
        seq![Bound::Single((offset + s.len() - 1) as usize)]
    } else if order_of(s[k], v) == Some(Order::Equal) {
        singles(offset + k, streak(s, v, Some(Order::Equal), k))
    } else {
        seq![Bound::Range((offset + k - 1) as usize, (offset + k) as usize)]
    }
}

/// The direction of a run: the relation of its first sample to its last.
pub open spec fn direction<T: PartialOrd>(s: Seq<T>) -> Option<Order> {
    order_of(s[0], s[s.len() - 1])
}

/// The run is flat and matches `v`: its first sample equals its last, and `v`.
pub open spec fn flat_match<T: PartialOrd>(s: Seq<T>, v: T) -> bool {
    &&& s.len() >= 2
    &&& direction(s) == Some(Order::Equal)
    &&& order_of(s[0], v) == Some(Order::Equal)
}

/// Where the bisection of the samples from index `lo` up to index `hi` ends:
/// of the two halves the upper one is searched on where the sample in the
/// middle stands to `v` as `dir` says, and else the lower one.
///
/// Among samples that `v` partitions, that is where the samples that stand to
/// `v` as `dir` says end: see [`lemma_bisect_leading`].
pub open spec fn bisect<T: PartialOrd>(s: Seq<T>, v: T, dir: Option<Order>, lo: int, hi: int) -> int
    decreases hi - lo,
{
    if lo >= hi {
        lo
    } else {
        let mid = lo + (hi - lo) / 2;
        if order_of(s[mid], v) == dir {
            bisect(s, v, dir, mid + 1, hi)
        } else {
            bisect(s, v, dir, lo, mid)
        }
    }
}

/// The bounds of `v` in the monotonic run `s`, which starts at row `offset`:
/// the range over the run where the run is flat and matches `v`, and else
/// [`bounds_at`] the number of samples that stand to `v` as the first sample
/// stands to the last, found by bisection.
pub open spec fn monotonic_bounds<T: PartialOrd>(s: Seq<T>, v: T, offset: int) -> Seq<Bound> {
    if flat_match(s, v) {
        seq![Bound::Range(offset as usize, (offset + s.len() - 1) as usize)]
    } else {
        bounds_at(s, v, offset, bisect(s, v, direction(s), 0, s.len() as int))
    }
}

/// A streak ends at the length of the samples at the latest.
pub proof fn lemma_streak_bound<T: PartialOrd>(s: Seq<T>, v: T, want: Option<Order>, from: int)
    requires
        0 <= from <= s.len(),
    ensures
        from + streak(s, v, want, from) <= s.len(),
        forall|i: int| from <= i < from + streak(s, v, want, from) ==> order_of(#[trigger] s[i], v) == want,
        from + streak(s, v, want, from) < s.len() ==> order_of(
            s[from + streak(s, v, want, from)],
            v,
        ) != want,
    decreases s.len() - from,
{
    if from < s.len() && order_of(s[from], v) == want {
        lemma_streak_bound(s, v, want, from + 1);
    }
}

/// In partitioned samples the boundary is where the leading streak ends.
pub proof fn lemma_boundary_is_streak<T: PartialOrd>(s: Seq<T>, v: T, dir: Option<Order>, k: int)
    requires
        partitioned(s, v, dir),
        is_boundary(s, v, dir, k),
    ensures
        streak(s, v, dir, 0) == k,
{
    lemma_streak_bound(s, v, dir, 0);
    let n = streak(s, v, dir, 0) as int;
    if n < k {
        assert(order_of(s[n], v) != dir);
        assert(order_of(s[k - 1], v) == dir);
        if n < k - 1 {
            assert(order_of(s[n], v) == dir);
        }
    } else if n > k {
        assert(order_of(s[k], v) == dir);
    }
}

/// Bisection ends at a boundary between the samples that it started from.
pub proof fn lemma_bisect_boundary<T: PartialOrd>(
    s: Seq<T>,
    v: T,
    dir: Option<Order>,
    lo: int,
    hi: int,
)
    requires
        0 <= lo <= hi <= s.len(),
        lo > 0 ==> order_of(s[lo - 1], v) == dir,
        hi < s.len() ==> order_of(s[hi], v) != dir,
    ensures
        lo <= bisect(s, v, dir, lo, hi) <= hi,
        is_boundary(s, v, dir, bisect(s, v, dir, lo, hi)),
    decreases hi - lo,
{
    if lo < hi {
        let mid = lo + (hi - lo) / 2;
        if order_of(s[mid], v) == dir {
            lemma_bisect_boundary(s, v, dir, mid + 1, hi);
        } else {
            lemma_bisect_boundary(s, v, dir, lo, mid);
        }
    }
}

/// Among samples that `v` partitions, bisection ends where the leading
/// samples that stand to `v` as `dir` says end.
pub proof fn lemma_bisect_leading<T: PartialOrd>(s: Seq<T>, v: T, dir: Option<Order>)
    requires
        partitioned(s, v, dir),
    ensures
        bisect(s, v, dir, 0, s.len() as int) == streak(s, v, dir, 0),
{
    lemma_bisect_boundary(s, v, dir, 0, s.len() as int);
    lemma_boundary_is_streak(s, v, dir, bisect(s, v, dir, 0, s.len() as int));
}

/// Where every step from `p` to `q` leans one way, so does every pair of rows between them.
pub proof fn lemma_leans_pairs<T: PartialOrd>(s: Seq<T>, p: int, q: int, dir: Order, i: int, j: int)
    requires
        lawful::<T>(),
        leans(s, p, q, dir),
        p <= i < j <= q,
    ensures
        order_of(s[i], s[j]) == Some(dir) || order_of(s[i], s[j]) == Some(Order::Equal),
    decreases j - i,
{
    assert(order_of(s[j - 1], s[j - 1 + 1]) == Some(dir) || order_of(s[j - 1], s[j - 1 + 1])
        == Some(Order::Equal));
    if i < j - 1 {
        lemma_leans_pairs(s, p, q, dir, i, j - 1);
        lemma_chain(s[i], s[j - 1], s[j]);
    }
}

/// Where every step from `p` to `q` leans one way and the two ends are equal,
/// every pair of rows between them is equal.
pub proof fn lemma_flat_pairs<T: PartialOrd>(s: Seq<T>, p: int, q: int, dir: Order, i: int, j: int)
    requires
        lawful::<T>(),
        dir != Order::Equal,
        leans(s, p, q, dir),
        p <= i < j <= q,
        order_of(s[p], s[q]) == Some(Order::Equal),
    ensures
        order_of(s[i], s[j]) == Some(Order::Equal),
{
    lemma_leans_pairs(s, p, q, dir, i, j);
    if order_of(s[i], s[j]) == Some(dir) {
        if p < i {
            lemma_leans_pairs(s, p, q, dir, p, i);
            lemma_chain(s[p], s[i], s[j]);
        }
        assert(order_of(s[p], s[j]) == Some(dir));
        if j < q {
            lemma_leans_pairs(s, p, q, dir, j, q);
            lemma_chain(s[p], s[j], s[q]);
        }
        assert(false);
    }
}

/// A monotonic run is partitioned by every value, in the run's direction.
pub proof fn lemma_monotonic_partitioned<T: PartialOrd>(s: Seq<T>, v: T)
    requires
        lawful::<T>(),
        s.len() >= 1,
        monotonic(s, 0, s.len() - 1),
    ensures
        partitioned(s, v, direction(s)),
{
    let last = s.len() - 1;
    let dir = direction(s);
    let way = if leans(s, 0, last, Order::Less) {
        Order::Less
    } else {
        Order::Greater
    };
    assert forall|i: int, j: int|
        #![trigger order_of(s[i], v), order_of(s[j], v)]
        0 <= i < j < s.len() && order_of(s[j], v) == dir implies order_of(s[i], v) == dir by {
        lemma_leans_pairs(s, 0, last, way, 0, last);
        lemma_leans_pairs(s, 0, last, way, i, j);
        if dir == Some(Order::Equal) {
            lemma_flat_pairs(s, 0, last, way, i, j);
        }
        lemma_chain(s[i], s[j], v);
    }
}

/// Where every step from `p` to `q` leans one way, two rows with a step that
/// goes that way between them are apart that way.
pub proof fn lemma_strict_span<T: PartialOrd>(
    s: Seq<T>,
    p: int,
    q: int,
    dir: Order,
    a: int,
    i: int,
    b: int,
)
    requires
        lawful::<T>(),
        dir != Order::Equal,
        leans(s, p, q, dir),
        p <= a <= i < b <= q,
        order_of(s[i], s[i + 1]) == Some(dir),
    ensures
        order_of(s[a], s[b]) == Some(dir),
{
    if a < i {
        lemma_leans_pairs(s, p, q, dir, a, i);
        lemma_chain(s[a], s[i], s[i + 1]);
    }
    assert(order_of(s[a], s[i + 1]) == Some(dir));
    if i + 1 < b {
        lemma_leans_pairs(s, p, q, dir, i + 1, b);
        lemma_chain(s[a], s[i + 1], s[b]);
    }
}

/// The bounds of a sample of a monotonic run that is not flat hold its own
/// row, where the sample is the first of the run or apart from the first.
pub proof fn lemma_run_holds_row<T: PartialOrd>(s: Seq<T>, t: int, offset: int)
    requires
        lawful::<T>(),
        s.len() >= 2,
        monotonic(s, 0, s.len() - 1),
        0 <= t < s.len(),
        order_of(s[t], s[t]) == Some(Order::Equal),
        direction(s) != Some(Order::Equal),
        t > 0 ==> order_of(s[0], s[t]) != Some(Order::Equal),
    ensures
        monotonic_bounds(s, s[t], offset).contains(Bound::Single((offset + t) as usize)),
{
    let last = s.len() - 1;
    let v = s[t];
    let dir = direction(s);
    let way = if leans(s, 0, last, Order::Less) {
        Order::Less
    } else {
        Order::Greater
    };
    lemma_leans_pairs(s, 0, last, way, 0, last);
    lemma_monotonic_partitioned(s, v);
    lemma_bisect_leading(s, v, dir);
    lemma_streak_bound(s, v, dir, 0);
    let k = streak(s, v, dir, 0) as int;
    let found = monotonic_bounds(s, v, offset);
    assert(dir == Some(way));
    assert(order_of(s[t], v) != dir);
    if k > t {
        assert(order_of(s[t], v) == dir);
    }
    assert(k <= t);
    if t > 0 {
        lemma_leans_pairs(s, 0, last, way, 0, t);
        assert(order_of(s[0], v) == dir);
        if k == 0 {
            assert(order_of(s[0], v) != dir);
        }
        assert(k > 0);
    }
    if k == 0 {
        assert(found[0] == Bound::Single((offset + t) as usize));
    } else {
        assert forall|i: int| k <= i <= t implies order_of(#[trigger] s[i], v) == Some(
            Order::Equal,
        ) by {
            if i < t {
                lemma_leans_pairs(s, 0, last, way, i, t);
                if order_of(s[i], v) == dir {
                    if k < i {
                        assert(order_of(s[k], v) == dir);
                    }
                    assert(false);
                }
            }
        }
        lemma_streak_bound(s, v, Some(Order::Equal), k);
        let e = streak(s, v, Some(Order::Equal), k) as int;
        if k + e <= t {
            assert(order_of(s[k + e], v) != Some(Order::Equal));
            assert(false);
        }
        assert(found == singles(offset + k, e as nat));
        assert(found[t - k] == Bound::Single((offset + t) as usize));
    }
}

/// Finds where the samples that stand to `val` as `dir` says end, by bisection.
///
/// Among samples that `val` partitions, that is the number of such samples.
pub fn partition_point<T: PartialOrd>(vals: &[T], val: &T, dir: Option<Order>) -> (k: usize)
    ensures
        k <= vals@.len(),
        obeys_order::<T>() ==> k == bisect(vals@, *val, dir, 0, vals@.len() as int),
        obeys_order::<T>() && partitioned(vals@, *val, dir) ==> k == streak(vals@, *val, dir, 0),
{
    let mut lo: usize = 0;
    let mut hi: usize = vals.len();
    while lo < hi
        invariant
            lo <= hi <= vals@.len(),
            obeys_order::<T>() ==> bisect(vals@, *val, dir, lo as int, hi as int) == bisect(
                vals@,
                *val,
                dir,
                0,
                vals@.len() as int,
            ),
        decreases hi - lo,
    {
        let mid: usize = lo + (hi - lo) / 2;
        if same(compare(&vals[mid], val), dir) {
            lo = mid + 1;
        } else {
            hi = mid;
        }
    }
    proof {
        if obeys_order::<T>() && partitioned(vals@, *val, dir) {
            lemma_bisect_leading(vals@, *val, dir);
        }
    }
    lo
}

/// Whether `v` can be ordered against both ends of the run from row `p` to row `q`.
pub open spec fn run_ordered<T: PartialOrd>(data: Seq<T>, p: int, q: int, v: T) -> bool {
    order_of(data[p], v) is Some && order_of(v, data[q]) is Some
}

/// Whether `v` lies between the two ends of the run from row `p` to row `q`,
/// whichever of them is the greater.
pub open spec fn accepts<T: PartialOrd>(data: Seq<T>, p: int, q: int, v: T) -> bool {
    let a = order_of(data[p], v);
    let b = order_of(v, data[q]);
    ||| (a == Some(Order::Less) || a == Some(Order::Equal)) && (b == Some(Order::Less) || b
        == Some(Order::Equal))
    ||| (a == Some(Order::Greater) || a == Some(Order::Equal)) && (b == Some(Order::Greater) || b
        == Some(Order::Equal))
}

/// The bounds of `v` in the run from row `p` to row `q`: none unless `v` lies
/// between its ends.
pub open spec fn run_bounds<T: PartialOrd>(data: Seq<T>, p: int, q: int, v: T) -> Seq<Bound> {
    if accepts(data, p, q, v) {
        monotonic_bounds(data.subrange(p, q + 1), v, p)
    } else {
        Seq::empty()
    }
}

/// The bounds of `v` in the first `n` runs, one run after the other.
pub open spec fn gathered<T: PartialOrd>(data: Seq<T>, ids: Seq<usize>, v: T, n: int) -> Seq<Bound>
    decreases n,
{
    if n <= 0 {
        Seq::empty()
    } else {
        gathered(data, ids, v, n - 1) + run_bounds(data, ids[n - 1] as int, ids[n] as int, v)
    }
}

/// What the bounds of a run hold, the bounds gathered from it and further runs hold.
pub proof fn lemma_gathered_holds<T: PartialOrd>(
    data: Seq<T>,
    ids: Seq<usize>,
    v: T,
    k: int,
    n: int,
    b: Bound,
)
    requires
        0 <= k < n,
        run_bounds(data, ids[k] as int, ids[k + 1] as int, v).contains(b),
    ensures
        gathered(data, ids, v, n).contains(b),
    decreases n,
{
    let head = gathered(data, ids, v, n - 1);
    let tail = run_bounds(data, ids[n - 1] as int, ids[n] as int, v);
    if k == n - 1 {
        let i = choose|i: int| 0 <= i < tail.len() && tail[i] == b;
        assert((head + tail)[head.len() + i] == b);
    } else {
        lemma_gathered_holds(data, ids, v, k, n - 1, b);
        let i = choose|i: int| 0 <= i < head.len() && head[i] == b;
        assert((head + tail)[i] == b);
    }
}

} // verus!
