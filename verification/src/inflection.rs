//! The inflections of a column: the rows at which its samples turn.
use vstd::prelude::*;
use crate::order::{order_of, Order};
use crate::run::{leans, monotonic};

verus! {

/// The relation of the sample at row `i` to the next one.
pub open spec fn step<T: PartialOrd>(data: Seq<T>, i: int) -> Option<Order> {
    order_of(data[i], data[i + 1])
}

/// A relation that rises or falls.
pub open spec fn strict(o: Option<Order>) -> bool {
    o == Some(Order::Less) || o == Some(Order::Greater)
}

/// The direction in which the samples last moved before row `m`: the relation
/// of the latest step below `m` that is not flat, if there is one.
pub open spec fn trend<T: PartialOrd>(data: Seq<T>, m: int) -> Option<Order>
    decreases m,
{
    if m <= 0 {
        None
    } else if strict(step(data, m - 1)) {
        step(data, m - 1)
    } else {
        trend(data, m - 1)
    }
}

/// Row `m` is an inner inflection: the samples leave it against the direction
/// in which they last moved.
pub open spec fn turns_at<T: PartialOrd>(data: Seq<T>, m: int) -> bool {
    &&& 1 <= m <= data.len() - 2
    &&& strict(step(data, m))
    &&& trend(data, m) is Some
    &&& trend(data, m) != step(data, m)
}

/// The sample at row `m` can be ordered against both of its neighbours.
pub open spec fn window_ordered<T: PartialOrd>(data: Seq<T>, m: int) -> bool {
    step(data, m - 1) is Some && step(data, m) is Some
}

/// Every sample with two neighbours can be ordered against both.
pub open spec fn windows_ordered<T: PartialOrd>(data: Seq<T>) -> bool {
    forall|m: int| 1 <= m <= data.len() - 2 ==> #[trigger] window_ordered(data, m)
}

/// Row `m` is the first whose sample cannot be ordered against a neighbour.
pub open spec fn first_unordered<T: PartialOrd>(data: Seq<T>, m: int) -> bool {
    &&& 1 <= m <= data.len() - 2
    &&& !window_ordered(data, m)
    &&& forall|n: int| 1 <= n < m ==> #[trigger] window_ordered(data, n)
}

/// The shape of an inflection list over `len` rows: empty for no rows, else
/// from row 0 to the last row, strictly increasing.
pub open spec fn well_shaped(ids: Seq<usize>, len: int) -> bool {
    &&& len <= 0 ==> ids.len() == 0
    &&& len > 0 ==> ids.len() > 0 && ids[0] == 0 && ids[ids.len() - 1] == len - 1
    &&& forall|i: int, j: int| 0 <= i < j < ids.len() ==> ids[i] < ids[j]
}

/// Between its two ends, `ids` holds the inner inflections of `data` and no other row.
pub open spec fn marks_turns<T: PartialOrd>(data: Seq<T>, ids: Seq<usize>) -> bool {
    &&& forall|i: int| 0 < i < ids.len() - 1 ==> turns_at(data, #[trigger] ids[i] as int)
    &&& forall|m: int| #[trigger] turns_at(data, m) ==> exists|i: int| 0 < i < ids.len() - 1 && ids[i] == m
}

/// Where no step below `m` differs from the first, the trend at `m` is that
/// step if it rises or falls, and none if it is flat.
pub proof fn lemma_uniform_trend<T: PartialOrd>(data: Seq<T>, m: int)
    requires
        1 <= m,
        forall|i: int| 0 <= i < m ==> #[trigger] step(data, i) == step(data, 0),
    ensures
        trend(data, m) == if strict(step(data, 0)) { step(data, 0) } else { None },
    decreases m,
{
    if m > 1 {
        lemma_uniform_trend(data, m - 1);
    } else {
        assert(trend(data, 0) == None::<Order>);
    }
    assert(step(data, m - 1) == step(data, 0));
}

/// Every sample can be ordered against the next.
pub open spec fn steps_ordered<T: PartialOrd>(data: Seq<T>) -> bool {
    forall|i: int| 0 <= i < data.len() - 1 ==> (#[trigger] step(data, i)) is Some
}

/// Where a step at or after row `a` and before row `b` rises or falls, the
/// trend at `b` is such a step.
pub proof fn lemma_trend_some<T: PartialOrd>(data: Seq<T>, a: int, b: int)
    requires
        0 <= a < b,
        strict(step(data, a)),
    ensures
        strict(trend(data, b)),
        exists|j: int| a <= j < b && #[trigger] step(data, j) == trend(data, b),
    decreases b,
{
    if strict(step(data, b - 1)) {
        assert(step(data, b - 1) == trend(data, b));
    } else {
        lemma_trend_some(data, a, b - 1);
        let j = choose|j: int| a <= j < b - 1 && #[trigger] step(data, j) == trend(data, b - 1);
        assert(step(data, j) == trend(data, b));
    }
}

/// Between a step that rises and one that falls lies an inner inflection.
pub proof fn lemma_turn_between<T: PartialOrd>(data: Seq<T>, a: int, b: int)
    requires
        0 <= a < b <= data.len() - 2,
        strict(step(data, a)),
        strict(step(data, b)),
        step(data, a) != step(data, b),
    ensures
        exists|m: int| a < m <= b && #[trigger] turns_at(data, m),
    decreases b - a,
{
    lemma_trend_some(data, a, b);
    if trend(data, b) != step(data, b) {
        assert(turns_at(data, b));
    } else {
        let j = choose|j: int| a <= j < b && #[trigger] step(data, j) == trend(data, b);
        lemma_turn_between(data, a, j);
        let m = choose|m: int| a < m <= j && #[trigger] turns_at(data, m);
        assert(a < m <= b && turns_at(data, m));
    }
}

/// The rows between two inflections that follow one another are monotonic.
pub proof fn lemma_run_monotonic<T: PartialOrd>(data: Seq<T>, ids: Seq<usize>, k: int)
    requires
        well_shaped(ids, data.len() as int),
        marks_turns(data, ids),
        steps_ordered(data),
        0 <= k < ids.len() - 1,
    ensures
        monotonic(data, ids[k] as int, ids[k + 1] as int),
{
    let p = ids[k] as int;
    let q = ids[k + 1] as int;
    assert(ids[k + 1] <= ids[ids.len() - 1]) by {
        if k + 1 < ids.len() - 1 {
            assert(ids[k + 1] < ids[ids.len() - 1]);
        }
    }
    assert(0 <= ids[0] <= ids[k]) by {
        if 0 < k {
            assert(ids[0] < ids[k]);
        }
    }
    if !leans(data, p, q, Order::Less) && !leans(data, p, q, Order::Greater) {
        let down = choose|i: int|
            p <= i < q && !(#[trigger] order_of(data[i], data[i + 1]) == Some(Order::Less)
                || order_of(data[i], data[i + 1]) == Some(Order::Equal));
        let up = choose|i: int|
            p <= i < q && !(#[trigger] order_of(data[i], data[i + 1]) == Some(Order::Greater)
                || order_of(data[i], data[i + 1]) == Some(Order::Equal));
        assert(step(data, down) is Some);
        assert(step(data, up) is Some);
        assert(step(data, down) == Some(Order::Greater));
        assert(step(data, up) == Some(Order::Less));
        let a = if down < up { down } else { up };
        let b = if down < up { up } else { down };
        lemma_turn_between(data, a, b);
        let m = choose|m: int| a < m <= b && #[trigger] turns_at(data, m);
        let i = choose|i: int| 0 < i < ids.len() - 1 && ids[i] == m;
        if i <= k {
            assert(i == k || ids[i] < ids[k]);
        } else {
            assert(i == k + 1 || ids[k + 1] < ids[i]);
        }
        assert(false);
    }
}

/// Where the samples have moved before row `b`, a step below `b` rises or falls.
pub proof fn lemma_trend_witness<T: PartialOrd>(data: Seq<T>, b: int)
    requires
        trend(data, b) is Some,
    ensures
        exists|j: int| 0 <= j < b && strict(#[trigger] step(data, j)),
    decreases b,
{
    if b > 0 {
        if strict(step(data, b - 1)) {
        } else {
            lemma_trend_witness(data, b - 1);
            let j = choose|j: int| 0 <= j < b - 1 && strict(#[trigger] step(data, j));
            assert(0 <= j < b && strict(step(data, j)));
        }
    }
}

/// Every row but the last lies in a run, at its start or inside it.
pub proof fn lemma_run_of(ids: Seq<usize>, len: int, r: int, upto: int)
    requires
        well_shaped(ids, len),
        0 <= r < len - 1,
        1 <= upto < ids.len(),
        r < ids[upto],
    ensures
        exists|k: int| 0 <= k < ids.len() - 1 && ids[k] <= r < #[trigger] ids[k + 1],
    decreases upto,
{
    if ids[upto - 1] <= r {
        assert(ids[upto - 1] <= r < ids[(upto - 1) + 1]);
    } else {
        lemma_run_of(ids, len, r, upto - 1);
    }
}

} // verus!
