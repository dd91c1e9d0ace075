//! An analyzed column: its samples and the rows at which its direction turns.
use vstd::prelude::*;
use crate::bound::{dedup, deduped, lemma_deduped_elements, Bound};
use crate::error::Error;
use crate::inflection::{
    first_unordered, lemma_run_monotonic, lemma_uniform_trend, marks_turns, step, steps_ordered,
    strict, trend, turns_at, well_shaped, window_ordered, windows_ordered,
};
use crate::order::{
    compare, lawful, lemma_chain, lemma_lawful_obeys, obeys_order, order_of, same, Order,
};
use crate::run::{
    accepts, bisect, bounds_at, direction, gathered, leans, lemma_bisect_leading,
    lemma_monotonic_partitioned, lemma_streak_bound, monotonic, monotonic_bounds,
    partition_point, partitioned, run_bounds, run_ordered, singles, streak,
};

verus! {

/// A column of samples with its inflections.
#[derive(Clone, Debug)]
pub struct Column<T> {
    data: Vec<T>,
    inflections: Vec<usize>,
}

impl<T> View for Column<T> {
    type V = Seq<T>;

    /// The samples, row by row.
    closed spec fn view(&self) -> Seq<T> {
        self.data@
    }
}

impl<T> core::ops::Deref for Column<T> {
    type Target = [T];

    /// The samples, row by row.
    fn deref(&self) -> (r: &[T])
        ensures
            r@ == self@,
    {
        self.data.as_slice()
    }
}

impl<T: PartialOrd> Column<T> {
    /// The rows at which a monotonic run ends and the next begins.
    pub closed spec fn inflections(&self) -> Seq<usize> {
        self.inflections@
    }

    /// The column is analyzed: its inflection list has the shape of one, and
    /// where comparisons on `T` are described by [`order_of`], it holds the
    /// inner inflections of the samples, all of which can be ordered against
    /// their neighbours.
    pub open spec fn wf(&self) -> bool {
        &&& well_shaped(self.inflections(), self@.len() as int)
        &&& obeys_order::<T>() ==> marks_turns(self@, self.inflections()) && windows_ordered(self@)
    }

    /// Finds the inflections of `values`: row 0, each inner row at which the
    /// direction turns, and the last row.
    ///
    /// Fails on the first sample with two neighbours that cannot be ordered
    /// against one of them.
    pub fn get_inflections(values: &[T]) -> (r: Result<Vec<usize>, Error>)
        ensures
            match r {
                Ok(ids) => {
                    &&& well_shaped(ids@, values@.len() as int)
                    &&& obeys_order::<T>() ==> marks_turns(values@, ids@) && windows_ordered(values@)
                },
                Err(e) => {
                    &&& e matches Error::NonComparable { position }
                    &&& 1 <= position <= values@.len() - 2
                    &&& obeys_order::<T>() ==> first_unordered(values@, position as int)
                },
            },
    {
        let len = values.len();
        let mut ids: Vec<usize> = Vec::new();
        if len == 0 {
            return Ok(ids);
        }
        ids.push(0);
        if len == 1 {
            return Ok(ids);
        }
        let mut prev: Option<Order> = None;
        let mut m: usize = 1;
        while m < len - 1
            invariant
                len == values@.len(),
                len >= 2,
                1 <= m <= len - 1,
                ids@.len() >= 1,
                ids@[0] == 0,
                forall|i: int, j: int| 0 <= i < j < ids@.len() ==> ids@[i] < ids@[j],
                ids@[ids@.len() - 1] < m,
                obeys_order::<T>() ==> {
                    &&& forall|n: int| 1 <= n < m ==> #[trigger] window_ordered(values@, n)
                    &&& forall|i: int| 0 < i < ids@.len() ==> turns_at(values@, #[trigger] ids@[i] as int)
                    &&& forall|n: int|
                        1 <= n < m && #[trigger] turns_at(values@, n) ==> exists|i: int|
                            0 < i < ids@.len() && ids@[i] == n
                    &&& prev is Some ==> strict(prev) && prev == trend(values@, m as int)
                    &&& prev is None ==> forall|i: int|
                        0 <= i < m ==> #[trigger] step(values@, i) == step(values@, 0)
                },
            decreases len - m,
        {
            let left = compare(&values[m - 1], &values[m]);
            let right = compare(&values[m], &values[m + 1]);
            let ghost before = ids@;
            proof {
                if obeys_order::<T>() {
                    assert(left == step(values@, m - 1));
                    assert(right == step(values@, m as int));
                    if prev is None {
                        lemma_uniform_trend(values@, m as int);
                    }
                    assert(trend(values@, m + 1) == if strict(right) {
                        right
                    } else {
                        trend(values@, m as int)
                    });
                }
            }
            match (left, right) {
                (Some(l), Some(r)) => {
                    match (l, r) {
                        (Order::Greater, Order::Less) | (Order::Less, Order::Greater) => {
                            ids.push(m);
                            prev = Some(r);
                        },
                        (Order::Less, Order::Equal) | (Order::Greater, Order::Equal) => {
                            match prev {
                                Some(p) => {
                                    if l != p {
                                        ids.push(m);
                                        prev = Some(l);
                                    }
                                },
                                None => {
                                    prev = Some(l);
                                },
                            }
                        },
                        (Order::Equal, Order::Less) | (Order::Equal, Order::Greater) => {
                            match prev {
                                Some(p) => {
                                    if r != p {
                                        ids.push(m);
                                        prev = Some(r);
                                    }
                                },
                                None => {
                                    prev = Some(r);
                                },
                            }
                        },
                        _ => {},
                    }
                },
                _ => {
                    proof {
                        if obeys_order::<T>() {
                            assert(!window_ordered(values@, m as int));
                        }
                    }
                    return Err(Error::NonComparable { position: m });
                },
            }
            proof {
                if obeys_order::<T>() {
                    assert(window_ordered(values@, m as int));
                    if ids@.len() > before.len() {
                        assert(ids@ == before.push(m));
                        assert(turns_at(values@, m as int));
                        assert forall|i: int| 0 < i < ids@.len() implies turns_at(
                            values@,
                            #[trigger] ids@[i] as int,
                        ) by {
                            if i < before.len() {
                                assert(ids@[i] == before[i]);
                            }
                        }
                    } else {
                        assert(ids@ == before);
                        assert(!turns_at(values@, m as int));
                    }
                    assert forall|n: int| 1 <= n < m + 1 && #[trigger] turns_at(values@, n) implies exists|
                        i: int,
                    |
                        0 < i < ids@.len() && ids@[i] == n by {
                        if n < m {
                            let i = choose|i: int| 0 < i < before.len() && before[i] == n;
                            assert(ids@[i] == n);
                        } else {
                            assert(ids@[ids@.len() - 1] == n);
                        }
                    }
                }
            }
            m = m + 1;
        }
        let ghost inner = ids@;
        ids.push(len - 1);
        proof {
            if obeys_order::<T>() {
                assert forall|i: int| 0 < i < ids@.len() - 1 implies turns_at(
                    values@,
                    #[trigger] ids@[i] as int,
                ) by {
                    assert(ids@[i] == inner[i]);
                }
                assert forall|n: int| #[trigger] turns_at(values@, n) implies exists|i: int|
                    0 < i < ids@.len() - 1 && ids@[i] == n by {
                    assert(1 <= n < m);
                    let i = choose|i: int| 0 < i < inner.len() && inner[i] == n;
                    assert(ids@[i] == n);
                }
            }
        }
        assert forall|i: int, j: int| 0 <= i < j < ids@.len() implies ids@[i] < ids@[j] by {
            if j < inner.len() {
                assert(inner[i] < inner[j]);
            } else {
                assert(inner[i] <= inner[inner.len() - 1]);
            }
        }
        Ok(ids)
    }

    /// The number of rows.
    pub fn len(&self) -> (r: usize)
        ensures
            r == self@.len(),
    {
        self.data.len()
    }

    /// The samples, row by row.
    pub fn as_slice(&self) -> (r: &[T])
        ensures
            r@ == self@,
    {
        self.data.as_slice()
    }

    /// The inflections, in rising order.
    pub fn inflection_ids(&self) -> (r: &[usize])
        ensures
            r@ == self.inflections(),
    {
        self.inflections.as_slice()
    }

    /// The bounds of `v` in the whole column: those of each run, one run after
    /// the other, without each bound that equals the one before it.
    pub open spec fn bounds_of(&self, v: T) -> Seq<Bound> {
        deduped(gathered(self@, self.inflections(), v, self.inflections().len() - 1))
    }

    /// Run `j` is the first against whose ends `v` cannot be ordered.
    pub open spec fn clashes_at(&self, v: T, j: int) -> bool {
        let ids = self.inflections();
        &&& 0 <= j < ids.len() - 1
        &&& !run_ordered(self@, ids[j] as int, ids[j + 1] as int, v)
        &&& forall|i: int|
            0 <= i < j ==> #[trigger] run_ordered(self@, ids[i] as int, ids[i + 1] as int, v)
    }

    /// The end of run `j` against which `v` cannot be ordered: the first, or else the last.
    pub open spec fn clash_row(&self, v: T, j: int) -> usize {
        let ids = self.inflections();
        if order_of(self@[ids[j] as int], v) is None {
            ids[j]
        } else {
            ids[j + 1]
        }
    }

    /// `v` can be ordered against the ends of every run.
    pub open spec fn orders(&self, v: T) -> bool {
        let ids = self.inflections();
        forall|i: int|
            0 <= i < ids.len() - 1 ==> #[trigger] run_ordered(
                self@,
                ids[i] as int,
                ids[i + 1] as int,
                v,
            )
    }

    /// Finds the bounds of `val` in the monotonic run `vals`, whose first
    /// sample is row `offset` of its column.
    ///
    /// A flat run that matches `val` is matched as a whole, by the range over
    /// it. Any other run is bisected for the samples that come before `val`.
    pub fn get_bounds_of_monotonic(vals: &[T], val: &T, offset: usize) -> (r: Vec<Bound>)
        requires
            vals@.len() > 0,
            offset + vals@.len() <= usize::MAX,
        ensures
            r@.len() > 0,
            forall|i: int|
                0 <= i < r@.len() ==> (#[trigger] r@[i]).inside(
                    offset as int,
                    offset + vals@.len(),
                ),
            obeys_order::<T>() ==> r@ == monotonic_bounds(vals@, *val, offset as int),
    {
        let len = vals.len();
        let dir = compare(&vals[0], &vals[len - 1]);
        let mut bounds: Vec<Bound> = Vec::new();
        if len >= 2 && same(dir, Some(Order::Equal)) && same(
            compare(&vals[0], val),
            Some(Order::Equal),
        ) {
            bounds.push(Bound::Range(offset, offset + len - 1));
            return bounds;
        }
        let k = partition_point(vals, val, dir);
        if k == 0 {
            bounds.push(Bound::Single(offset));
        } else if k == len {
            bounds.push(Bound::Single(offset + len - 1));
        } else if same(compare(&vals[k], val), Some(Order::Equal)) {
            bounds.push(Bound::Single(offset + k));
            let mut i: usize = k + 1;
            loop
                invariant
                    len == vals@.len(),
                    offset + len <= usize::MAX,
                    0 < k < i <= len,
                    bounds@.len() == i - k,
                    forall|n: int|
                        0 <= n < bounds@.len() ==> #[trigger] bounds@[n] == Bound::Single(
                            (offset + k + n) as usize,
                        ),
                    obeys_order::<T>() ==> forall|n: int|
                        k <= n < i ==> order_of(#[trigger] vals@[n], *val) == Some(Order::Equal),
                ensures
                    len == vals@.len(),
                    0 < k < i <= len,
                    bounds@.len() == i - k,
                    forall|n: int|
                        0 <= n < bounds@.len() ==> #[trigger] bounds@[n] == Bound::Single(
                            (offset + k + n) as usize,
                        ),
                    obeys_order::<T>() ==> forall|n: int|
                        k <= n < i ==> order_of(#[trigger] vals@[n], *val) == Some(Order::Equal),
                    obeys_order::<T>() && i < len ==> order_of(vals@[i as int], *val) != Some(
                        Order::Equal,
                    ),
                decreases len - i,
            {
                if i >= len {
                    break ;
                }
                if !same(compare(&vals[i], val), Some(Order::Equal)) {
                    break ;
                }
                bounds.push(Bound::Single(offset + i));
                i = i + 1;
            }
            proof {
                if obeys_order::<T>() {
                    lemma_streak_bound(vals@, *val, Some(Order::Equal), k as int);
                    let n = streak(vals@, *val, Some(Order::Equal), k as int);
                    if k + n < i {
                        assert(order_of(vals@[k + n], *val) == Some(Order::Equal));
                    }
                    if k + n > i {
                        assert(order_of(vals@[i as int], *val) == Some(Order::Equal));
                    }
                    assert(bounds@ =~= singles(offset + k, n));
                }
            }
        } else {
            bounds.push(Bound::Range(offset + k - 1, offset + k));
        }
        proof {
            if obeys_order::<T>() {
                assert(dir == direction(vals@));
                assert(bounds@ =~= bounds_at(vals@, *val, offset as int, k as int));
            }
        }
        bounds
    }

    /// Finds the bounds of `val` in the column: run by run, where `val` lies
    /// between the ends of the run, its bounds in that run; then without each
    /// bound that equals the one before it.
    ///
    /// Fails on the first run against one of whose ends `val` cannot be ordered.
    pub fn get_bounds(&self, val: &T) -> (r: Result<Vec<Bound>, Error>)
        requires
            self.wf(),
        ensures
            match r {
                Ok(bounds) => {
                    &&& forall|i: int|
                        0 <= i < bounds@.len() ==> (#[trigger] bounds@[i]).inside(
                            0,
                            self@.len() as int,
                        )
                    &&& obeys_order::<T>() ==> self.orders(*val)
                    &&& obeys_order::<T>() ==> bounds@ == self.bounds_of(*val)
                },
                Err(e) => {
                    &&& e matches Error::NonComparable { position }
                    &&& position < self@.len()
                    &&& obeys_order::<T>() ==> exists|j: int| #[trigger]
                        self.clashes_at(*val, j) && position == self.clash_row(*val, j)
                },
            },
    {
        let mut all: Vec<Bound> = Vec::new();
        let runs: usize = if self.inflections.len() == 0 {
            0
        } else {
            self.inflections.len() - 1
        };
        let rows = self.data.len();
        let ghost ids = self.inflections();
        let ghost data = self@;
        let mut j: usize = 0;
        while j < runs
            invariant
                self.wf(),
                rows == data.len(),
                ids == self.inflections(),
                data == self@,
                runs == if ids.len() == 0 { 0 } else { ids.len() - 1 },
                j <= runs,
                forall|i: int|
                    0 <= i < all@.len() ==> (#[trigger] all@[i]).inside(0, data.len() as int),
                obeys_order::<T>() ==> forall|i: int|
                    0 <= i < j ==> #[trigger] run_ordered(
                        data,
                        ids[i] as int,
                        ids[i + 1] as int,
                        *val,
                    ),
                obeys_order::<T>() ==> all@ == gathered(data, ids, *val, j as int),
            decreases runs - j,
        {
            let p = self.inflections[j];
            let q = self.inflections[j + 1];
            proof {
                assert(ids[j as int] < ids[j + 1]);
                assert(ids[j + 1] <= ids[ids.len() - 1]) by {
                    if j + 1 < ids.len() - 1 {
                        assert(ids[j + 1] < ids[ids.len() - 1]);
                    }
                }
                assert(p < q < rows);
            }
            let first = compare(&self.data[p], val);
            let last = compare(val, &self.data[q]);
            let ghost before = all@;
            match (first, last) {
                (Some(a), Some(b)) => {
                    let rising = (a == Order::Less || a == Order::Equal) && (b == Order::Less || b
                        == Order::Equal);
                    let falling = (a == Order::Greater || a == Order::Equal) && (b
                        == Order::Greater || b == Order::Equal);
                    if rising || falling {
                        let run = &self.data[p..q + 1];
                        let mut found = Self::get_bounds_of_monotonic(run, val, p);
                        all.append(&mut found);
                    }
                },
                (None, _) => {
                    proof {
                        if obeys_order::<T>() {
                            assert(self.clashes_at(*val, j as int));
                        }
                    }
                    return Err(Error::NonComparable { position: p });
                },
                (_, None) => {
                    proof {
                        if obeys_order::<T>() {
                            assert(self.clashes_at(*val, j as int));
                        }
                    }
                    return Err(Error::NonComparable { position: q });
                },
            }
            proof {
                if obeys_order::<T>() {
                    assert(all@ =~= before + run_bounds(data, p as int, q as int, *val));
                }
            }
            j = j + 1;
        }
        let bounds = dedup(all);
        proof {
            lemma_deduped_elements(all@);
            assert forall|i: int| 0 <= i < bounds@.len() implies (#[trigger] bounds@[i]).inside(
                0,
                self@.len() as int,
            ) by {
                let n = choose|n: int| 0 <= n < all@.len() && all@[n] == bounds@[i];
                assert(all@[n].inside(0, data.len() as int));
            }
        }
        Ok(bounds)
    }

    /// The inflections of a column with rows start at row 0, end at the last
    /// row and rise strictly.
    pub proof fn lemma_inflection_ends(&self)
        requires
            self.wf(),
            self@.len() > 0,
        ensures
            self.inflections().len() > 0,
            self.inflections()[0] == 0,
            self.inflections()[self.inflections().len() - 1] == self@.len() - 1,
            forall|i: int, j: int|
                0 <= i < j < self.inflections().len() ==> self.inflections()[i]
                    < self.inflections()[j],
    {
    }

    /// In a column of another length than two, every sample can be ordered
    /// against the next.
    pub proof fn lemma_steps_ordered(&self)
        requires
            self.wf(),
            obeys_order::<T>(),
            self@.len() != 2,
        ensures
            steps_ordered(self@),
    {
        let data = self@;
        assert forall|i: int| 0 <= i < data.len() - 1 implies (#[trigger] step(data, i)) is Some by {
            if i == 0 {
                assert(window_ordered(data, 1));
            } else {
                assert(window_ordered(data, i));
            }
        }
    }

    /// The rows from one inflection to the next are monotonic: no step among
    /// them rises where another falls.
    pub proof fn lemma_monotonic_runs(&self, k: int)
        requires
            self.wf(),
            obeys_order::<T>(),
            steps_ordered(self@),
            0 <= k < self.inflections().len() - 1,
        ensures
            monotonic(self@, self.inflections()[k] as int, self.inflections()[k + 1] as int),
    {
        lemma_run_monotonic(self@, self.inflections(), k);
    }

    /// In a lawful order, a value that lies between the ends of a run
    /// partitions it: the bisection of the run ends where its leading samples
    /// that come before the value end.
    pub proof fn lemma_accepted_run_partitioned(&self, j: int, v: T)
        requires
            self.wf(),
            lawful::<T>(),
            0 <= j < self.inflections().len() - 1,
            accepts(self@, self.inflections()[j] as int, self.inflections()[j + 1] as int, v),
        ensures
            ({
                let run = self@.subrange(
                    self.inflections()[j] as int,
                    self.inflections()[j + 1] + 1,
                );
                &&& partitioned(run, v, direction(run))
                &&& bisect(run, v, direction(run), 0, run.len() as int) == streak(
                    run,
                    v,
                    direction(run),
                    0,
                )
            }),
    {
        let ids = self.inflections();
        let data = self@;
        let p = ids[j] as int;
        let q = ids[j + 1] as int;
        lemma_lawful_obeys::<T>();
        assert(ids[j] < ids[j + 1]);
        assert(ids[j + 1] <= ids[ids.len() - 1]) by {
            if j + 1 < ids.len() - 1 {
                assert(ids[j + 1] < ids[ids.len() - 1]);
            }
        }
        assert(0 <= ids[0] <= ids[j]) by {
            if 0 < j {
                assert(ids[0] < ids[j]);
            }
        }
        if data.len() != 2 {
            self.lemma_steps_ordered();
        } else {
            assert(p == 0 && q == 1);
            lemma_chain(data[0], v, data[1]);
            assert(step(data, 0) is Some);
        }
        self.lemma_monotonic_runs(j);
        let run = data.subrange(p, q + 1);
        assert forall|d: Order| leans(data, p, q, d) implies leans(run, 0, run.len() - 1, d) by {
            assert forall|i: int| 0 <= i < run.len() - 1 implies #[trigger] order_of(
                run[i],
                run[i + 1],
            ) == Some(d) || order_of(run[i], run[i + 1]) == Some(Order::Equal) by {
                assert(run[i] == data[p + i]);
                assert(run[i + 1] == data[p + i + 1]);
                assert(order_of(data[p + i], data[p + i + 1]) == Some(d) || order_of(
                    data[p + i],
                    data[p + i + 1],
                ) == Some(Order::Equal));
            }
        }
        assert(monotonic(run, 0, run.len() - 1));
        lemma_monotonic_partitioned(run, v);
        lemma_bisect_leading(run, v, direction(run));
    }

    /// Analyzes `values` into a column.
    ///
    /// Fails where [`Column::get_inflections`] does.
    pub fn new(values: Vec<T>) -> (r: Result<Column<T>, Error>)
        ensures
            match r {
                Ok(column) => column@ == values@ && column.wf(),
                Err(e) => {
                    &&& e matches Error::NonComparable { position }
                    &&& 1 <= position <= values@.len() - 2
                    &&& obeys_order::<T>() ==> first_unordered(values@, position as int)
                },
            },
    {
        match Self::get_inflections(values.as_slice()) {
            Ok(inflections) => Ok(Column { data: values, inflections }),
            Err(e) => Err(e),
        }
    }
}

} // verus!
