//! Asking a table for one of its own rows gives that row back.
use vstd::prelude::*;
use crate::bound::{deduped, lemma_deduped_elements, lemma_product_holds, Bound};
use crate::column::Column;
use crate::inflection::{
    lemma_run_monotonic, lemma_run_of, lemma_trend_some, lemma_trend_witness, step,
    steps_ordered, strict, trend, turns_at,
};
use crate::order::{lawful, lemma_lawful_obeys, lemma_reflexive, order_of, Order};
use crate::run::{
    accepts, gathered, leans, lemma_gathered_holds, lemma_leans_pairs, lemma_run_holds_row,
    lemma_strict_span, run_bounds,
};
use crate::scalar::Scalar;
use crate::table::Table;

verus! {

impl<T: PartialOrd> Column<T> {
    /// The column is flat: it has two rows or more, and each sample equals the next.
    pub open spec fn is_flat(&self) -> bool {
        let data = self@;
        &&& data.len() >= 2
        &&& steps_ordered(data)
        &&& trend(data, data.len() - 1) is None
    }

    /// The column finds row `r` again by its sample: the samples can be
    /// ordered each against the next and move somewhere, and the row is the
    /// first or the last one, or the samples have moved before it.
    ///
    /// The rows left out are those of the flat stretch with which a column
    /// begins, but for row 0.
    pub open spec fn pins(&self, r: int) -> bool {
        let data = self@;
        &&& data.len() >= 2
        &&& steps_ordered(data)
        &&& trend(data, data.len() - 1) is Some
        &&& 0 <= r < data.len()
        &&& {
            ||| r == 0
            ||| r == data.len() - 1
            ||| trend(data, r) is Some
        }
    }

    /// The bounds of the sample at a row that the column pins hold that row.
    pub proof fn lemma_pinned_row(&self, r: int)
        requires
            self.wf(),
            lawful::<T>(),
            self.pins(r),
        ensures
            self.bounds_of(self@[r]).contains(Bound::Single(r as usize)),
    {
        let data = self@;
        let ids = self.inflections();
        let v = data[r];
        let len = data.len() as int;
        lemma_lawful_obeys::<T>();
        // The run to look in: the last one for the last row, and else the one
        // that the row starts or lies inside.
        let k = if r == len - 1 {
            ids.len() - 2
        } else {
            lemma_run_of(ids, len, r, ids.len() - 1);
            choose|k: int| 0 <= k < ids.len() - 1 && ids[k] <= r < #[trigger] ids[k + 1]
        };
        assert(ids.len() >= 2) by {
            if ids.len() < 2 {
                assert(ids[0] == 0 && ids[ids.len() - 1] == len - 1);
            }
        }
        let p = ids[k] as int;
        let q = ids[k + 1] as int;
        assert(ids[k] < ids[k + 1]);
        assert(ids[k + 1] <= ids[ids.len() - 1]) by {
            if k + 1 < ids.len() - 1 {
                assert(ids[k + 1] < ids[ids.len() - 1]);
            }
        }
        assert(0 <= ids[0] <= ids[k]) by {
            if 0 < k {
                assert(ids[0] < ids[k]);
            }
        }
        assert(p <= r <= q < len);
        lemma_run_monotonic(data, ids, k);
        let way = if leans(data, p, q, Order::Less) {
            Order::Less
        } else {
            Order::Greater
        };
        // The sample equals itself.
        if r < len - 1 {
            assert(step(data, r) is Some);
            lemma_reflexive(data[r], data[r + 1]);
        } else {
            assert(step(data, r - 1) is Some);
            lemma_reflexive(data[r - 1], data[r]);
        }
        // It lies between the ends of the run.
        if p < r {
            lemma_leans_pairs(data, p, q, way, p, r);
        }
        if r < q {
            lemma_leans_pairs(data, p, q, way, r, q);
        }
        assert(accepts(data, p, q, v));
        // The run is not flat, and the row is its first or apart from its first.
        if k > 0 {
            assert(turns_at(data, ids[k] as int));
            assert(step(data, p) == Some(way));
            lemma_strict_span(data, p, q, way, p, p, q);
            if p < r {
                lemma_strict_span(data, p, q, way, p, p, r);
            }
        } else {
            if q < len - 1 {
                assert(turns_at(data, ids[1] as int));
            }
            lemma_trend_witness(data, q);
            let j = choose|j: int| 0 <= j < q && strict(#[trigger] step(data, j));
            assert(step(data, j) == Some(way));
            lemma_strict_span(data, p, q, way, p, j, q);
            if p < r < q {
                lemma_trend_witness(data, r);
                let i = choose|i: int| 0 <= i < r && strict(#[trigger] step(data, i));
                assert(step(data, i) == Some(way));
                lemma_strict_span(data, p, q, way, p, i, r);
            }
        }
        assert(order_of(data[p], data[q]) == Some(way));
        let run = data.subrange(p, q + 1);
        assert forall|d: Order| leans(data, p, q, d) implies leans(run, 0, run.len() - 1, d) by {
            assert forall|i: int| 0 <= i < run.len() - 1 implies #[trigger] order_of(
                run[i],
                run[i + 1],
            ) == Some(d) || order_of(run[i], run[i + 1]) == Some(Order::Equal) by {
                assert(run[i] == data[p + i]);
                assert(run[i + 1] == data[p + i + 1]);
                assert(order_of(data[p + i], data[p + i + 1]) == Some(d) || order_of(
                    data[p + i],
                    data[p + i + 1],
                ) == Some(Order::Equal));
            }
        }
        assert(run[r - p] == v);
        assert(run[0] == data[p]);
        assert(run[run.len() - 1] == data[q]);
        lemma_run_holds_row(run, r - p, p);
        let found = run_bounds(data, p, q, v);
        assert(found.contains(Bound::Single(r as usize)));
        lemma_gathered_holds(data, ids, v, k, ids.len() - 1, Bound::Single(r as usize));
        lemma_deduped_elements(gathered(data, ids, v, ids.len() - 1));
    }

    /// The sample at any row of a flat column is matched by the range over all rows.
    pub proof fn lemma_flat_rows(&self, r: int)
        requires
            self.wf(),
            lawful::<T>(),
            self.is_flat(),
            0 <= r < self@.len(),
        ensures
            self.bounds_of(self@[r]) == seq![Bound::Range(0, (self@.len() - 1) as usize)],
    {
        let data = self@;
        let ids = self.inflections();
        let v = data[r];
        let last = data.len() - 1;
        lemma_lawful_obeys::<T>();
        // No step rises or falls, so every step is flat.
        assert forall|i: int| 0 <= i < last implies #[trigger] order_of(data[i], data[i + 1])
            == Some(Order::Equal) by {
            assert(step(data, i) is Some);
            if strict(step(data, i)) {
                lemma_trend_some(data, i, last);
            }
        }
        assert(leans(data, 0, last, Order::Less));
        assert(leans(data, 0, last, Order::Greater));
        // There is one run, from the first row to the last.
        assert(ids.len() == 2) by {
            if ids.len() < 2 {
                assert(ids[0] == 0 && ids[ids.len() - 1] == last);
            }
            if ids.len() > 2 {
                assert(turns_at(data, ids[1] as int));
                assert(ids[1] < ids[ids.len() - 1]);
            }
        }
        // Every sample equals every other, and itself.
        lemma_leans_pairs(data, 0, last, Order::Less, 0, last);
        lemma_leans_pairs(data, 0, last, Order::Greater, 0, last);
        lemma_reflexive(data[0], data[last]);
        if 0 < r {
            lemma_leans_pairs(data, 0, last, Order::Less, 0, r);
            lemma_leans_pairs(data, 0, last, Order::Greater, 0, r);
        }
        if r < last {
            lemma_leans_pairs(data, 0, last, Order::Less, r, last);
            lemma_leans_pairs(data, 0, last, Order::Greater, r, last);
        }
        assert(order_of(data[0], v) == Some(Order::Equal));
        assert(order_of(v, data[last]) == Some(Order::Equal));
        assert(accepts(data, 0, last, v));
        let run = data.subrange(0, last + 1);
        assert(run =~= data);
        let all = seq![Bound::Range(0, last as usize)];
        assert(run_bounds(data, 0, last, v) == all);
        assert(gathered(data, ids, v, 0) =~= Seq::<Bound>::empty());
        assert(gathered(data, ids, v, 1) =~= all);
        assert(deduped(all) == all);
    }
}

impl<T: Scalar> Table<T> {
    /// The query asks for row `r`: it has no more slots than the table has
    /// columns, each value that it holds is the sample at row `r` of its
    /// column, which pins the row or is flat, and at least one value is in a
    /// column that pins the row.
    pub open spec fn asks_for(&self, query: Seq<Option<T>>, r: int) -> bool {
        &&& 0 <= r < self.rows()
        &&& query.len() <= self.width()
        &&& exists|j: int|
            0 <= j < query.len() && (#[trigger] query[j]) is Some && self.column(j).pins(r)
        &&& forall|j: int|
            0 <= j < query.len() && (#[trigger] query[j]) is Some ==> {
                &&& query[j] == Some(self@[j][r])
                &&& self.column(j).pins(r) || self.column(j).is_flat()
            }
    }

    /// What the first `n` slots of a query for row `r` leave holds row `r`
    /// once a slot has held a value in a column that pins the row, and before
    /// that all rows.
    pub proof fn lemma_narrowed_holds(&self, query: Seq<Option<T>>, r: int, n: int)
        requires
            self.wf(),
            lawful::<T>(),
            self.asks_for(query, r),
            0 <= n <= query.len(),
        ensures
            self.narrowed(query, n) matches Some(bounds) ==> bounds.contains(
                Bound::Single(r as usize),
            ) || bounds.contains(Bound::Range(0, (self.rows() - 1) as usize)),
            forall|j: int|
                0 <= j < n && (#[trigger] query[j]) is Some && self.column(j).pins(r) ==> {
                    &&& self.narrowed(query, n) is Some
                    &&& self.narrowed(query, n)->0.contains(Bound::Single(r as usize))
                },
        decreases n,
    {
        if n > 0 {
            self.lemma_narrowed_holds(query, r, n - 1);
            let row = Bound::Single(r as usize);
            let all = Bound::Range(0, (self.rows() - 1) as usize);
            if let Some(v) = query[n - 1] {
                let column = self.column(n - 1);
                let list = column.bounds_of(v);
                assert(column.wf());
                assert(column@ == self@[n - 1]);
                let held = if column.pins(r) {
                    column.lemma_pinned_row(r);
                    row
                } else {
                    column.lemma_flat_rows(r);
                    assert(list[0] == all);
                    all
                };
                assert(list.contains(held));
                if let Some(acc) = self.narrowed(query, n - 1) {
                    let kept = if acc.contains(row) {
                        row
                    } else {
                        all
                    };
                    lemma_product_holds(acc, list, kept, held);
                }
            }
        }
    }

    /// A query for one of the rows of the table is answered with that row
    /// among the rows returned.
    pub proof fn lemma_exact_row(&self, query: Seq<Option<T>>, r: int, rows: Seq<Seq<T>>)
        requires
            self.wf(),
            lawful::<T>(),
            self.asks_for(query, r),
            self.answers(query, rows),
        ensures
            self.selection(query).contains(Bound::Single(r as usize)),
            rows.contains(self.row(r)),
    {
        self.lemma_narrowed_holds(query, r, query.len() as int);
        let j = choose|j: int|
            0 <= j < query.len() && (#[trigger] query[j]) is Some && self.column(j).pins(r);
        let acc = self.narrowed(query, query.len() as int)->0;
        lemma_deduped_elements(acc);
        let bounds = self.selection(query);
        let at = choose|at: int| 0 <= at < acc.len() && acc[at] == Bound::Single(r as usize);
        assert(bounds.contains(acc[at]));
        let i = choose|i: int| 0 <= i < bounds.len() && bounds[i] == Bound::Single(r as usize);
        assert(self.is_row_at(bounds[i], rows[i]));
    }
}

} // verus!
