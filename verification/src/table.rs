//! A table of analyzed columns and the lookup of rows by partial queries.
use vstd::prelude::*;
use crate::bound::{
    all_rows, dedup, deduped, intersect_lists, lemma_deduped_elements,
    lemma_inside_without_empty, lemma_product_inside, product, select_all, without_empty, Bound,
};
use crate::column::Column;
use crate::error::Error;
use crate::order::obeys_order;
use crate::scalar::{is_mean, Scalar};

verus! {

/// The views of the rows, one after the other.
pub open spec fn row_views<T>(rows: Seq<Vec<T>>) -> Seq<Seq<T>> {
    Seq::new(rows.len(), |i: int| rows[i]@)
}

/// No slot of the query holds a value.
pub open spec fn unconstrained<T>(query: Seq<Option<T>>) -> bool {
    forall|i: int| 0 <= i < query.len() ==> (#[trigger] query[i]) is None
}

/// Columns of one length, side by side: row `r` of the table is made of the
/// samples at row `r` of each column.
#[derive(Debug)]
pub struct Table<T> {
    columns: Vec<Column<T>>,
}

impl<T> View for Table<T> {
    type V = Seq<Seq<T>>;

    /// The samples, column by column.
    closed spec fn view(&self) -> Seq<Seq<T>> {
        Seq::new(self.columns@.len(), |j: int| self.columns@[j]@)
    }
}

impl<T: Scalar> Table<T> {
    /// Column `j`.
    pub closed spec fn column(&self, j: int) -> Column<T> {
        self.columns@[j]
    }

    /// The number of columns.
    pub open spec fn width(&self) -> nat {
        self@.len()
    }

    /// The number of rows.
    pub open spec fn rows(&self) -> nat {
        if self@.len() == 0 {
            0
        } else {
            self@[0].len()
        }
    }

    /// Every column is analyzed, and all have one length.
    pub open spec fn wf(&self) -> bool {
        forall|j: int|
            0 <= j < self.width() ==> {
                &&& (#[trigger] self.column(j)).wf()
                &&& self.column(j)@ == self@[j]
                &&& self@[j].len() == self.rows()
            }
    }

    /// Row `r`.
    pub open spec fn row(&self, r: int) -> Seq<T> {
        Seq::new(self.width(), |j: int| self@[j][r])
    }

    /// `row` is the row that the bound stands for: the row itself for a single
    /// row, and for a range a mean of its rows, column by column.
    pub open spec fn is_row_at(&self, b: Bound, row: Seq<T>) -> bool {
        match b {
            Bound::Empty => false,
            Bound::Single(r) => row == self.row(r as int),
            Bound::Range(lo, hi) => {
                &&& row.len() == self.width()
                &&& forall|j: int|
                    0 <= j < self.width() ==> is_mean(
                        self@[j].subrange(lo as int, hi + 1),
                        #[trigger] row[j],
                    )
            },
        }
    }

    /// `rows` are the rows that the bounds stand for, one for each, in their order.
    pub open spec fn are_rows_at(&self, bounds: Seq<Bound>, rows: Seq<Seq<T>>) -> bool {
        &&& rows.len() == bounds.len()
        &&& forall|i: int| 0 <= i < bounds.len() ==> self.is_row_at(bounds[i], #[trigger] rows[i])
    }

    /// The bounds that the first `n` slots of the query leave: none while no
    /// slot holds a value, the bounds of the first value in its column, and
    /// from then on the product with the bounds of each further value.
    pub open spec fn narrowed(&self, query: Seq<Option<T>>, n: int) -> Option<Seq<Bound>>
        decreases n,
    {
        if n <= 0 {
            None
        } else {
            let acc = self.narrowed(query, n - 1);
            match query[n - 1] {
                None => acc,
                Some(v) => {
                    let list = self.column(n - 1).bounds_of(v);
                    match acc {
                        None => Some(list),
                        Some(a) => Some(product(a, list)),
                    }
                },
            }
        }
    }

    /// The bounds of the rows that match the query: all rows where no slot
    /// holds a value, and else what the slots leave, without each bound that
    /// equals the one before it.
    pub open spec fn selection(&self, query: Seq<Option<T>>) -> Seq<Bound> {
        match self.narrowed(query, query.len() as int) {
            None => all_rows(self.rows() as int),
            Some(a) => deduped(a),
        }
    }

    /// `rows` are the rows that match the query.
    pub open spec fn answers(&self, query: Seq<Option<T>>, rows: Seq<Seq<T>>) -> bool {
        self.are_rows_at(self.selection(query), rows)
    }

    /// Every value of the query can be ordered against the run ends of its column.
    pub open spec fn orders(&self, query: Seq<Option<T>>) -> bool {
        forall|i: int|
            0 <= i < query.len() && (#[trigger] query[i]) is Some ==> self.column(i).orders(
                query[i]->0,
            )
    }

    /// Slot `i` holds the first value of the query that cannot be ordered
    /// against a run end of its column.
    pub open spec fn clashes_at(&self, query: Seq<Option<T>>, i: int) -> bool {
        &&& 0 <= i < query.len()
        &&& query[i] is Some
        &&& !self.column(i).orders(query[i]->0)
        &&& forall|n: int|
            0 <= n < i && (#[trigger] query[n]) is Some ==> self.column(n).orders(query[n]->0)
    }

    /// While no slot holds a value, the query has not narrowed the rows.
    pub proof fn lemma_unconstrained_narrowed(&self, query: Seq<Option<T>>, n: int)
        requires
            unconstrained(query),
            n <= query.len(),
        ensures
            self.narrowed(query, n) is None,
        decreases n,
    {
        if n > 0 {
            self.lemma_unconstrained_narrowed(query, n - 1);
        }
    }

    /// A query without a value selects all rows: none of no rows, the one row
    /// of one, and else the range over all.
    pub proof fn lemma_unconstrained_selection(&self, query: Seq<Option<T>>)
        requires
            unconstrained(query),
        ensures
            self.selection(query) == all_rows(self.rows() as int),
    {
        self.lemma_unconstrained_narrowed(query, query.len() as int);
    }

    /// Puts analyzed columns of one length side by side.
    pub fn new(columns: Vec<Column<T>>) -> (r: Table<T>)
        requires
            forall|j: int| 0 <= j < columns@.len() ==> (#[trigger] columns@[j]).wf(),
            forall|j: int|
                0 <= j < columns@.len() ==> (#[trigger] columns@[j])@.len() == columns@[0]@.len(),
        ensures
            r.wf(),
            r.width() == columns@.len(),
            forall|j: int| 0 <= j < columns@.len() ==> r.column(j) == #[trigger] columns@[j],
    {
        Table { columns }
    }

    /// The number of columns.
    pub fn column_count(&self) -> (r: usize)
        ensures
            r == self.width(),
    {
        self.columns.len()
    }

    /// The number of rows.
    pub fn row_count(&self) -> (r: usize)
        requires
            self.wf(),
        ensures
            r == self.rows(),
    {
        if self.columns.len() == 0 {
            0
        } else {
            self.columns[0].len()
        }
    }

    /// Makes the row that a bound stands for.
    pub fn materialize_one(&self, bound: Bound) -> (r: Vec<T>)
        requires
            self.wf(),
            bound.inside(0, self.rows() as int),
        ensures
            self.is_row_at(bound, r@),
    {
        let mut vals: Vec<T> = Vec::new();
        let mut j: usize = 0;
        while j < self.columns.len()
            invariant
                self.wf(),
                bound.inside(0, self.rows() as int),
                j <= self.columns@.len(),
                vals@.len() == j,
                forall|n: int|
                    0 <= n < j ==> match bound {
                        Bound::Empty => false,
                        Bound::Single(row) => #[trigger] vals@[n] == self@[n][row as int],
                        Bound::Range(lo, hi) => is_mean(
                            self@[n].subrange(lo as int, hi + 1),
                            #[trigger] vals@[n],
                        ),
                    },
            decreases self.columns@.len() - j,
        {
            assert(self.column(j as int).wf());
            let samples = self.columns[j].as_slice();
            let rows: usize = samples.len();
            assert(rows == self.rows()) by {
                assert(self.column(j as int)@ == self@[j as int]);
            }
            let val = match bound {
                Bound::Single(row) => samples[row],
                Bound::Range(lo, hi) => T::mean(&samples[lo..hi + 1]),
                Bound::Empty => unreached(),
            };
            vals.push(val);
            j = j + 1;
        }
        proof {
            if let Bound::Single(row) = bound {
                assert(vals@ =~= self.row(row as int));
            }
        }
        vals
    }

    /// Makes the rows that the bounds stand for, in their order. An empty bound
    /// stands for no row.
    pub fn materialize(&self, bounds: &Vec<Bound>) -> (r: Vec<Vec<T>>)
        requires
            self.wf(),
            forall|i: int|
                0 <= i < bounds@.len() ==> #[trigger] bounds@[i] == Bound::Empty || bounds@[i].inside(
                    0,
                    self.rows() as int,
                ),
        ensures
            self.are_rows_at(without_empty(bounds@), row_views(r@)),
    {
        let mut rows: Vec<Vec<T>> = Vec::new();
        let mut i: usize = 0;
        while i < bounds.len()
            invariant
                self.wf(),
                forall|i: int|
                    0 <= i < bounds@.len() ==> #[trigger] bounds@[i] == Bound::Empty
                        || bounds@[i].inside(0, self.rows() as int),
                i <= bounds@.len(),
                self.are_rows_at(without_empty(bounds@.take(i as int)), row_views(rows@)),
            decreases bounds@.len() - i,
        {
            let ghost before = row_views(rows@);
            let ghost kept = without_empty(bounds@.take(i as int));
            proof {
                assert(bounds@.take(i + 1).drop_last() == bounds@.take(i as int));
            }
            match bounds[i] {
                Bound::Empty => {},
                bound => {
                    let row = self.materialize_one(bound);
                    rows.push(row);
                    proof {
                        let after = row_views(rows@);
                        assert(after =~= before.push(row@));
                        assert forall|n: int| 0 <= n < kept.len() + 1 implies self.is_row_at(
                            kept.push(bound)[n],
                            #[trigger] after[n],
                        ) by {
                            if n < kept.len() {
                                assert(after[n] == before[n]);
                            }
                        }
                    }
                },
            }
            i = i + 1;
        }
        proof {
            assert(bounds@.take(bounds@.len() as int) == bounds@);
        }
        rows
    }

    /// Finds the bounds of the rows that match the query.
    ///
    /// Fails on the first value that cannot be ordered against a run end of
    /// its column, with the failure of that column.
    pub fn select(&self, query: &[Option<T>]) -> (r: Result<Vec<Bound>, Error>)
        requires
            self.wf(),
            query@.len() <= self.width(),
        ensures
            match r {
                Ok(bounds) => {
                    &&& forall|i: int|
                        0 <= i < bounds@.len() ==> (#[trigger] bounds@[i]).inside(
                            0,
                            self.rows() as int,
                        )
                    &&& unconstrained(query@) ==> bounds@ == all_rows(self.rows() as int)
                    &&& obeys_order::<T>() ==> self.orders(query@)
                    &&& obeys_order::<T>() ==> bounds@ == self.selection(query@)
                },
                Err(e) => {
                    &&& e matches Error::NonComparable { position }
                    &&& position < self.rows()
                    &&& !unconstrained(query@)
                    &&& obeys_order::<T>() ==> exists|i: int, j: int|
                        {
                            &&& #[trigger] self.clashes_at(query@, i)
                            &&& #[trigger] self.column(i).clashes_at(query@[i]->0, j)
                            &&& position == self.column(i).clash_row(query@[i]->0, j)
                        }
                },
            },
    {
        let mut acc: Option<Vec<Bound>> = None;
        let mut i: usize = 0;
        while i < query.len()
            invariant
                self.wf(),
                query@.len() <= self.width(),
                i <= query@.len(),
                acc is None <==> unconstrained(query@.take(i as int)),
                acc is Some ==> forall|n: int|
                    0 <= n < acc->0@.len() ==> (#[trigger] acc->0@[n]).inside(0, self.rows() as int),
                obeys_order::<T>() ==> forall|n: int|
                    0 <= n < i && (#[trigger] query@[n]) is Some ==> self.column(n).orders(
                        query@[n]->0,
                    ),
                obeys_order::<T>() ==> self.narrowed(query@, i as int) == match acc {
                    None => None::<Seq<Bound>>,
                    Some(a) => Some(a@),
                },
            decreases query@.len() - i,
        {
            let ghost head = query@.take(i as int);
            let ghost next = query@.take(i + 1);
            proof {
                assert(forall|n: int| 0 <= n < i ==> head[n] == next[n]);
                assert(next[i as int] == query@[i as int]);
                assert(self.column(i as int).wf());
                if unconstrained(next) {
                    assert forall|n: int| 0 <= n < head.len() implies (#[trigger] head[n]) is None by {
                        assert(next[n] is None);
                    }
                }
            }
            match query[i] {
                Some(v) => {
                    let list = match self.columns[i].get_bounds(&v) {
                        Ok(list) => list,
                        Err(e) => {
                            proof {
                                assert(!unconstrained(query@));
                                if obeys_order::<T>() {
                                    let j = choose|j: int| #[trigger]
                                        self.column(i as int).clashes_at(v, j);
                                    let ids = self.column(i as int).inflections();
                                    assert(!crate::run::run_ordered(
                                        self.column(i as int)@,
                                        ids[j] as int,
                                        ids[j + 1] as int,
                                        v,
                                    ));
                                    assert(self.clashes_at(query@, i as int));
                                }
                            }
                            return Err(e);
                        },
                    };
                    let joined = match acc {
                        None => list,
                        Some(a) => {
                            proof {
                                lemma_product_inside(a@, list@, 0, self.rows() as int);
                            }
                            intersect_lists(&a, &list)
                        },
                    };
                    acc = Some(joined);
                    proof {
                        assert(!unconstrained(next));
                    }
                },
                None => {
                    proof {
                        if unconstrained(head) {
                            assert forall|n: int| 0 <= n < next.len() implies (#[trigger] next[n]) is None by {
                                if n < i {
                                    assert(head[n] is None);
                                }
                            }
                        }
                    }
                },
            }
            i = i + 1;
        }
        proof {
            assert(query@.take(query@.len() as int) == query@);
        }
        match acc {
            None => Ok(select_all(self.row_count())),
            Some(a) => {
                let bounds = dedup(a);
                proof {
                    lemma_deduped_elements(a@);
                    assert forall|n: int| 0 <= n < bounds@.len() implies (#[trigger] bounds@[n]).inside(
                        0,
                        self.rows() as int,
                    ) by {
                        let m = choose|m: int| 0 <= m < a@.len() && a@[m] == bounds@[n];
                        assert(a@[m].inside(0, self.rows() as int));
                    }
                }
                Ok(bounds)
            },
        }
    }

    /// Returns the rows that match a query of no more slots than the table has columns.
    ///
    /// Slot `i` of the query constrains column `i` where it holds a value. A
    /// row matches where each constrained column has the value at that row,
    /// and the mean of two neighbouring rows matches where the value falls
    /// between them. A query that constrains no column is answered with the
    /// mean of all rows.
    pub fn get_unchecked(&self, query: &[Option<T>]) -> (r: Result<Vec<Vec<T>>, Error>)
        requires
            self.wf(),
            query@.len() <= self.width(),
        ensures
            match r {
                Ok(rows) => {
                    &&& unconstrained(query@) ==> self.are_rows_at(
                        all_rows(self.rows() as int),
                        row_views(rows@),
                    )
                    &&& obeys_order::<T>() ==> self.orders(query@)
                    &&& obeys_order::<T>() ==> self.answers(query@, row_views(rows@))
                },
                Err(e) => {
                    &&& e matches Error::NonComparable { position }
                    &&& position < self.rows()
                    &&& !unconstrained(query@)
                    &&& obeys_order::<T>() ==> exists|i: int, j: int|
                        {
                            &&& #[trigger] self.clashes_at(query@, i)
                            &&& #[trigger] self.column(i).clashes_at(query@[i]->0, j)
                            &&& position == self.column(i).clash_row(query@[i]->0, j)
                        }
                },
            },
    {
        match self.select(query) {
            Ok(bounds) => {
                proof {
                    lemma_inside_without_empty(bounds@, 0, self.rows() as int);
                }
                Ok(self.materialize(&bounds))
            },
            Err(e) => Err(e),
        }
    }

    /// Returns the rows that match the query, or nothing where the query has
    /// more slots than the table has columns.
    pub fn get(&self, query: &[Option<T>]) -> (r: Result<Option<Vec<Vec<T>>>, Error>)
        requires
            self.wf(),
        ensures
            query@.len() > self.width() <==> r matches Ok(None),
            match r {
                Ok(Some(rows)) => {
                    &&& unconstrained(query@) ==> self.are_rows_at(
                        all_rows(self.rows() as int),
                        row_views(rows@),
                    )
                    &&& obeys_order::<T>() ==> self.orders(query@)
                    &&& obeys_order::<T>() ==> self.answers(query@, row_views(rows@))
                },
                Ok(None) => true,
                Err(e) => {
                    &&& e matches Error::NonComparable { position }
                    &&& position < self.rows()
                    &&& !unconstrained(query@)
                    &&& obeys_order::<T>() ==> exists|i: int, j: int|
                        {
                            &&& #[trigger] self.clashes_at(query@, i)
                            &&& #[trigger] self.column(i).clashes_at(query@[i]->0, j)
                            &&& position == self.column(i).clash_row(query@[i]->0, j)
                        }
                },
            },
    {
        if query.len() > self.columns.len() {
            Ok(None)
        } else {
            match self.get_unchecked(query) {
                Ok(rows) => Ok(Some(rows)),
                Err(e) => Err(e),
            }
        }
    }
}

} // verus!
