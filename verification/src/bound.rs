//! Index bounds within a column and their intersection.
use vstd::prelude::*;
use vstd::std_specs::ops::BitAndSpecImpl;

verus! {

/// Where a queried value sits among the rows of a column.
#[derive(Clone, Copy, Debug, PartialEq, Eq, Structural)]
pub enum Bound {
    /// No row.
    Empty,
    /// The row at this index.
    Single(usize),
    /// The rows from the first index to the second, both included.
    Range(usize, usize),
}

impl Bound {
    /// A range holds at least two rows: `Range(i, i)` is written `Single(i)`.
    pub open spec fn normalized(self) -> bool {
        match self {
            Bound::Range(lo, hi) => lo < hi,
            _ => true,
        }
    }

    /// The bound selects at least one row, and only rows from `from` up to but
    /// not including `to`.
    pub open spec fn inside(self, from: int, to: int) -> bool {
        match self {
            Bound::Empty => false,
            Bound::Single(i) => from <= i < to,
            Bound::Range(lo, hi) => from <= lo < hi < to,
        }
    }

    /// The row indices that the bound selects.
    pub open spec fn rows(self) -> Set<int> {
        match self {
            Bound::Empty => Set::empty(),
            Bound::Single(i) => Set::new(|r: int| r == i),
            Bound::Range(lo, hi) => Set::new(|r: int| lo <= r <= hi),
        }
    }

    /// The bound on the rows `lo..=hi`, written in normal form.
    pub open spec fn span(lo: int, hi: int) -> Bound
        recommends
            0 <= lo,
            hi <= usize::MAX,
    {
        if lo > hi {
            Bound::Empty
        } else if lo == hi {
            Bound::Single(lo as usize)
        } else {
            Bound::Range(lo as usize, hi as usize)
        }
    }

    /// The intersection of two bounds.
    pub open spec fn intersect(self, rhs: Bound) -> Bound {
        match (self, rhs) {
            (Bound::Empty, _) => Bound::Empty,
            (_, Bound::Empty) => Bound::Empty,
            (Bound::Single(i), Bound::Single(j)) => if i == j {
                Bound::Single(i)
            } else {
                Bound::Empty
            },
            (Bound::Single(i), Bound::Range(c, d)) => if c <= i <= d {
                Bound::Single(i)
            } else {
                Bound::Empty
            },
            (Bound::Range(a, b), Bound::Single(j)) => if a <= j <= b {
                Bound::Single(j)
            } else {
                Bound::Empty
            },
            (Bound::Range(a, b), Bound::Range(c, d)) => Bound::span(
                if a >= c { a as int } else { c as int },
                if b <= d { b as int } else { d as int },
            ),
        }
    }
}

impl BitAndSpecImpl for Bound {
    open spec fn obeys_bitand_spec() -> bool {
        true
    }

    open spec fn bitand_req(self, rhs: Bound) -> bool {
        true
    }

    open spec fn bitand_spec(self, rhs: Bound) -> Bound {
        self.intersect(rhs)
    }
}

impl core::ops::BitAnd for Bound {
    type Output = Bound;

    /// Intersects two bounds.
    fn bitand(self, rhs: Bound) -> (r: Bound)
        ensures
            r == self.intersect(rhs),
            r.normalized(),
    {
        match (self, rhs) {
            (Bound::Single(i), Bound::Single(j)) => if i == j {
                Bound::Single(i)
            } else {
                Bound::Empty
            },
            (Bound::Single(i), Bound::Range(lo, hi)) | (Bound::Range(lo, hi), Bound::Single(i)) => {
                if lo <= i && i <= hi {
                    Bound::Single(i)
                } else {
                    Bound::Empty
                }
            },
            (Bound::Range(a, b), Bound::Range(c, d)) => {
                let lo: usize = if a >= c { a } else { c };
                let hi: usize = if b <= d { b } else { d };
                if lo > hi {
                    Bound::Empty
                } else if lo == hi {
                    Bound::Single(lo)
                } else {
                    Bound::Range(lo, hi)
                }
            },
            _ => Bound::Empty,
        }
    }
}

/// The empty bound absorbs every other.
pub proof fn lemma_intersect_empty(a: Bound)
    ensures
        a.intersect(Bound::Empty) == Bound::Empty,
        Bound::Empty.intersect(a) == Bound::Empty,
{
}

/// A bound in normal form, intersected with itself, is unchanged.
pub proof fn lemma_intersect_idempotent(a: Bound)
    requires
        a.normalized(),
    ensures
        a.intersect(a) == a,
{
}

/// The range over all rows `0..=last` leaves every single row of it unchanged.
pub proof fn lemma_intersect_all_rows(last: usize, i: usize)
    requires
        i <= last,
    ensures
        Bound::Range(0, last).intersect(Bound::Single(i)) == Bound::Single(i),
        Bound::Single(i).intersect(Bound::Range(0, last)) == Bound::Single(i),
{
}

/// Intersection does not depend on the order of its operands.
pub proof fn lemma_intersect_commutative(a: Bound, b: Bound)
    ensures
        a.intersect(b) == b.intersect(a),
{
}

/// Intersection of bounds in normal form does not depend on the grouping.
pub proof fn lemma_intersect_associative(a: Bound, b: Bound, c: Bound)
    requires
        a.normalized(),
        b.normalized(),
        c.normalized(),
    ensures
        a.intersect(b).intersect(c) == a.intersect(b.intersect(c)),
{
}

/// An intersection is in normal form, whatever the operands.
pub proof fn lemma_intersect_normalized(a: Bound, b: Bound)
    ensures
        a.intersect(b).normalized(),
{
}

/// On bounds in normal form, intersection selects the rows that both select.
pub proof fn lemma_intersect_rows(a: Bound, b: Bound)
    requires
        a.normalized(),
        b.normalized(),
    ensures
        a.intersect(b).rows() == a.rows().intersect(b.rows()),
{
    assert(a.intersect(b).rows() =~= a.rows().intersect(b.rows()));
}

/// `s` without each element that equals the one before it.
pub open spec fn deduped<A>(s: Seq<A>) -> Seq<A>
    decreases s.len(),
{
    if s.len() <= 1 {
        s
    } else if s[s.len() - 1] == s[s.len() - 2] {
        deduped(s.drop_last())
    } else {
        deduped(s.drop_last()).push(s[s.len() - 1])
    }
}

/// What is left of a sequence after removing repeats is made of its elements,
/// and ends as the sequence does.
pub proof fn lemma_deduped_elements<A>(s: Seq<A>)
    ensures
        deduped(s).len() <= s.len(),
        s.len() > 0 ==> deduped(s).len() > 0 && deduped(s).last() == s.last(),
        forall|i: int| 0 <= i < deduped(s).len() ==> s.contains(#[trigger] deduped(s)[i]),
        forall|i: int| 0 <= i < s.len() ==> deduped(s).contains(#[trigger] s[i]),
    decreases s.len(),
{
    if s.len() <= 1 {
        assert forall|i: int| 0 <= i < s.len() implies deduped(s).contains(#[trigger] s[i]) by {
            assert(deduped(s)[i] == s[i]);
        }
    } else {
        let t = s.drop_last();
        lemma_deduped_elements(t);
        let d = deduped(s);
        assert forall|i: int| 0 <= i < d.len() implies s.contains(#[trigger] d[i]) by {
            if i < deduped(t).len() {
                assert(d[i] == deduped(t)[i]);
                assert(t.contains(d[i]));
                let j = choose|j: int| 0 <= j < t.len() && t[j] == d[i];
                assert(s[j] == d[i]);
            } else {
                assert(d[i] == s[s.len() - 1]);
            }
        }
        assert forall|i: int| 0 <= i < s.len() implies d.contains(#[trigger] s[i]) by {
            if i < t.len() {
                assert(t[i] == s[i]);
                assert(deduped(t).contains(t[i]));
                let j = choose|j: int| 0 <= j < deduped(t).len() && deduped(t)[j] == t[i];
                assert(d[j] == s[i]);
            } else {
                assert(d[d.len() - 1] == s[i]);
            }
        }
    }
}

/// Removes each bound that equals the one before it.
pub fn dedup(bounds: Vec<Bound>) -> (r: Vec<Bound>)
    ensures
        r@ == deduped(bounds@),
{
    let mut out: Vec<Bound> = Vec::new();
    let mut i: usize = 0;
    while i < bounds.len()
        invariant
            i <= bounds@.len(),
            out@ == deduped(bounds@.take(i as int)),
        decreases bounds@.len() - i,
    {
        proof {
            let next = bounds@.take(i + 1);
            assert(next.drop_last() == bounds@.take(i as int));
            assert(next[next.len() - 1] == bounds@[i as int]);
            if i > 0 {
                assert(next[next.len() - 2] == bounds@[i - 1]);
            }
        }
        if i == 0 || bounds[i] != bounds[i - 1] {
            out.push(bounds[i]);
        }
        i = i + 1;
    }
    proof {
        assert(bounds@.take(bounds@.len() as int) == bounds@);
    }
    out
}

/// The intersection of `b` with each bound of `list`, in the order of `list`,
/// without the empty ones.
pub open spec fn meets(b: Bound, list: Seq<Bound>) -> Seq<Bound>
    decreases list.len(),
{
    if list.len() == 0 {
        Seq::empty()
    } else if b.intersect(list[list.len() - 1]) == Bound::Empty {
        meets(b, list.drop_last())
    } else {
        meets(b, list.drop_last()).push(b.intersect(list[list.len() - 1]))
    }
}

/// The intersection of each bound of `acc` with each bound of `list`, without
/// the empty ones: in the order of `acc`, and for one bound of `acc` in the
/// order of `list`.
pub open spec fn product(acc: Seq<Bound>, list: Seq<Bound>) -> Seq<Bound>
    decreases acc.len(),
{
    if acc.len() == 0 {
        Seq::empty()
    } else {
        product(acc.drop_last(), list) + meets(acc[acc.len() - 1], list)
    }
}

/// `s` without its empty bounds.
pub open spec fn without_empty(s: Seq<Bound>) -> Seq<Bound>
    decreases s.len(),
{
    if s.len() == 0 {
        s
    } else if s[s.len() - 1] == Bound::Empty {
        without_empty(s.drop_last())
    } else {
        without_empty(s.drop_last()).push(s[s.len() - 1])
    }
}

/// Bounds inside a span of rows hold no empty bound.
pub proof fn lemma_inside_without_empty(s: Seq<Bound>, from: int, to: int)
    requires
        forall|i: int| 0 <= i < s.len() ==> (#[trigger] s[i]).inside(from, to),
    ensures
        without_empty(s) == s,
    decreases s.len(),
{
    if s.len() > 0 {
        let rest = s.drop_last();
        assert forall|i: int| 0 <= i < rest.len() implies (#[trigger] rest[i]).inside(from, to) by {
            assert(rest[i] == s[i]);
        }
        lemma_inside_without_empty(rest, from, to);
        assert(s[s.len() - 1].inside(from, to));
        assert(rest.push(s[s.len() - 1]) =~= s);
    }
}

/// The bounds that select every one of `rows` rows: none for no row, the
/// single row for one, and else the range over all.
pub open spec fn all_rows(rows: int) -> Seq<Bound> {
    if rows <= 0 {
        Seq::empty()
    } else if rows == 1 {
        seq![Bound::Single(0)]
    } else {
        seq![Bound::Range(0, (rows - 1) as usize)]
    }
}

/// An intersection with a bound inside a span of rows is empty or inside that span.
pub proof fn lemma_intersect_inside(a: Bound, b: Bound, from: int, to: int)
    requires
        a.inside(from, to) || b.inside(from, to),
    ensures
        a.intersect(b) == Bound::Empty || a.intersect(b).inside(from, to),
{
}

/// What is not empty of the intersections with a list of bounds inside a span
/// of rows is inside that span.
pub proof fn lemma_meets_inside(b: Bound, list: Seq<Bound>, from: int, to: int)
    requires
        forall|i: int| 0 <= i < list.len() ==> (#[trigger] list[i]).inside(from, to),
    ensures
        forall|i: int|
            0 <= i < meets(b, list).len() ==> (#[trigger] meets(b, list)[i]).inside(from, to),
    decreases list.len(),
{
    if list.len() > 0 {
        let rest = list.drop_last();
        assert forall|i: int| 0 <= i < rest.len() implies (#[trigger] rest[i]).inside(from, to) by {
            assert(rest[i] == list[i]);
        }
        lemma_meets_inside(b, rest, from, to);
        assert(list[list.len() - 1].inside(from, to));
        lemma_intersect_inside(b, list[list.len() - 1], from, to);
        assert forall|i: int| 0 <= i < meets(b, list).len() implies (#[trigger] meets(
            b,
            list,
        )[i]).inside(from, to) by {
            if i < meets(b, rest).len() {
                assert(meets(b, list)[i] == meets(b, rest)[i]);
            }
        }
    }
}

/// The product with a list of bounds inside a span of rows is inside that span.
pub proof fn lemma_product_inside(acc: Seq<Bound>, list: Seq<Bound>, from: int, to: int)
    requires
        forall|i: int| 0 <= i < list.len() ==> (#[trigger] list[i]).inside(from, to),
    ensures
        forall|i: int|
            0 <= i < product(acc, list).len() ==> (#[trigger] product(acc, list)[i]).inside(
                from,
                to,
            ),
    decreases acc.len(),
{
    if acc.len() > 0 {
        let head = product(acc.drop_last(), list);
        let tail = meets(acc[acc.len() - 1], list);
        lemma_product_inside(acc.drop_last(), list, from, to);
        lemma_meets_inside(acc[acc.len() - 1], list, from, to);
        assert forall|i: int| 0 <= i < product(acc, list).len() implies (#[trigger] product(
            acc,
            list,
        )[i]).inside(from, to) by {
            if i < head.len() {
                assert(product(acc, list)[i] == head[i]);
            } else {
                assert(product(acc, list)[i] == tail[i - head.len()]);
            }
        }
    }
}

/// What is not empty of an intersection of two bounds that two lists hold,
/// the product of the lists holds.
pub proof fn lemma_product_holds(acc: Seq<Bound>, list: Seq<Bound>, a: Bound, b: Bound)
    requires
        acc.contains(a),
        list.contains(b),
        a.intersect(b) != Bound::Empty,
    ensures
        product(acc, list).contains(a.intersect(b)),
    decreases acc.len(),
{
    let head = product(acc.drop_last(), list);
    let tail = meets(acc[acc.len() - 1], list);
    if acc[acc.len() - 1] == a {
        lemma_meets_holds(a, list, b);
        let i = choose|i: int| 0 <= i < tail.len() && tail[i] == a.intersect(b);
        assert((head + tail)[head.len() + i] == a.intersect(b));
    } else {
        let at = choose|at: int| 0 <= at < acc.len() && acc[at] == a;
        assert(acc.drop_last()[at] == a);
        lemma_product_holds(acc.drop_last(), list, a, b);
        let i = choose|i: int| 0 <= i < head.len() && head[i] == a.intersect(b);
        assert((head + tail)[i] == a.intersect(b));
    }
}

/// What is not empty of an intersection with a bound that a list holds, the
/// intersections with the list hold.
pub proof fn lemma_meets_holds(a: Bound, list: Seq<Bound>, b: Bound)
    requires
        list.contains(b),
        a.intersect(b) != Bound::Empty,
    ensures
        meets(a, list).contains(a.intersect(b)),
    decreases list.len(),
{
    let rest = meets(a, list.drop_last());
    if list[list.len() - 1] == b {
        assert(meets(a, list) == rest.push(a.intersect(b)));
        assert(meets(a, list)[rest.len() as int] == a.intersect(b));
    } else {
        let at = choose|at: int| 0 <= at < list.len() && list[at] == b;
        assert(list.drop_last()[at] == b);
        lemma_meets_holds(a, list.drop_last(), b);
        let i = choose|i: int| 0 <= i < rest.len() && rest[i] == a.intersect(b);
        assert(meets(a, list)[i] == a.intersect(b));
    }
}

/// Intersects each bound of `acc` with each bound of `list` and keeps what is not empty.
pub fn intersect_lists(acc: &Vec<Bound>, list: &Vec<Bound>) -> (r: Vec<Bound>)
    ensures
        r@ == product(acc@, list@),
{
    let mut out: Vec<Bound> = Vec::new();
    let mut i: usize = 0;
    while i < acc.len()
        invariant
            i <= acc@.len(),
            out@ == product(acc@.take(i as int), list@),
        decreases acc@.len() - i,
    {
        let ghost outer = out@;
        let mut j: usize = 0;
        while j < list.len()
            invariant
                i < acc@.len(),
                j <= list@.len(),
                out@ == outer + meets(acc@[i as int], list@.take(j as int)),
            decreases list@.len() - j,
        {
            proof {
                assert(list@.take(j + 1).drop_last() == list@.take(j as int));
            }
            let both = acc[i] & list[j];
            if both != Bound::Empty {
                out.push(both);
            }
            proof {
                assert(out@ =~= outer + meets(acc@[i as int], list@.take(j + 1)));
            }
            j = j + 1;
        }
        proof {
            assert(list@.take(list@.len() as int) == list@);
            assert(acc@.take(i + 1).drop_last() == acc@.take(i as int));
        }
        i = i + 1;
    }
    proof {
        assert(acc@.take(acc@.len() as int) == acc@);
    }
    out
}

/// The bounds that select every one of `rows` rows.
pub fn select_all(rows: usize) -> (r: Vec<Bound>)
    ensures
        r@ == all_rows(rows as int),
{
    let mut out: Vec<Bound> = Vec::new();
    if rows == 1 {
        out.push(Bound::Single(0));
    } else if rows > 1 {
        out.push(Bound::Range(0, rows - 1));
    }
    proof {
        assert(out@ =~= all_rows(rows as int));
    }
    out
}

} // verus!
