//! The scalars that a table can hold: ordered, copied freely, and averaged.
use vstd::prelude::*;

verus! {

/// A numeric scalar of a table.
///
/// Rows that a query falls between are averaged column by column, so a scalar
/// computes the arithmetic mean of a run of samples. What a scalar promises of
/// its mean, the table promises of the rows it averages: see [`is_mean`].
pub trait Scalar: PartialOrd + Copy {
    /// Computes the arithmetic mean of `vals`.
    fn mean(vals: &[Self]) -> (r: Self)
        requires
            vals@.len() > 0,
    ;
}

/// `r` is a mean of `vals`, as the scalar computes it.
pub open spec fn is_mean<T: Scalar>(vals: Seq<T>, r: T) -> bool {
    exists|s: &[T]| s@ == vals && #[trigger] call_ensures(T::mean, (s,), r)
}

/// The sum of `vals`.
pub open spec fn sum_of(vals: Seq<i64>) -> int
    decreases vals.len(),
{
    if vals.len() == 0 {
        0
    } else {
        sum_of(vals.drop_last()) + vals[vals.len() - 1]
    }
}

/// The quotient of `sum` by `count`, rounded towards zero.
pub open spec fn quotient(sum: int, count: int) -> int {
    if sum >= 0 {
        sum / count
    } else {
        -((-sum) / count)
    }
}

/// The sum of `vals` is at most as far from zero as so many of the largest `i64`.
pub proof fn lemma_sum_bounds(vals: Seq<i64>)
    ensures
        -0x8000_0000_0000_0000 * vals.len() <= sum_of(vals) <= 0x7fff_ffff_ffff_ffff * vals.len(),
    decreases vals.len(),
{
    if vals.len() > 0 {
        lemma_sum_bounds(vals.drop_last());
    }
}

/// A quotient of a sum of `count` values of `i64` by `count` is a value of `i64`.
pub proof fn lemma_quotient_fits(sum: int, count: int)
    requires
        count > 0,
        -0x8000_0000_0000_0000 * count <= sum <= 0x7fff_ffff_ffff_ffff * count,
    ensures
        -0x8000_0000_0000_0000 <= quotient(sum, count) <= 0x7fff_ffff_ffff_ffff,
{
    if sum >= 0 {
        assert(sum / count <= 0x7fff_ffff_ffff_ffff) by (nonlinear_arith)
            requires
                count > 0,
                0 <= sum <= 0x7fff_ffff_ffff_ffff * count,
        ;
        assert(0 <= sum / count) by (nonlinear_arith)
            requires
                count > 0,
                0 <= sum,
        ;
    } else {
        assert((-sum) / count <= 0x8000_0000_0000_0000) by (nonlinear_arith)
            requires
                count > 0,
                0 <= -sum <= 0x8000_0000_0000_0000 * count,
        ;
        assert(0 <= (-sum) / count) by (nonlinear_arith)
            requires
                count > 0,
                0 <= -sum,
        ;
    }
}

/// Whole numbers, such as samples in fixed point: the mean is rounded towards zero.
impl Scalar for i64 {
    fn mean(vals: &[i64]) -> (r: i64)
        ensures
            r == quotient(sum_of(vals@), vals@.len() as int),
    {
        let count: usize = vals.len();
        let mut sum: i128 = 0;
        let mut i: usize = 0;
        while i < count
            invariant
                count == vals@.len(),
                i <= count,
                sum == sum_of(vals@.take(i as int)),
            decreases count - i,
        {
            proof {
                lemma_sum_bounds(vals@.take(i as int));
                assert(vals@.take(i + 1).drop_last() == vals@.take(i as int));
            }
            sum = sum + vals[i] as i128;
            i = i + 1;
        }
        proof {
            assert(vals@.take(count as int) == vals@);
            lemma_sum_bounds(vals@);
            lemma_quotient_fits(sum as int, count as int);
        }
        let n: i128 = count as i128;
        if sum >= 0 {
            (sum / n) as i64
        } else {
            (-((-sum) / n)) as i64
        }
    }
}

/// The mean of whole numbers is the quotient of their sum by their number,
/// rounded towards zero.
pub proof fn lemma_whole_mean(vals: Seq<i64>, r: i64)
    requires
        is_mean(vals, r),
    ensures
        r == quotient(sum_of(vals), vals.len() as int),
{
}

} // verus!
