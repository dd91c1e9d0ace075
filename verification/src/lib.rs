//! A multi-column numeric lookup cache.
//!
//! A [`table::Table`] holds the rows of a precomputed dataset column by
//! column. Each [`column::Column`] is analyzed once, when it is made: its
//! samples are cut at their inflections into monotonic runs. A query
//! constrains some of the leading columns by a value each. For every
//! constrained column the runs are bisected for the rows at which the value
//! sits, or between which it falls; these [`bound::Bound`]s are intersected
//! across the columns, and each one that is left is made into a row: the row
//! itself for a single row, the mean of the rows for a range.
//!
//! Scalars are compared exactly, through `PartialOrd`. What the contracts say
//! of the outcome of comparisons holds where [`order::obeys_order`] holds of
//! the scalar type; what they say of the shape of a result holds of every
//! scalar type. Where the order is [`order::lawful`] as well, the runs of a
//! column are monotonic and bisection finds in each the samples that come
//! before a value. Scalars that cannot be ordered, such as a floating-point
//! NaN, are answered with [`error::Error::NonComparable`].
//!
//! A [`loader::Loader`] builds a table from the tokens of a text source, one
//! row per line.
pub mod bound;
pub mod column;
pub mod error;
pub mod inflection;
pub mod loader;
pub mod model;
pub mod order;
pub mod round_trip;
pub mod run;
pub mod scalar;
pub mod table;
