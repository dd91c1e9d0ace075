//! Building a table from the lines of its source, one row per line.
use vstd::prelude::*;
use crate::column::Column;
use crate::inflection::{first_unordered, windows_ordered};
use crate::error::Error;
use crate::order::obeys_order;
use crate::scalar::Scalar;
use crate::table::Table;

verus! {

/// Whether a byte is ASCII whitespace: space, tab, line feed, form feed or carriage return.
pub open spec fn is_space(byte: u8) -> bool {
    byte == 0x20 || byte == 0x09 || byte == 0x0a || byte == 0x0c || byte == 0x0d
}

/// The place of a token in its line: from byte `start` up to but not including byte `end`.
#[derive(Clone, Copy, Debug, PartialEq, Eq, Structural)]
pub struct Span {
    pub start: usize,
    pub end: usize,
}

/// The span holds a token of the line: bytes that are no whitespace, as many
/// in a row as there are.
pub open spec fn is_token(line: Seq<u8>, span: Span) -> bool {
    &&& span.start < span.end <= line.len()
    &&& forall|i: int| span.start <= i < span.end ==> !is_space(#[trigger] line[i])
    &&& span.start == 0 || is_space(line[span.start - 1])
    &&& span.end == line.len() || is_space(line[span.end as int])
}

/// The spans hold the tokens of the line: each holds one, from left to right,
/// and no byte that is no whitespace lies outside them.
pub open spec fn tokenized(line: Seq<u8>, spans: Seq<Span>) -> bool {
    &&& forall|i: int| 0 <= i < spans.len() ==> is_token(line, #[trigger] spans[i])
    &&& forall|i: int, j: int| 0 <= i < j < spans.len() ==> spans[i].end < spans[j].start
    &&& forall|at: int|
        0 <= at < line.len() && !is_space(#[trigger] line[at]) ==> exists|i: int|
            0 <= i < spans.len() && (#[trigger] spans[i]).start <= at < spans[i].end
}

/// Tells whether a byte is ASCII whitespace.
pub fn is_ascii_space(byte: u8) -> (r: bool)
    ensures
        r == is_space(byte),
{
    byte == 0x20 || byte == 0x09 || byte == 0x0a || byte == 0x0c || byte == 0x0d
}

/// Splits a line into its tokens at ASCII whitespace.
pub fn split_ascii_whitespace(line: &[u8]) -> (r: Vec<Span>)
    ensures
        tokenized(line@, r@),
{
    let len = line.len();
    let mut spans: Vec<Span> = Vec::new();
    let mut at: usize = 0;
    while at < len
        invariant
            len == line@.len(),
            at <= len,
            at == 0 || at == len || is_space(line@[at - 1]),
            forall|i: int| 0 <= i < spans@.len() ==> is_token(line@, #[trigger] spans@[i]),
            forall|i: int, j: int| 0 <= i < j < spans@.len() ==> spans@[i].end < spans@[j].start,
            forall|i: int| 0 <= i < spans@.len() ==> (#[trigger] spans@[i]).end <= at,
            forall|i: int|
                0 <= i < spans@.len() && at < len ==> (#[trigger] spans@[i]).end < at,
            forall|n: int|
                0 <= n < at && !is_space(#[trigger] line@[n]) ==> exists|i: int|
                    0 <= i < spans@.len() && (#[trigger] spans@[i]).start <= n < spans@[i].end,
        decreases len - at,
    {
        if is_ascii_space(line[at]) {
            at = at + 1;
        } else {
            let start = at;
            while at < len && !is_ascii_space(line[at])
                invariant
                    len == line@.len(),
                    start < len,
                    start <= at <= len,
                    !is_space(line@[start as int]),
                    forall|i: int| start <= i < at ==> !is_space(#[trigger] line@[i]),
                decreases len - at,
            {
                at = at + 1;
            }
            let ghost before = spans@;
            let span = Span { start, end: at };
            spans.push(span);
            proof {
                assert(is_token(line@, span));
                assert forall|n: int| 0 <= n < at && !is_space(#[trigger] line@[n]) implies exists|
                    i: int,
                |
                    0 <= i < spans@.len() && (#[trigger] spans@[i]).start <= n < spans@[i].end by {
                    if n < start {
                        let i = choose|i: int|
                            0 <= i < before.len() && (#[trigger] before[i]).start <= n
                                < before[i].end;
                        assert(spans@[i] == before[i]);
                    } else {
                        assert(spans@[spans@.len() - 1] == span);
                    }
                }
                assert forall|i: int, j: int| 0 <= i < j < spans@.len() implies spans@[i].end
                    < spans@[j].start by {
                    if j < before.len() {
                        assert(spans@[i] == before[i] && spans@[j] == before[j]);
                    } else {
                        assert(spans@[i] == before[i]);
                    }
                }
            }
            if at < len {
                at = at + 1;
            }
        }
    }
    spans
}

/// The scalars that the tokens hold, where every token holds one.
pub open spec fn scalars<T>(tokens: Seq<Result<T, String>>) -> Seq<T> {
    Seq::new(tokens.len(), |i: int| tokens[i]->Ok_0)
}

/// Token `i` is the first that holds no scalar.
pub open spec fn first_failure<T>(tokens: Seq<Result<T, String>>, i: int) -> bool {
    &&& 0 <= i < tokens.len()
    &&& tokens[i] is Err
    &&& forall|n: int| 0 <= n < i ==> (#[trigger] tokens[n]) is Ok
}

/// Every token holds a scalar.
pub open spec fn all_parsed<T>(tokens: Seq<Result<T, String>>) -> bool {
    forall|n: int| 0 <= n < tokens.len() ==> (#[trigger] tokens[n]) is Ok
}

/// The rows read so far from a source, kept column by column.
///
/// The first row fixes the number of columns; every further row has as many scalars.
#[derive(Debug)]
pub struct Loader<T> {
    width: Option<usize>,
    columns: Vec<Vec<T>>,
}

impl<T: Scalar> Loader<T> {
    /// The number of columns, once a row has fixed it.
    pub closed spec fn width(&self) -> Option<usize> {
        self.width
    }

    /// The scalars read so far, column by column.
    pub closed spec fn columns(&self) -> Seq<Seq<T>> {
        Seq::new(self.columns@.len(), |j: int| self.columns@[j]@)
    }

    /// The number of rows read so far.
    pub open spec fn rows(&self) -> nat {
        if self.columns().len() == 0 {
            0
        } else {
            self.columns()[0].len()
        }
    }

    /// There are as many columns as the first row fixed, at least one, and all
    /// hold one scalar of each row.
    pub open spec fn wf(&self) -> bool {
        match self.width() {
            None => self.columns().len() == 0,
            Some(width) => {
                &&& width >= 1
                &&& self.columns().len() == width
                &&& self.rows() >= 1
                &&& forall|j: int|
                    0 <= j < width ==> (#[trigger] self.columns()[j]).len() == self.rows()
            },
        }
    }

    /// The loader holds what `before` held and the row `values` after it.
    pub open spec fn extends(&self, before: &Loader<T>, values: Seq<T>) -> bool {
        &&& self.width() == Some(values.len() as usize)
        &&& self.columns().len() == values.len()
        &&& forall|j: int|
            0 <= j < values.len() ==> #[trigger] self.columns()[j] == if before.width() is None {
                seq![values[j]]
            } else {
                before.columns()[j].push(values[j])
            }
    }

    /// A loader that has read nothing.
    pub fn new() -> (r: Loader<T>)
        ensures
            r.wf(),
            r.width() is None,
            r.rows() == 0,
    {
        Loader { width: None, columns: Vec::new() }
    }

    /// Takes in the tokens of line number `line`, each parsed into a scalar or
    /// with the reason why it is none.
    ///
    /// A line without tokens is passed over. Else the line must have as many
    /// tokens as the first row, and then each token must hold a scalar: the
    /// row is added, or the loader is left as it was.
    pub fn feed(&mut self, line: usize, tokens: &Vec<Result<T, String>>) -> (r: Result<(), Error>)
        requires
            old(self).wf(),
        ensures
            final(self).wf(),
            match r {
                Ok(()) => {
                    &&& tokens@.len() == 0 ==> *final(self) == *old(self)
                    &&& tokens@.len() > 0 ==> {
                        &&& old(self).width() is None || old(self).width() == Some(
                            tokens@.len() as usize,
                        )
                        &&& all_parsed(tokens@)
                        &&& final(self).extends(old(self), scalars(tokens@))
                    }
                },
                Err(Error::InconsistentDataset { line: at }) => {
                    &&& *final(self) == *old(self)
                    &&& at == line
                    &&& tokens@.len() > 0
                    &&& old(self).width() is Some
                    &&& old(self).width() != Some(tokens@.len() as usize)
                },
                Err(Error::ParseError { line: at, cause }) => {
                    &&& *final(self) == *old(self)
                    &&& at == line
                    &&& old(self).width() is None || old(self).width() == Some(
                        tokens@.len() as usize,
                    )
                    &&& exists|i: int| #[trigger]
                        first_failure(tokens@, i) && cause@ == (tokens@[i]->Err_0)@
                },
                Err(_) => false,
            },
    {
        let count = tokens.len();
        if count == 0 {
            return Ok(());
        }
        match self.width {
            Some(width) => {
                if width != count {
                    return Err(Error::InconsistentDataset { line });
                }
            },
            None => {},
        }
        let mut values: Vec<T> = Vec::new();
        let mut i: usize = 0;
        while i < count
            invariant
                *self == *old(self),
                self.wf(),
                self.width() is None || self.width() == Some(count),
                count == tokens@.len(),
                i <= count,
                values@.len() == i,
                forall|n: int| 0 <= n < i ==> (#[trigger] tokens@[n]) is Ok,
                forall|n: int| 0 <= n < i ==> #[trigger] values@[n] == tokens@[n]->Ok_0,
            decreases count - i,
        {
            match &tokens[i] {
                Ok(value) => {
                    values.push(*value);
                },
                Err(cause) => {
                    proof {
                        assert(first_failure(tokens@, i as int));
                    }
                    return Err(Error::ParseError { line, cause: cause.clone() });
                },
            }
            i = i + 1;
        }
        assert(values@ =~= scalars(tokens@));
        if self.width.is_none() {
            let mut j: usize = 0;
            while j < count
                invariant
                    count == values@.len(),
                    j <= count,
                    self.width is None,
                    self.columns@.len() == j,
                    forall|n: int| 0 <= n < j ==> (#[trigger] self.columns@[n])@ == seq![values@[n]],
                decreases count - j,
            {
                let mut column: Vec<T> = Vec::new();
                column.push(values[j]);
                self.columns.push(column);
                j = j + 1;
            }
            self.width = Some(count);
        } else {
            let ghost before = self.columns();
            let mut j: usize = 0;
            while j < count
                invariant
                    count == values@.len(),
                    j <= count,
                    self.width == Some(count),
                    self.columns@.len() == count,
                    before.len() == count,
                    forall|n: int|
                        0 <= n < j ==> (#[trigger] self.columns@[n])@ == before[n].push(values@[n]),
                    forall|n: int| j <= n < count ==> (#[trigger] self.columns@[n])@ == before[n],
                decreases count - j,
            {
                let held = &mut self.columns[j];
                held.push(values[j]);
                j = j + 1;
            }
        }
        proof {
            assert(final(self).extends(old(self), scalars(tokens@)));
        }
        Ok(())
    }

    /// Column `j` is the first with a sample that cannot be ordered against a neighbour.
    pub open spec fn first_unordered_column(&self, j: int) -> bool {
        &&& 0 <= j < self.columns().len()
        &&& !windows_ordered(self.columns()[j])
        &&& forall|n: int| 0 <= n < j ==> windows_ordered(#[trigger] self.columns()[n])
    }

    /// Analyzes the columns read and makes the table of them.
    ///
    /// Fails with the failure of the first column that cannot be analyzed.
    pub fn finish(self) -> (r: Result<Table<T>, Error>)
        requires
            self.wf(),
        ensures
            match r {
                Ok(table) => {
                    &&& table.wf()
                    &&& table@ == self.columns()
                    &&& obeys_order::<T>() ==> forall|j: int|
                        0 <= j < self.columns().len() ==> windows_ordered(
                            #[trigger] self.columns()[j],
                        )
                },
                Err(e) => {
                    &&& e matches Error::NonComparable { position }
                    &&& position < self.rows()
                    &&& obeys_order::<T>() ==> exists|j: int| #[trigger]
                        self.first_unordered_column(j) && first_unordered(
                            self.columns()[j],
                            position as int,
                        )
                },
            },
    {
        let ghost all = self.columns();
        let mut rest = self.columns;
        let mut done: Vec<Column<T>> = Vec::new();
        while rest.len() > 0
            invariant
                self.wf(),
                all == self.columns(),
                done@.len() + rest@.len() == all.len(),
                forall|n: int| 0 <= n < done@.len() ==> (#[trigger] done@[n]).wf(),
                forall|n: int| 0 <= n < done@.len() ==> (#[trigger] done@[n])@ == all[n],
                forall|n: int| 0 <= n < rest@.len() ==> (#[trigger] rest@[n])@ == all[done@.len() + n],
                obeys_order::<T>() ==> forall|n: int|
                    0 <= n < done@.len() ==> windows_ordered(#[trigger] all[n]),
            decreases rest@.len(),
        {
            let ghost at = done@.len() as int;
            let data = rest.remove(0);
            assert(data@ == all[at]);
            match Column::new(data) {
                Ok(column) => {
                    done.push(column);
                },
                Err(e) => {
                    proof {
                        assert(all[at].len() == self.rows());
                        if obeys_order::<T>() {
                            let position = e->NonComparable_position;
                            assert(!crate::inflection::window_ordered(all[at], position as int));
                            assert(self.first_unordered_column(at));
                        }
                    }
                    return Err(e);
                },
            }
        }
        proof {
            assert forall|j: int| 0 <= j < done@.len() implies (#[trigger] done@[j])@.len()
                == done@[0]@.len() by {
                assert(all[j].len() == self.rows());
                assert(all[0].len() == self.rows());
            }
        }
        let table = Table::new(done);
        proof {
            assert forall|j: int| 0 <= j < all.len() implies table@[j] == all[j] by {
                assert(table.column(j) == done@[j]);
            }
            assert(table@ =~= all);
        }
        Ok(table)
    }
}

} // verus!
