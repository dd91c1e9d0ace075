//! Failures of loading and querying, and a plain message error.
use vstd::prelude::*;
use vstd::std_specs::convert::FromSpecImpl;

verus! {

/// Why a dataset could not be loaded or a query not be answered.
#[derive(Clone, Debug, PartialEq, Eq)]
#[allow(inconsistent_fields)]
pub enum Error {
    /// The source could not be read; `line` is the 1-based line that failed, if any.
    Io { line: Option<usize>, cause: String },
    /// A token of the 1-based `line` is no scalar.
    ParseError { line: usize, cause: String },
    /// The 1-based `line` has another number of tokens than the first row.
    InconsistentDataset { line: usize },
    /// A scalar could not be ordered against the sample at row `position`.
    NonComparable { position: usize },
}

/// An error that is its message, taken from an owned string or a string literal.
#[derive(Debug)]
pub struct StrErr(pub String);

impl View for StrErr {
    type V = Seq<char>;

    open spec fn view(&self) -> Seq<char> {
        self.0@
    }
}

impl StrErr {
    /// The message.
    pub fn message(&self) -> (r: &str)
        ensures
            r@ == self@,
    {
        self.0.as_str()
    }
}

impl FromSpecImpl<String> for StrErr {
    open spec fn obeys_from_spec() -> bool {
        true
    }

    open spec fn from_spec(v: String) -> StrErr {
        StrErr(v)
    }
}

impl From<String> for StrErr {
    /// Makes an error of its message.
    fn from(err_str: String) -> (r: StrErr)
        ensures
            r@ == err_str@,
    {
        StrErr(err_str)
    }
}

/// Of a string literal an owned copy is made, which no expression of a
/// contract can name: what comes of it is stated by `from` itself.
impl FromSpecImpl<&'static str> for StrErr {
    open spec fn obeys_from_spec() -> bool {
        false
    }

    open spec fn from_spec(v: &'static str) -> StrErr {
        arbitrary()
    }
}

impl From<&'static str> for StrErr {
    /// Makes an error of its message.
    fn from(err_str: &'static str) -> (r: StrErr)
        ensures
            r@ == err_str@,
    {
        StrErr(err_str.to_owned())
    }
}

} // verus!
