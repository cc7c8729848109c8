//! What can go wrong: while a dataset is loaded, and while a query is
//! answered.

use crate::text::NumeralError;
use vstd::prelude::*;

verus! {

/// Why a dataset could not be loaded. `line` counts the lines from 0.
#[derive(Clone, Copy, Debug, PartialEq, Eq, Structural)]
pub enum LoadError {
    /// A relation line gives no title.
    MissingTitle { line: usize },
    /// An attribute line gives no name.
    MissingName { line: usize },
    /// An attribute line gives no type.
    MissingType { line: usize },
    /// The type of an attribute is neither `numeric` nor `string` nor a
    /// list of tokens closed by braces.
    BadType { line: usize },
    /// A record has fewer values than the schema has attributes.
    ShortRecord { line: usize },
    /// A value of a categorical attribute is none of its tokens.
    UnknownCategory { line: usize, attribute: usize },
    /// A value of a numeric attribute is no number.
    BadNumber { line: usize, attribute: usize },
}

/// Why a query could not be answered.
#[derive(Clone, Copy, Debug, PartialEq, Eq, Structural)]
pub enum QueryError {
    /// A parameter that has to be a number is none.
    BadValue(NumeralError),
    /// An attribute id is not below the number of attributes.
    InvalidAttributeId { id: usize, count: usize },
    /// The attribute to compare with is not categorical.
    NotCategorical { attribute: usize },
    /// Zero buckets were asked for.
    NoPrecision,
    /// A record of the population has no token of the attribute to compare
    /// with.
    UnresolvedClass { record: usize },
    /// A sample inside the window has no bucket.
    NoBucket { sample: usize },
    /// The scale does not label every bucket, or labels more.
    BadLabels { buckets: usize, labels: usize },
    /// No bucket was named.
    NoSlice,
    /// The bucket parameter is empty.
    EmptySlice,
    /// The named bucket does not exist.
    InvalidSlice { id: usize, count: usize },
    /// No token was named.
    NoClass,
    /// The token parameter is empty.
    EmptyClass,
    /// The named token is none of the attribute to compare with.
    UnknownClass,
}

} // verus!
