//! The parameters of a query, and how they are read.
//!
//! Numbers reach the queries as bit patterns. What takes arithmetic on the
//! numbers themselves is handed in with the query, as a `Scale`: the bounds
//! that the query gives for the span, the width of the span where it is a
//! whole number, the window of the buckets, the bucket of every sample, and
//! the label of every bucket.

use crate::arff::ArffContent;
use crate::divider::{round_to_divider, tidy_count, whole};
use crate::error::QueryError;
use crate::number::{Number, NumberView};
use crate::text::{numeral_value, read_usize, texts};
use vstd::prelude::*;

verus! {

/// The values given for one parameter.
pub open spec fn given(values: Option<Vec<String>>) -> Option<Seq<Seq<char>>> {
    match values {
        Some(list) => Some(texts(list@)),
        None => None,
    }
}

/// What a query holds.
pub struct QueryView {
    pub primary: Option<Seq<Seq<char>>>,
    pub secondary: Option<Seq<Seq<char>>>,
    pub precision: Option<Seq<Seq<char>>>,
    pub slice: Option<Seq<Seq<char>>>,
    pub class: Option<Seq<Seq<char>>>,
}

/// The parameters of a query as they were received: for each parameter the
/// values given under its name, `None` where the name does not occur.
#[derive(Debug)]
pub struct Query {
    /// The id of the attribute to view; the first attribute by default.
    pub primary: Option<Vec<String>>,
    /// The id of the categorical attribute to compare with; the last
    /// attribute by default.
    pub secondary: Option<Vec<String>>,
    /// The number of buckets asked for; 26 by default.
    pub precision: Option<Vec<String>>,
    /// The bucket whose records are asked for.
    pub slice: Option<Vec<String>>,
    /// The token whose records are asked for.
    pub class: Option<Vec<String>>,
}

impl View for Query {
    type V = QueryView;

    open spec fn view(&self) -> QueryView {
        QueryView {
            primary: given(self.primary),
            secondary: given(self.secondary),
            precision: given(self.precision),
            slice: given(self.slice),
            class: given(self.class),
        }
    }
}

/// What a scale holds.
pub struct ScaleView {
    pub min: Option<NumberView>,
    pub max: Option<NumberView>,
    pub span: Option<usize>,
    pub low: u32,
    pub high: u32,
    pub slots: Seq<usize>,
    pub labels: Seq<Seq<char>>,
}

/// The measures of a numeric view, worked out on the numbers themselves.
#[derive(Debug)]
pub struct Scale {
    /// The lower bound of the span, where the query gives one; the lowest
    /// sample is the bound where it gives none.
    pub min: Option<Number>,
    /// The upper bound of the span, where the query gives one; the highest
    /// sample is the bound where it gives none.
    pub max: Option<Number>,
    /// The width of the span where it is a whole number.
    pub span: Option<usize>,
    /// The lower bound of the window: half a bucket below the span.
    pub low: u32,
    /// The upper bound of the window: half a bucket above the span.
    pub high: u32,
    /// The bucket of every sample of the index, place by place.
    pub slots: Vec<usize>,
    /// The label of every bucket. A span of a single number needs none:
    /// its one bucket is labelled with the number.
    pub labels: Vec<String>,
}

/// What a bound holds, if there is one.
pub open spec fn bound(n: Option<Number>) -> Option<NumberView> {
    match n {
        Some(n) => Some(n@),
        None => None,
    }
}

impl View for Scale {
    type V = ScaleView;

    open spec fn view(&self) -> ScaleView {
        ScaleView {
            min: bound(self.min),
            max: bound(self.max),
            span: self.span,
            low: self.low,
            high: self.high,
            slots: self.slots@,
            labels: texts(self.labels@),
        }
    }
}

/// The number that a parameter value denotes.
pub open spec fn value_read(s: Seq<char>) -> Result<usize, QueryError> {
    match numeral_value(s) {
        Ok(n) => Ok(n as usize),
        Err(e) => Err(QueryError::BadValue(e)),
    }
}

/// The id, where it is below the count of the attributes; a fault
/// otherwise.
pub open spec fn id_checked(id: usize, count: nat) -> Result<usize, QueryError> {
    if id >= count {
        Err(QueryError::InvalidAttributeId { id, count: count as usize })
    } else {
        Ok(id)
    }
}

/// The attribute id that a parameter value denotes.
pub open spec fn id_read(s: Seq<char>, count: nat) -> Result<usize, QueryError> {
    match value_read(s) {
        Ok(id) => id_checked(id, count),
        Err(e) => Err(e),
    }
}

/// The number given for a parameter: the first value, or the default where
/// there is none.
pub open spec fn value_or(values: Option<Seq<Seq<char>>>, default: usize) -> Result<
    usize,
    QueryError,
> {
    match first_given(values) {
        Some(value) => value_read(value),
        None => Ok(default),
    }
}

/// The attribute id given for a parameter: the first value; the first
/// attribute where the name occurs without a value; the default where the
/// name does not occur.
pub open spec fn id_or(values: Option<Seq<Seq<char>>>, default: usize, count: nat) -> Result<
    usize,
    QueryError,
> {
    match values {
        Some(list) => if list.len() > 0 {
            id_read(list[0], count)
        } else {
            id_checked(0, count)
        },
        None => id_checked(default, count),
    }
}

/// The attribute to view and the attribute to compare with, of `count`
/// attributes: by default the first and the last. A fault in the first
/// comes before one in the second.
pub open spec fn chosen_attributes(count: nat, q: QueryView) -> Result<(usize, usize), QueryError> {
    let last = if count == 0 {
        0usize
    } else {
        (count - 1) as usize
    };
    match id_or(q.primary, 0, count) {
        Err(e) => Err(e),
        Ok(primary) => match id_or(q.secondary, last, count) {
            Err(e) => Err(e),
            Ok(secondary) => Ok((primary, secondary)),
        },
    }
}

/// Reads a number from a parameter value.
pub fn read_value(s: &str) -> (r: Result<usize, QueryError>)
    ensures
        r == value_read(s@),
{
    match read_usize(s) {
        Ok(n) => Ok(n),
        Err(e) => Err(QueryError::BadValue(e)),
    }
}

/// Reads the id of an attribute from a parameter value.
pub fn read_id(s: &str, content: &ArffContent) -> (r: Result<usize, QueryError>)
    ensures
        r == id_read(s@, content@.columns.len()),
{
    let id = match read_value(s) {
        Ok(id) => id,
        Err(e) => {
            return Err(e);
        },
    };
    if id >= content.attributes.len() {
        Err(QueryError::InvalidAttributeId { id, count: content.attributes.len() })
    } else {
        Ok(id)
    }
}

/// The value that counts for a parameter: the first one given.
pub open spec fn first_given(values: Option<Seq<Seq<char>>>) -> Option<Seq<char>> {
    match values {
        Some(list) if list.len() > 0 => Some(list[0]),
        _ => None,
    }
}

/// Picks the value that counts for a parameter: the first one given.
pub fn first_value(values: &Option<Vec<String>>) -> (r: Option<&String>)
    ensures
        match r {
            Some(value) => first_given(given(*values)) == Some(value@),
            None => first_given(given(*values)) is None,
        },
{
    match values {
        None => None,
        Some(list) => {
            if list.len() == 0 {
                None
            } else {
                proof {
                    assert(texts(list@)[0] == list[0]@);
                }
                Some(&list[0])
            }
        },
    }
}

/// Reads the number given for a parameter, or takes the default.
pub fn read_or(values: &Option<Vec<String>>, default: usize) -> (r: Result<usize, QueryError>)
    ensures
        r == value_or(given(*values), default),
{
    match first_value(values) {
        None => Ok(default),
        Some(value) => read_value(value.as_str()),
    }
}

/// Reads the attribute id given for a parameter, or takes the default.
fn read_id_or(values: &Option<Vec<String>>, default: usize, content: &ArffContent) -> (r: Result<
    usize,
    QueryError,
>)
    ensures
        r == id_or(given(*values), default, content@.columns.len()),
{
    let count = content.attributes.len();
    let id = match values {
        None => default,
        Some(list) => {
            if list.len() == 0 {
                0
            } else {
                proof {
                    assert(texts(list@)[0] == list[0]@);
                }
                return read_id(list[0].as_str(), content);
            }
        },
    };
    if id >= count {
        Err(QueryError::InvalidAttributeId { id, count })
    } else {
        Ok(id)
    }
}

/// Finds the attribute to view and the attribute to compare with.
pub fn read_attributes(content: &ArffContent, query: &Query) -> (r: Result<(usize, usize), QueryError>)
    ensures
        r == chosen_attributes(content@.columns.len(), query@),
        r matches Ok(pair) ==> pair.0 < content@.columns.len() && pair.1
            < content@.columns.len(),
{
    let count = content.attributes.len();
    let primary = match read_id_or(&query.primary, 0, content) {
        Ok(id) => id,
        Err(e) => {
            return Err(e);
        },
    };
    let last = if count == 0 {
        0
    } else {
        count - 1
    };
    match read_id_or(&query.secondary, last, content) {
        Ok(secondary) => Ok((primary, secondary)),
        Err(e) => Err(e),
    }
}

/// The number of buckets to make: the precision given with the query, 26
/// by default, tidied for the span. A precision of zero is a fault.
pub open spec fn wanted_count(q: QueryView, span: Option<usize>) -> Result<usize, QueryError> {
    match value_or(q.precision, 26) {
        Err(e) => Err(e),
        Ok(precision) => if precision == 0 {
            Err(QueryError::NoPrecision)
        } else {
            Ok(tidy_count(precision as nat, whole(span)) as usize)
        },
    }
}

/// Works out the number of buckets to make for a query over a span; `span`
/// is the width of the span where it is a whole number.
pub fn bucket_count(query: &Query, span: Option<usize>) -> (r: Result<usize, QueryError>)
    ensures
        r == wanted_count(query@, span),
{
    match read_or(&query.precision, 26) {
        Err(e) => Err(e),
        Ok(precision) => {
            if precision == 0 {
                Err(QueryError::NoPrecision)
            } else {
                Ok(round_to_divider(precision, span))
            }
        },
    }
}

} // verus!
