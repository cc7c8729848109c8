//! What a query hands to the presentation: the buckets of an attribute, and
//! the records of one bucket.

use crate::arff::{memberships, Population};
use crate::text::texts;
use vstd::prelude::*;

verus! {

/// The populations of one bucket, by what they are split by.
#[derive(Debug)]
pub enum RangeSlices {
    /// One population for every token of a categorical attribute.
    Text(Vec<Population>),
}

impl View for RangeSlices {
    type V = Seq<Seq<usize>>;

    open spec fn view(&self) -> Seq<Seq<usize>> {
        match self {
            RangeSlices::Text(list) => memberships(list@),
        }
    }
}

impl RangeSlices {
    /// The populations of a split by tokens.
    pub fn text(&self) -> (r: Option<&Vec<Population>>)
        ensures
            r matches Some(list) && memberships(list@) == self@,
    {
        match self {
            RangeSlices::Text(list) => Some(list),
        }
    }
}

/// What a bucket holds.
pub struct RangeView {
    pub label: Seq<char>,
    pub slices: Seq<Seq<usize>>,
    pub slices_len: Seq<usize>,
}

/// The size of every population of a list.
pub open spec fn sizes(slices: Seq<Seq<usize>>) -> Seq<usize> {
    Seq::new(slices.len(), |k: int| slices[k].len() as usize)
}

/// The bucket with the given label and populations.
pub open spec fn range_of(label: Seq<char>, slices: Seq<Seq<usize>>) -> RangeView {
    RangeView { label, slices, slices_len: sizes(slices) }
}

/// One bucket: its label, its populations, and the size of each.
#[derive(Debug)]
pub struct Range {
    pub label: String,
    pub slices: RangeSlices,
    pub slices_len: Vec<usize>,
}

impl View for Range {
    type V = RangeView;

    open spec fn view(&self) -> RangeView {
        RangeView { label: self.label@, slices: self.slices@, slices_len: self.slices_len@ }
    }
}

/// The buckets held by a list.
pub open spec fn range_views(v: Seq<Range>) -> Seq<RangeView> {
    Seq::new(v.len(), |i: int| v[i]@)
}

impl Range {
    /// The bucket with the given label and populations.
    pub fn new(label: String, slices: Vec<Population>) -> (r: Range)
        ensures
            r@ == range_of(label@, memberships(slices@)),
    {
        let mut slices_len: Vec<usize> = Vec::new();
        for k in 0..slices.len()
            invariant
                slices_len@ == sizes(memberships(slices@)).take(k as int),
        {
            let ghost was = slices_len@;
            slices_len.push(slices[k].0.len());
            proof {
                assert(slices_len@ =~= sizes(memberships(slices@)).take(k + 1));
            }
        }
        proof {
            let all = sizes(memberships(slices@));
            assert(all.take(all.len() as int) =~= all);
        }
        Range { label, slices: RangeSlices::Text(slices), slices_len }
    }
}

/// Gives the populations of a bucket their label.
pub fn decorate(slices: RangeSlices, label: String) -> (r: Range)
    ensures
        r@ == range_of(label@, slices@),
{
    match slices {
        RangeSlices::Text(list) => Range::new(label, list),
    }
}

/// The span of a numeric attribute that a view was made for: its bounds as
/// bit patterns, and the number of buckets that was asked for.
#[derive(Clone, Copy, Debug, PartialEq, Eq, Structural)]
pub struct NumericData {
    pub min: u32,
    pub max: u32,
    pub precision: usize,
}

/// What the view of an attribute holds.
pub struct VisuDataView {
    pub title: Seq<char>,
    pub name: Seq<char>,
    pub filename: Seq<char>,
    pub att_id: usize,
    pub classes: Seq<Seq<char>>,
    pub attributes: Seq<Seq<char>>,
    pub samples: Seq<RangeView>,
    pub numeric: bool,
    pub bounds: Option<NumericData>,
}

/// The view of one attribute against a categorical one: the buckets of the
/// attribute, each split by the tokens of the other.
#[derive(Debug)]
pub struct VisuData {
    pub title: String,
    /// The name of the attribute.
    pub name: String,
    pub filename: String,
    pub att_id: usize,
    /// The tokens of the attribute that the buckets are split by.
    pub classes: Vec<String>,
    /// The names of all attributes.
    pub attributes: Vec<String>,
    pub samples: Vec<Range>,
    /// Whether the attribute is numeric.
    pub numeric: bool,
    /// The span, where the attribute is numeric and has samples.
    pub bounds: Option<NumericData>,
}

impl View for VisuData {
    type V = VisuDataView;

    open spec fn view(&self) -> VisuDataView {
        VisuDataView {
            title: self.title@,
            name: self.name@,
            filename: self.filename@,
            att_id: self.att_id,
            classes: texts(self.classes@),
            attributes: texts(self.attributes@),
            samples: range_views(self.samples@),
            numeric: self.numeric,
            bounds: self.bounds,
        }
    }
}

/// What the view of a population holds.
pub struct PopDataView {
    pub class_description: Seq<char>,
    pub description: Seq<char>,
    pub lines: Seq<Seq<char>>,
}

/// The records of one population of one bucket, each described by a line.
#[derive(Debug)]
pub struct PopData {
    /// Which token the records hold.
    pub class_description: String,
    /// Which bucket the records lie in.
    pub description: String,
    pub lines: Vec<String>,
}

impl View for PopData {
    type V = PopDataView;

    open spec fn view(&self) -> PopDataView {
        PopDataView {
            class_description: self.class_description@,
            description: self.description@,
            lines: texts(self.lines@),
        }
    }
}

} // verus!
