//! The two queries: the view of an attribute, bucket by bucket, against a
//! categorical attribute, and the records of one population of one bucket.

use crate::arff::{
    description, memberships, position, ArffContent, AttributeSamples, Cell, Dataset, Index, Kind,
    Population, Value,
};
use crate::data::{
    range_of, range_views, NumericData, PopData, PopDataView, Range, RangeView, VisuData,
    VisuDataView,
};
use crate::divider::{round_to_divider, tidy_count, whole};
use crate::error::QueryError;
use crate::number::{order_key, same_number, Number, NumberView};
use crate::query::{
    chosen_attributes, read_attributes, read_or, read_value, value_or, value_read, Query,
    QueryView, Scale, ScaleView,
};
use crate::range::{
    buckets, class_of, first_slices, lemma_all_resolved, lemma_record_ids,
    lemma_single_value_single_bucket, lemma_sliced_holds, lemma_sliced_members,
    lemma_slices_total, numeric_ranges, record_ids, slice, sliced, slices, total_size,
};
use crate::text::{copy_texts, decimal, texts, usize_to_string};
use vstd::prelude::*;

verus! {

/// The populations, each split by the tokens of column `a` and labelled,
/// up to the first `m` of them. A population that cannot be split is a
/// fault, and the first fault is the one reported.
pub open spec fn crossed(
    populations: Seq<Seq<usize>>,
    labels: Seq<Seq<char>>,
    d: Dataset,
    a: int,
    count: nat,
    m: nat,
) -> Result<Seq<RangeView>, QueryError>
    decreases m,
{
    if m == 0 {
        Ok(Seq::empty())
    } else {
        match crossed(populations, labels, d, a, count, (m - 1) as nat) {
            Err(e) => Err(e),
            Ok(before) => match slices(populations[m - 1], d.rows, a, count) {
                Err(e) => Err(e),
                Ok(split) => Ok(before.push(range_of(labels[m - 1], split))),
            },
        }
    }
}

/// The buckets held by a list, or the fault.
pub open spec fn range_lists(r: Result<Vec<Range>, QueryError>) -> Result<Seq<RangeView>, QueryError> {
    match r {
        Ok(list) => Ok(range_views(list@)),
        Err(e) => Err(e),
    }
}

/// Splits every population by the tokens of the attribute `class_att` and
/// gives it its label.
fn cross(
    populations: &Vec<Population>,
    labels: &[String],
    content: &ArffContent,
    class_att: usize,
    n_tokens: usize,
) -> (r: Result<Vec<Range>, QueryError>)
    requires
        labels.len() == populations.len(),
    ensures
        range_lists(r) == crossed(
            memberships(populations@),
            texts(labels@),
            content@,
            class_att as int,
            n_tokens as nat,
            populations.len() as nat,
        ),
{
    let mut result: Vec<Range> = Vec::new();
    let ghost pops = memberships(populations@);
    let ghost names = texts(labels@);
    proof {
        assert(range_views(result@) =~= Seq::empty());
    }
    for i in 0..populations.len()
        invariant
            pops == memberships(populations@),
            names == texts(labels@),
            labels.len() == populations.len(),
            crossed(pops, names, content@, class_att as int, n_tokens as nat, i as nat) == Ok::<
                Seq<RangeView>,
                QueryError,
            >(range_views(result@)),
    {
        let ghost was = range_views(result@);
        match slice(&populations[i], content, class_att, n_tokens) {
            Ok(split) => {
                let range = Range::new(labels[i].clone(), split);
                result.push(range);
                proof {
                    assert(range_views(result@) =~= was.push(range@));
                }
            },
            Err(e) => {
                proof {
                    lemma_crossed_fault_stays(
                        pops,
                        names,
                        content@,
                        class_att as int,
                        n_tokens as nat,
                        (i + 1) as nat,
                        populations.len() as nat,
                    );
                }
                return Err(e);
            },
        }
    }
    Ok(result)
}

proof fn lemma_crossed_fault_stays(
    populations: Seq<Seq<usize>>,
    labels: Seq<Seq<char>>,
    d: Dataset,
    a: int,
    count: nat,
    m: nat,
    n: nat,
)
    requires
        m <= n,
        crossed(populations, labels, d, a, count, m) is Err,
    ensures
        crossed(populations, labels, d, a, count, n) == crossed(populations, labels, d, a, count, m),
    decreases n - m,
{
    if m < n {
        lemma_crossed_fault_stays(populations, labels, d, a, count, m, (n - 1) as nat);
    }
}

/// The number that a record holds in a column.
pub open spec fn number_of(d: Dataset, p: int, id: usize) -> NumberView {
    d.rows[id as int][p]->Numeric_0
}

/// The lower bound of the span over which column `p` is viewed: the one
/// given with the scale, or else the value of the lowest sample.
pub open spec fn lower(d: Dataset, p: int, data: Seq<(u32, usize)>, s: ScaleView) -> NumberView {
    match s.min {
        Some(n) => n,
        None => number_of(d, p, data[0].1),
    }
}

/// The upper bound of the span over which column `p` is viewed: the one
/// given with the scale, or else the value of the highest sample.
pub open spec fn upper(d: Dataset, p: int, data: Seq<(u32, usize)>, s: ScaleView) -> NumberView {
    match s.max {
        Some(n) => n,
        None => number_of(d, p, data[data.len() - 1].1),
    }
}

/// Whether the span over which column `p` is viewed is a single number.
pub open spec fn single_number(d: Dataset, p: int, data: Seq<(u32, usize)>, s: ScaleView) -> bool {
    order_key(lower(d, p, data, s).bits) == order_key(upper(d, p, data, s).bits)
}

/// The labels of the buckets: those of the scale, but for a span of a
/// single number, whose one bucket is labelled with that number.
pub open spec fn bucket_labels(d: Dataset, p: int, data: Seq<(u32, usize)>, s: ScaleView) -> Seq<
    Seq<char>,
> {
    if single_number(d, p, data, s) {
        seq![lower(d, p, data, s).text]
    } else {
        s.labels
    }
}

/// The buckets of the samples of column `p`. The precision given with the
/// query, 26 by default, is tidied for the span to give the number of
/// buckets. A precision of zero is a fault, unless the span is a single
/// number, for which the precision does not count.
pub open spec fn numeric_populations(
    d: Dataset,
    p: int,
    data: Seq<(u32, usize)>,
    q: QueryView,
    s: ScaleView,
) -> Result<Seq<Seq<usize>>, QueryError> {
    match value_or(q.precision, 26) {
        Err(e) => Err(e),
        Ok(precision) => if precision == 0 && !single_number(d, p, data, s) {
            Err(QueryError::NoPrecision)
        } else {
            buckets(
                data,
                lower(d, p, data, s).bits,
                upper(d, p, data, s).bits,
                tidy_count(precision as nat, whole(s.span)) as nat,
                s.low,
                s.high,
                s.slots,
            )
        },
    }
}

/// The buckets of the numeric column `p`, each split by the tokens of
/// column `c`: the samples go to their buckets, every bucket has to have
/// its label, and then every bucket is split.
pub open spec fn numeric_samples(
    d: Dataset,
    p: int,
    data: Seq<(u32, usize)>,
    c: int,
    tokens: nat,
    q: QueryView,
    s: ScaleView,
) -> Result<Seq<RangeView>, QueryError> {
    match numeric_populations(d, p, data, q, s) {
        Err(e) => Err(e),
        Ok(populations) => {
            let labels = bucket_labels(d, p, data, s);
            if labels.len() != populations.len() {
                Err(
                    QueryError::BadLabels {
                        buckets: populations.len() as usize,
                        labels: labels.len() as usize,
                    },
                )
            } else {
                crossed(populations, labels, d, c, tokens, populations.len())
            }
        },
    }
}

/// The names of the columns.
pub open spec fn names(columns: Seq<crate::arff::Column>) -> Seq<Seq<char>> {
    Seq::new(columns.len(), |i: int| columns[i].name)
}

/// The view of an attribute. The attribute to compare with has to be
/// categorical. A numeric attribute is viewed by the buckets of its span,
/// unless it has no sample; a categorical one by the population of each of
/// its tokens, labelled with the token; any other has no bucket.
pub open spec fn att_view(d: Dataset, q: QueryView, s: ScaleView) -> Result<VisuDataView, QueryError> {
    match chosen_attributes(d.columns.len(), q) {
        Err(e) => Err(e),
        Ok((p, c)) => match d.columns[c as int].kind {
            Kind::Text(tokens) => {
                let frame = VisuDataView {
                    title: d.title,
                    name: d.columns[p as int].name,
                    filename: d.filename,
                    att_id: p,
                    classes: tokens,
                    attributes: names(d.columns),
                    samples: Seq::empty(),
                    numeric: false,
                    bounds: None,
                };
                match d.indices[p as int] {
                    Index::Numeric(data) => if data.len() == 0 {
                        Ok(VisuDataView { numeric: true, ..frame })
                    } else {
                        match numeric_samples(d, p as int, data, c as int, tokens.len(), q, s) {
                            Err(e) => Err(e),
                            Ok(samples) => Ok(
                                VisuDataView {
                                    samples,
                                    numeric: true,
                                    bounds: Some(
                                        NumericData {
                                            min: lower(d, p as int, data, s).bits,
                                            max: upper(d, p as int, data, s).bits,
                                            precision: value_or(q.precision, 26)->Ok_0,
                                        },
                                    ),
                                    ..frame
                                },
                            ),
                        }
                    },
                    Index::Text(populations) => match crossed(
                        populations,
                        d.columns[p as int].kind->Text_0,
                        d,
                        c as int,
                        tokens.len(),
                        populations.len(),
                    ) {
                        Err(e) => Err(e),
                        Ok(samples) => Ok(VisuDataView { samples, ..frame }),
                    },
                    Index::BadType => Ok(frame),
                }
            },
            _ => Err(QueryError::NotCategorical { attribute: c }),
        },
    }
}

/// What a view holds, or the fault.
pub open spec fn visu_result(r: Result<VisuData, QueryError>) -> Result<VisuDataView, QueryError> {
    match r {
        Ok(data) => Ok(data@),
        Err(e) => Err(e),
    }
}

fn attribute_names(content: &ArffContent) -> (r: Vec<String>)
    ensures
        texts(r@) == names(content@.columns),
{
    let mut r: Vec<String> = Vec::new();
    for i in 0..content.attributes.len()
        invariant
            texts(r@) == names(content@.columns).take(i as int),
    {
        let ghost was = texts(r@);
        r.push(content.attributes[i].name.clone());
        proof {
            assert(texts(r@) =~= was.push(content.attributes[i as int].name@));
            assert(texts(r@) =~= names(content@.columns).take(i + 1));
        }
    }
    proof {
        assert(names(content@.columns).take(content@.columns.len() as int) =~= names(
            content@.columns,
        ));
    }
    r
}

/// Takes from the dataset the number that the sample at place `i` of a
/// numeric index stands for.
fn sample_number(content: &ArffContent, att: usize, samples: &Vec<(u32, usize)>, i: usize) -> (n:
    Number)
    requires
        att < content@.columns.len(),
        content@.indices[att as int] == Index::Numeric(samples@),
        i < samples.len(),
    ensures
        n@ == number_of(content@, att as int, samples[i as int].1),
{
    proof {
        use_type_invariant(content);
        let d = content@;
        assert(crate::index::index_fits(
            d.columns[att as int].kind,
            d.rows,
            att as int,
            d.indices[att as int],
        ));
        assert(d.rows.len() == content.data.len());
        d.lemma_numeric_index_sound(att as int, i as int);
        assert(d.rows[samples[i as int].1 as int].len() == d.columns.len());
    }
    let id = samples[i].1;
    match &content.data[id].values[att] {
        Value::Numeric(n) => n.clone(),
        _ => Number { bits: samples[i].0, text: String::new() },
    }
}

/// Prepares the view of an attribute for a query. The scale is looked at
/// only where the attribute is numeric and has samples; where the span is
/// a single number, only the bounds of the scale count.
pub fn prepare_att_view_data(content: &ArffContent, query: &Query, scale: &Scale) -> (r: Result<
    VisuData,
    QueryError,
>)
    ensures
        visu_result(r) == att_view(content@, query@, scale@),
{
    proof {
        use_type_invariant(content);
    }
    let (att_id, att_class) = match read_attributes(content, query) {
        Ok(pair) => pair,
        Err(e) => {
            return Err(e);
        },
    };
    let attr = &content.attributes[att_id];
    let class_attr = &content.attributes[att_class];
    let class_tokens = match class_attr.att_type.tokens() {
        Some(tokens) => tokens,
        None => {
            return Err(QueryError::NotCategorical { attribute: att_class });
        },
    };
    let ghost d = content@;
    proof {
        assert(d.columns[att_id as int] == attr@);
        assert(d.columns[att_class as int] == class_attr@);
        assert(d.indices[att_id as int] == content.samples[att_id as int]@);
        assert(crate::index::index_fits(
            d.columns[att_id as int].kind,
            d.rows,
            att_id as int,
            d.indices[att_id as int],
        ));
    }
    let mut numeric = false;
    let mut bounds: Option<NumericData> = None;
    let ranges: Vec<Range> = match &content.samples[att_id] {
        AttributeSamples::Numeric(samples) => {
            numeric = true;
            if samples.len() == 0 {
                let none: Vec<Range> = Vec::new();
                proof {
                    assert(range_views(none@) =~= Seq::empty());
                }
                none
            } else {
                let precision = match read_or(&query.precision, 26) {
                    Ok(precision) => precision,
                    Err(e) => {
                        return Err(e);
                    },
                };
                let min = match &scale.min {
                    Some(given) => given.clone(),
                    None => sample_number(content, att_id, samples, 0),
                };
                let max = match &scale.max {
                    Some(given) => given.clone(),
                    None => sample_number(content, att_id, samples, samples.len() - 1),
                };
                let single = same_number(min.bits, max.bits);
                if precision == 0 && !single {
                    return Err(QueryError::NoPrecision);
                }
                let n_slices = round_to_divider(precision, scale.span);
                let populations = match numeric_ranges(
                    samples,
                    min.bits,
                    max.bits,
                    n_slices,
                    scale.low,
                    scale.high,
                    &scale.slots,
                ) {
                    Ok(populations) => populations,
                    Err(e) => {
                        return Err(e);
                    },
                };
                let mut own: Vec<String> = Vec::new();
                if single {
                    own.push(min.text.clone());
                }
                let labels = if single {
                    own.as_slice()
                } else {
                    scale.labels.as_slice()
                };
                proof {
                    if single {
                        assert(texts(own@) =~= seq![min@.text]);
                    }
                    assert(texts(labels@) == bucket_labels(d, att_id as int, samples@, scale@));
                }
                if labels.len() != populations.len() {
                    return Err(
                        QueryError::BadLabels { buckets: populations.len(), labels: labels.len() },
                    );
                }
                bounds = Some(NumericData { min: min.bits, max: max.bits, precision });
                match cross(&populations, labels, content, att_class, class_tokens.len()) {
                    Ok(ranges) => ranges,
                    Err(e) => {
                        return Err(e);
                    },
                }
            }
        },
        AttributeSamples::Text(groups) => {
            match attr.att_type.tokens() {
                Some(own_tokens) => {
                    match cross(groups, own_tokens, content, att_class, class_tokens.len()) {
                        Ok(ranges) => ranges,
                        Err(e) => {
                            return Err(e);
                        },
                    }
                },
                None => Vec::new(),
            }
        },
        AttributeSamples::BadType => {
            let none: Vec<Range> = Vec::new();
            proof {
                assert(range_views(none@) =~= Seq::empty());
            }
            none
        },
    };
    Ok(
        VisuData {
            title: content.title.clone(),
            name: attr.name.clone(),
            filename: content.filename.clone(),
            att_id,
            classes: copy_texts(class_tokens),
            attributes: attribute_names(content),
            samples: ranges,
            numeric,
            bounds,
        },
    )
}

/// What `crossed` holds where it meets no fault: one bucket for every
/// population, with the label of its place and the split of the population.
pub proof fn lemma_crossed_places(
    populations: Seq<Seq<usize>>,
    labels: Seq<Seq<char>>,
    d: Dataset,
    a: int,
    count: nat,
    m: nat,
)
    requires
        crossed(populations, labels, d, a, count, m) is Ok,
    ensures
        crossed(populations, labels, d, a, count, m)->Ok_0.len() == m,
        forall|i: int| 0 <= i < m ==> (#[trigger] slices(populations[i], d.rows, a, count)) is Ok,
        forall|i: int|
            0 <= i < m ==> #[trigger] crossed(populations, labels, d, a, count, m)->Ok_0[i]
                == range_of(labels[i], slices(populations[i], d.rows, a, count)->Ok_0),
    decreases m,
{
    if m > 0 {
        lemma_crossed_places(populations, labels, d, a, count, (m - 1) as nat);
        let before = crossed(populations, labels, d, a, count, (m - 1) as nat)->Ok_0;
        let now = crossed(populations, labels, d, a, count, m)->Ok_0;
        assert forall|i: int| 0 <= i < m implies #[trigger] now[i] == range_of(
            labels[i],
            slices(populations[i], d.rows, a, count)->Ok_0,
        ) by {
            if i < m - 1 {
                assert(now[i] == before[i]);
            }
        }
    }
}

/// In the view of an attribute every bucket has one population for every
/// token of the attribute compared with, and every record in a population
/// is a record of the dataset.
pub proof fn lemma_view_populations(d: Dataset, q: QueryView, s: ScaleView, b: int, k: int, i: int)
    requires
        d.wf(),
        att_view(d, q, s) is Ok,
        0 <= b < att_view(d, q, s)->Ok_0.samples.len(),
        0 <= k < att_view(d, q, s)->Ok_0.classes.len(),
        0 <= i < att_view(d, q, s)->Ok_0.samples[b].slices[k].len(),
    ensures
        att_view(d, q, s)->Ok_0.samples[b].slices.len() == att_view(d, q, s)->Ok_0.classes.len(),
        att_view(d, q, s)->Ok_0.samples[b].slices[k][i] < d.rows.len(),
{
    let view = att_view(d, q, s)->Ok_0;
    let (p, c) = chosen_attributes(d.columns.len(), q)->Ok_0;
    let tokens = d.columns[c as int].kind->Text_0;
    match d.indices[p as int] {
        Index::Numeric(data) => {
            let populations = numeric_populations(d, p as int, data, q, s)->Ok_0;
            lemma_crossed_places(
                populations,
                bucket_labels(d, p as int, data, s),
                d,
                c as int,
                tokens.len(),
                populations.len(),
            );
            lemma_sliced_members(populations[b], d.rows, c as int, tokens.len() as int, k);
            let id = view.samples[b].slices[k][i];
            assert(view.samples[b].slices[k] == sliced(
                populations[b],
                d.rows,
                c as int,
                tokens.len() as int,
                k,
            ));
            assert(class_of(d.rows, id, c as int, tokens.len() as int) == Some(k));
        },
        Index::Text(populations) => {
            lemma_crossed_places(
                populations,
                d.columns[p as int].kind->Text_0,
                d,
                c as int,
                tokens.len(),
                populations.len(),
            );
            lemma_sliced_members(populations[b], d.rows, c as int, tokens.len() as int, k);
            let id = view.samples[b].slices[k][i];
            assert(view.samples[b].slices[k] == sliced(
                populations[b],
                d.rows,
                c as int,
                tokens.len() as int,
                k,
            ));
            assert(class_of(d.rows, id, c as int, tokens.len() as int) == Some(k));
        },
        Index::BadType => {},
    }
}

/// A numeric attribute whose samples all have the same value, viewed
/// without bounds given, against a categorical attribute for which every
/// record has a value, has exactly one bucket, and the populations of that
/// bucket hold, all together, exactly the records of the samples: whatever
/// precision is asked for, 0 included, and whatever window, buckets and
/// labels the scale proposes. `data` are the samples of the attribute
/// viewed and `tokens` the tokens of the attribute compared with.
pub proof fn lemma_identical_values_one_bucket(
    d: Dataset,
    q: QueryView,
    s: ScaleView,
    data: Seq<(u32, usize)>,
    tokens: Seq<Seq<char>>,
)
    requires
        d.wf(),
        d.rows.len() <= usize::MAX,
        chosen_attributes(d.columns.len(), q) matches Ok(pair) && d.indices[pair.0 as int]
            == Index::Numeric(data) && d.columns[pair.1 as int].kind == Kind::Text(tokens)
            && forall|r: int|
            0 <= r < d.rows.len() ==> !((#[trigger] d.rows[r])[pair.1 as int] is Missing),
        data.len() > 0,
        forall|i: int|
            0 <= i < data.len() ==> order_key((#[trigger] data[i]).0) == order_key(data[0].0),
        s.min is None,
        s.max is None,
        value_or(q.precision, 26) is Ok,
    ensures
        att_view(d, q, s) matches Ok(view) && {
            &&& view.samples.len() == 1
            &&& view.samples[0].slices.len() == tokens.len()
            &&& total_size(view.samples[0].slices) == data.len()
            &&& forall|i: int|
                #![trigger data[i]]
                0 <= i < data.len() ==> exists|k: int|
                    0 <= k < tokens.len() && (#[trigger] view.samples[0].slices[k]).contains(
                        data[i].1,
                    )
            &&& forall|k: int, j: int|
                0 <= k < tokens.len() && 0 <= j < view.samples[0].slices[k].len() ==> exists|i: int|
                    0 <= i < data.len() && (#[trigger] data[i]).1 == #[trigger] view.samples[0].slices[k][j]
        },
{
    let (p, c) = chosen_attributes(d.columns.len(), q)->Ok_0;
    let precision = value_or(q.precision, 26)->Ok_0;
    let count = tidy_count(precision as nat, whole(s.span)) as nat;
    let ids = record_ids(data, data.len());
    assert(crate::index::index_fits(d.columns[p as int].kind, d.rows, p as int, d.indices[p as int]));
    d.lemma_numeric_index_sound(p as int, 0);
    d.lemma_numeric_index_sound(p as int, data.len() - 1);
    let min = lower(d, p as int, data, s);
    let max = upper(d, p as int, data, s);
    assert(min.bits == data[0].0);
    assert(max.bits == data[data.len() - 1].0);
    assert(single_number(d, p as int, data, s));
    lemma_single_value_single_bucket(data, min.bits, max.bits, count, s.low, s.high, s.slots);
    let populations = seq![ids];
    assert(numeric_populations(d, p as int, data, q, s) == Ok::<Seq<Seq<usize>>, QueryError>(
        populations,
    ));
    let labels = bucket_labels(d, p as int, data, s);
    lemma_record_ids(data, data.len());
    assert forall|i: int| 0 <= i < ids.len() implies class_of(
        d.rows,
        #[trigger] ids[i],
        c as int,
        tokens.len() as int,
    ) is Some by {
        d.lemma_numeric_index_sound(p as int, i);
        let id = data[i].1;
        assert(ids[i] == id);
        assert(d.rows[id as int].len() == d.columns.len());
        assert(crate::index::cell_fits(d.columns[c as int].kind, d.rows[id as int][c as int]));
    }
    lemma_all_resolved(ids, d.rows, c as int, tokens.len() as int);
    lemma_slices_total(ids, d.rows, c as int, tokens.len());
    let split = slices(ids, d.rows, c as int, tokens.len())->Ok_0;
    assert(crossed(populations, labels, d, c as int, tokens.len(), 0) == Ok::<
        Seq<RangeView>,
        QueryError,
    >(Seq::empty()));
    let made = Seq::<RangeView>::empty().push(range_of(labels[0], split));
    assert(crossed(populations, labels, d, c as int, tokens.len(), 1) == Ok::<
        Seq<RangeView>,
        QueryError,
    >(made));
    let view = att_view(d, q, s)->Ok_0;
    assert(view.samples == made);
    assert(view.samples[0].slices == split);
    assert(split =~= first_slices(ids, d.rows, c as int, tokens.len() as int, tokens.len()));
    assert forall|i: int| #![trigger data[i]] 0 <= i < data.len() implies exists|k: int|
        0 <= k < tokens.len() && (#[trigger] view.samples[0].slices[k]).contains(data[i].1) by {
        let k = class_of(d.rows, ids[i], c as int, tokens.len() as int)->0;
        lemma_sliced_holds(ids, d.rows, c as int, tokens.len() as int, k, i);
        assert(view.samples[0].slices[k] == sliced(ids, d.rows, c as int, tokens.len() as int, k));
    }
    assert forall|k: int, j: int|
        0 <= k < tokens.len() && 0 <= j < view.samples[0].slices[k].len() implies exists|i: int|
        0 <= i < data.len() && (#[trigger] data[i]).1 == #[trigger] view.samples[0].slices[k][j] by {
        lemma_sliced_members(ids, d.rows, c as int, tokens.len() as int, k);
        let id = sliced(ids, d.rows, c as int, tokens.len() as int, k)[j];
        assert(ids.contains(id));
        let i = choose|i: int| 0 <= i < ids.len() && ids[i] == id;
        assert(data[i].1 == id);
    }
}

/// The bucket that a query names.
pub open spec fn slice_read(q: QueryView, count: nat) -> Result<usize, QueryError> {
    match q.slice {
        None => Err(QueryError::NoSlice),
        Some(list) => if list.len() == 0 {
            Err(QueryError::EmptySlice)
        } else {
            match value_read(list[0]) {
                Err(e) => Err(e),
                Ok(id) => if id >= count {
                    Err(QueryError::InvalidSlice { id, count: count as usize })
                } else {
                    Ok(id)
                },
            }
        },
    }
}

/// The place of the token that a query names among the given tokens.
pub open spec fn class_read(q: QueryView, tokens: Seq<Seq<char>>) -> Result<usize, QueryError> {
    match q.class {
        None => Err(QueryError::NoClass),
        Some(list) => if list.len() == 0 {
            Err(QueryError::EmptyClass)
        } else {
            match position(tokens, list[0]) {
                Some(k) => Ok(k as usize),
                None => Err(QueryError::UnknownClass),
            }
        },
    }
}

/// The view of one population: of the view of the attribute, the bucket
/// and the token that the query names. It says which token and which
/// bucket, and describes every record of the population by a line.
pub open spec fn pop_view(d: Dataset, q: QueryView, s: ScaleView) -> Result<PopDataView, QueryError> {
    match att_view(d, q, s) {
        Err(e) => Err(e),
        Ok(view) => {
            let (p, c) = chosen_attributes(d.columns.len(), q)->Ok_0;
            match slice_read(q, view.samples.len()) {
                Err(e) => Err(e),
                Ok(b) => match class_read(q, view.classes) {
                    Err(e) => Err(e),
                    Ok(k) => {
                        let members = view.samples[b as int].slices[k as int];
                        Ok(
                            PopDataView {
                                class_description: d.columns[c as int].name + " = "@
                                    + q.class->0[0],
                                description: d.columns[p as int].name + " ~ "@
                                    + view.samples[b as int].label,
                                lines: Seq::new(
                                    members.len(),
                                    |i: int| description(d.columns, d.rows[members[i] as int]),
                                ),
                            },
                        )
                    },
                },
            }
        },
    }
}

/// What a view holds, or the fault.
pub open spec fn pop_result(r: Result<PopData, QueryError>) -> Result<PopDataView, QueryError> {
    match r {
        Ok(data) => Ok(data@),
        Err(e) => Err(e),
    }
}

/// Prepares the view of one population for a query.
pub fn prepare_pop_view_data(content: &ArffContent, query: &Query, scale: &Scale) -> (r: Result<
    PopData,
    QueryError,
>)
    ensures
        pop_result(r) == pop_view(content@, query@, scale@),
{
    proof {
        use_type_invariant(content);
    }
    let data = match prepare_att_view_data(content, query, scale) {
        Ok(data) => data,
        Err(e) => {
            return Err(e);
        },
    };
    let (att_id, att_class) = match read_attributes(content, query) {
        Ok(pair) => pair,
        Err(e) => {
            return Err(e);
        },
    };
    let attr = &content.attributes[att_id];
    let class_attr = &content.attributes[att_class];
    let ghost d = content@;
    let ghost view = data@;
    proof {
        assert(d.columns[att_id as int] == attr@);
        assert(d.columns[att_class as int] == class_attr@);
    }
    let slice_id = match &query.slice {
        Some(list) => {
            if list.len() == 0 {
                return Err(QueryError::EmptySlice);
            }
            proof {
                assert(texts(list@)[0] == list[0]@);
            }
            match read_value(list[0].as_str()) {
                Ok(id) => id,
                Err(e) => {
                    return Err(e);
                },
            }
        },
        None => {
            return Err(QueryError::NoSlice);
        },
    };
    if slice_id >= data.samples.len() {
        return Err(QueryError::InvalidSlice { id: slice_id, count: data.samples.len() });
    }
    let (class, class_id) = match &query.class {
        Some(list) => {
            if list.len() == 0 {
                return Err(QueryError::EmptyClass);
            }
            proof {
                assert(texts(list@)[0] == list[0]@);
            }
            match content.get_class_id(att_class, list[0].as_str()) {
                Some(class_id) => (&list[0], class_id),
                None => {
                    return Err(QueryError::UnknownClass);
                },
            }
        },
        None => {
            return Err(QueryError::NoClass);
        },
    };
    let range = &data.samples[slice_id];
    proof {
        assert(view.samples[slice_id as int] == range@);
        reveal_strlit(" = ");
        reveal_strlit(" ~ ");
    }
    let populations = match range.slices.text() {
        Some(populations) => populations,
        None => {
            return Err(QueryError::UnknownClass);
        },
    };
    proof {
        if view.samples[slice_id as int].slices[class_id as int].len() > 0 {
            lemma_view_populations(d, query@, scale@, slice_id as int, class_id as int, 0);
        } else {
            lemma_view_slices(d, query@, scale@, slice_id as int);
        }
    }
    let members = &populations[class_id].0;
    let mut lines: Vec<String> = Vec::new();
    for i in 0..members.len()
        invariant
            d.wf(),
            d == content@,
            att_view(d, query@, scale@) == Ok::<VisuDataView, QueryError>(view),
            0 <= slice_id < view.samples.len(),
            0 <= class_id < view.classes.len(),
            members@ == view.samples[slice_id as int].slices[class_id as int],
            texts(lines@) == Seq::new(
                i as nat,
                |j: int| description(d.columns, d.rows[members@[j] as int]),
            ),
    {
        proof {
            lemma_view_populations(d, query@, scale@, slice_id as int, class_id as int, i as int);
        }
        let ghost was = texts(lines@);
        let line = content.describe_sample(members[i]);
        lines.push(line);
        proof {
            assert(texts(lines@) =~= was.push(line@));
            assert(texts(lines@) =~= Seq::new(
                (i + 1) as nat,
                |j: int| description(d.columns, d.rows[members@[j] as int]),
            ));
        }
    }
    let class_description = class_attr.name.clone().concat(" = ").concat(class.as_str());
    let description = attr.name.clone().concat(" ~ ").concat(range.label.as_str());
    Ok(PopData { class_description, description, lines })
}

/// In the view of an attribute every bucket has one population for every
/// token of the attribute compared with.
pub proof fn lemma_view_slices(d: Dataset, q: QueryView, s: ScaleView, b: int)
    requires
        d.wf(),
        att_view(d, q, s) is Ok,
        0 <= b < att_view(d, q, s)->Ok_0.samples.len(),
    ensures
        att_view(d, q, s)->Ok_0.samples[b].slices.len() == att_view(d, q, s)->Ok_0.classes.len(),
{
    let (p, c) = chosen_attributes(d.columns.len(), q)->Ok_0;
    let tokens = d.columns[c as int].kind->Text_0;
    match d.indices[p as int] {
        Index::Numeric(data) => {
            let populations = numeric_populations(d, p as int, data, q, s)->Ok_0;
            lemma_crossed_places(
                populations,
                bucket_labels(d, p as int, data, s),
                d,
                c as int,
                tokens.len(),
                populations.len(),
            );
        },
        Index::Text(populations) => {
            lemma_crossed_places(
                populations,
                d.columns[p as int].kind->Text_0,
                d,
                c as int,
                tokens.len(),
                populations.len(),
            );
        },
        Index::BadType => {},
    }
}

/// The span of the samples of the attribute that a query views: the
/// lowest and the highest value. There is none where the attribute is not
/// numeric or has no sample.
pub open spec fn extent(d: Dataset, q: QueryView) -> Result<Option<(u32, u32)>, QueryError> {
    match chosen_attributes(d.columns.len(), q) {
        Err(e) => Err(e),
        Ok((p, c)) => match d.columns[c as int].kind {
            Kind::Text(_) => match d.indices[p as int] {
                Index::Numeric(data) => if data.len() == 0 {
                    Ok(None)
                } else {
                    Ok(Some((data[0].0, data[data.len() - 1].0)))
                },
                _ => Ok(None),
            },
            _ => Err(QueryError::NotCategorical { attribute: c }),
        },
    }
}

/// Finds the span of the samples of the attribute that a query views. A
/// scale is needed for the query where there is such a span.
pub fn numeric_extent(content: &ArffContent, query: &Query) -> (r: Result<
    Option<(u32, u32)>,
    QueryError,
>)
    ensures
        r == extent(content@, query@),
{
    proof {
        use_type_invariant(content);
    }
    let (att_id, att_class) = match read_attributes(content, query) {
        Ok(pair) => pair,
        Err(e) => {
            return Err(e);
        },
    };
    proof {
        assert(content@.columns[att_class as int] == content.attributes[att_class as int]@);
        assert(content@.indices[att_id as int] == content.samples[att_id as int]@);
    }
    if content.attributes[att_class].att_type.tokens().is_none() {
        return Err(QueryError::NotCategorical { attribute: att_class });
    }
    match &content.samples[att_id] {
        AttributeSamples::Numeric(samples) => {
            if samples.len() == 0 {
                Ok(None)
            } else {
                Ok(Some((samples[0].0, samples[samples.len() - 1].0)))
            }
        },
        _ => Ok(None),
    }
}

/// The sentence that tells the fault of a query.
pub open spec fn fault_message(e: QueryError, d: Dataset, q: QueryView) -> Seq<char> {
    match e {
        QueryError::BadValue(inner) => "could not read value: "@ + inner.spec_message(),
        QueryError::InvalidAttributeId { id, count } => if count == 0 {
            "Invalid attribute id! "@ + decimal(id as nat) + ": the dataset has no attribute"@
        } else {
            "Invalid attribute id! "@ + decimal(id as nat) + " > "@ + decimal((count - 1) as nat)
        },
        QueryError::NotCategorical { attribute } => "Comparison to numeric attributes ("@ + (if attribute
            < d.columns.len() {
            d.columns[attribute as int].name
        } else {
            Seq::empty()
        }) + ") not supported"@,
        QueryError::NoPrecision => "precision must be at least 1"@,
        QueryError::UnresolvedClass { record } => "value is not text! (record "@ + decimal(
            record as nat,
        ) + ")"@,
        QueryError::NoBucket { sample } => "no bucket for sample "@ + decimal(sample as nat),
        QueryError::BadLabels { buckets, labels } => decimal(labels as nat) + " labels for "@
            + decimal(buckets as nat) + " buckets"@,
        QueryError::NoSlice => "no slice parameter"@,
        QueryError::EmptySlice => "empty slice parameter"@,
        QueryError::InvalidSlice { id, count } => "Invalid slice id! "@ + decimal(id as nat)
            + " >= "@ + decimal(count as nat),
        QueryError::NoClass => "no class parameter"@,
        QueryError::EmptyClass => "class parameter empty"@,
        QueryError::UnknownClass => "could not find class "@ + (match q.class {
            Some(list) if list.len() > 0 => list[0],
            _ => Seq::empty(),
        }),
    }
}

/// Tells the fault of a query in a sentence.
pub fn describe_fault(e: QueryError, content: &ArffContent, query: &Query) -> (m: String)
    ensures
        m@ == fault_message(e, content@, query@),
{
    match e {
        QueryError::BadValue(inner) => String::from_str("could not read value: ").concat(
            inner.message().as_str(),
        ),
        QueryError::InvalidAttributeId { id, count } => {
            let start = String::from_str("Invalid attribute id! ").concat(
                usize_to_string(id).as_str(),
            );
            if count == 0 {
                start.concat(": the dataset has no attribute")
            } else {
                start.concat(" > ").concat(usize_to_string(count - 1).as_str())
            }
        },
        QueryError::NotCategorical { attribute } => {
            let start = String::from_str("Comparison to numeric attributes (");
            let named = if attribute < content.attributes.len() {
                proof {
                    assert(content@.columns[attribute as int] == content.attributes[attribute as int]@);
                }
                start.concat(content.attributes[attribute].name.as_str())
            } else {
                proof {
                    assert(start@ + Seq::<char>::empty() =~= start@);
                }
                start
            };
            named.concat(") not supported")
        },
        QueryError::NoPrecision => String::from_str("precision must be at least 1"),
        QueryError::UnresolvedClass { record } => String::from_str(
            "value is not text! (record ",
        ).concat(usize_to_string(record).as_str()).concat(")"),
        QueryError::NoBucket { sample } => String::from_str("no bucket for sample ").concat(
            usize_to_string(sample).as_str(),
        ),
        QueryError::BadLabels { buckets, labels } => usize_to_string(labels).concat(
            " labels for ",
        ).concat(usize_to_string(buckets).as_str()).concat(" buckets"),
        QueryError::NoSlice => String::from_str("no slice parameter"),
        QueryError::EmptySlice => String::from_str("empty slice parameter"),
        QueryError::InvalidSlice { id, count } => String::from_str("Invalid slice id! ").concat(
            usize_to_string(id).as_str(),
        ).concat(" >= ").concat(usize_to_string(count).as_str()),
        QueryError::NoClass => String::from_str("no class parameter"),
        QueryError::EmptyClass => String::from_str("class parameter empty"),
        QueryError::UnknownClass => {
            let start = String::from_str("could not find class ");
            match &query.class {
                Some(list) => {
                    if list.len() > 0 {
                        proof {
                            assert(texts(list@)[0] == list[0]@);
                        }
                        start.concat(list[0].as_str())
                    } else {
                        proof {
                            assert(start@ + Seq::<char>::empty() =~= start@);
                        }
                        start
                    }
                },
                None => {
                    proof {
                        assert(start@ + Seq::<char>::empty() =~= start@);
                    }
                    start
                },
            }
        },
    }
}

} // verus!
