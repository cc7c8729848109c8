use varf::arff::{ArffContent, AttributeSamples};
use varf::data::{decorate, Range, RangeSlices, VisuData};
use varf::arff::Population;
use varf::error::QueryError;
use varf::loader::Draft;
use varf::number::Number;
use varf::text::NumeralError;
use varf::query::{
    bucket_count, first_value, read_attributes, read_id, read_or, read_value, Query, Scale,
};
use varf::visu::{describe_fault, numeric_extent, prepare_att_view_data, prepare_pop_view_data};

fn number(token: &str) -> Option<Number> {
    token.parse::<f32>().ok().map(|f| Number { bits: f.to_bits(), text: format!("{}", f) })
}

fn load(text: &str) -> ArffContent {
    let lines: Vec<String> = text.lines().map(|l| l.to_string()).collect();
    let draft = Draft::read(&lines).unwrap();
    let numbers: Vec<Option<Number>> =
        draft.numeric_tokens().iter().map(|t| number(t)).collect();
    ArffContent::new("test.arff", draft, &numbers).unwrap()
}

fn given(value: &str) -> Option<Vec<String>> {
    Some(vec![value.to_string()])
}

fn query() -> Query {
    Query { primary: None, secondary: None, precision: None, slice: None, class: None }
}

fn no_scale() -> Scale {
    Scale { min: None, max: None, span: None, low: 0, high: 0, slots: vec![], labels: vec![] }
}

fn bound(value: f32) -> Number {
    Number { bits: value.to_bits(), text: format!("{}", value) }
}

/// The measures of a view over the span from `min` to `max`, each the
/// lowest or highest sample where it is not given.
fn scale(content: &ArffContent, q: &Query, min: Option<f32>, max: Option<f32>) -> Scale {
    let (first, last) = match numeric_extent(content, q) {
        Ok(Some(extent)) => extent,
        _ => return no_scale(),
    };
    let (primary, _) = read_attributes(content, q).unwrap();
    let data = match &content.samples()[primary] {
        AttributeSamples::Numeric(list) => list,
        _ => return no_scale(),
    };
    let given_min = min;
    let given_max = max;
    let min = min.unwrap_or(f32::from_bits(first));
    let max = max.unwrap_or(f32::from_bits(last));
    let span = max - min;
    let whole = if (span - span.round()).abs() <= 0.0001 && span.round() >= 1.0 {
        Some(span.round() as usize)
    } else {
        None
    };
    let bounds =
        || Scale { min: given_min.map(bound), max: given_max.map(bound), span: whole, ..no_scale() };
    if min == max {
        return bounds();
    }
    let count = match bucket_count(q, whole) {
        Ok(count) => count,
        Err(_) => return bounds(),
    };
    if count == 1 {
        return Scale { labels: vec![format!("{}", (min + max) / 2.0)], ..bounds() };
    }
    let width = span / (count - 1) as f32;
    let low = min - width / 2.0;
    let high = max + width / 2.0;
    let step = (high - low) / count as f32;
    Scale {
        span: whole,
        low: low.to_bits(),
        high: high.to_bits(),
        slots: data.iter().map(|&(bits, _)| ((f32::from_bits(bits) - low) / step) as usize).collect(),
        labels: (0..count)
            .map(|i| {
                let from = min + width * i as f32;
                let to = min + width * (i + 1) as f32;
                format!("{}", (from + to) / 2.0)
            })
            .collect(),
        ..bounds()
    }
}

fn view(content: &ArffContent, q: &Query) -> Result<VisuData, QueryError> {
    prepare_att_view_data(content, q, &scale(content, q, None, None))
}

fn sizes(data: &VisuData) -> Vec<Vec<usize>> {
    data.samples.iter().map(|r| r.slices_len.clone()).collect()
}

fn members(range: &Range) -> Vec<Vec<usize>> {
    range.slices.text().unwrap().iter().map(|p| p.0.clone()).collect()
}

const FOUR: &str = "@relation four\n@attribute x numeric\n@attribute class {A,B}\n@data\n1.0,A\n2.0,A\n3.0,B\n4.0,B\n";

#[test]
fn end_to_end_breakdown() {
    let content = load(FOUR);
    let q = Query { precision: given("2"), ..query() };
    let data = view(&content, &q).unwrap();
    assert_eq!(data.samples.len(), 2);
    assert_eq!(sizes(&data), vec![vec![2, 0], vec![0, 2]]);
    let total: usize = sizes(&data).iter().flatten().sum();
    assert_eq!(total, 4);
    let class_a: usize = sizes(&data).iter().map(|s| s[0]).sum();
    let class_b: usize = sizes(&data).iter().map(|s| s[1]).sum();
    assert_eq!((class_a, class_b), (2, 2));
    assert_eq!(members(&data.samples[0]), vec![vec![0, 1], vec![]]);
    assert_eq!(members(&data.samples[1]), vec![vec![], vec![2, 3]]);
}

#[test]
fn the_view_names_what_it_shows() {
    let content = load(FOUR);
    let q = Query { precision: given("2"), ..query() };
    let data = view(&content, &q).unwrap();
    assert_eq!(data.title, "four");
    assert_eq!(data.name, "x");
    assert_eq!(data.filename, "test.arff");
    assert_eq!(data.att_id, 0);
    assert_eq!(data.classes, vec!["A", "B"]);
    assert_eq!(data.attributes, vec!["x", "class"]);
    assert!(data.numeric);
    let bounds = data.bounds.unwrap();
    assert_eq!(f32::from_bits(bounds.min), 1.0);
    assert_eq!(f32::from_bits(bounds.max), 4.0);
    assert_eq!(bounds.precision, 2);
    assert_eq!(data.samples[0].label, "2.5");
    assert_eq!(data.samples[1].label, "5.5");
}

#[test]
fn the_default_precision_is_26() {
    let content = load(FOUR);
    let data = view(&content, &query()).unwrap();
    assert_eq!(data.bounds.unwrap().precision, 26);
    // the span is 3: its divisors are 1 and 3, too far from 26
    assert_eq!(data.samples.len(), 26);
    let total: usize = sizes(&data).iter().flatten().sum();
    assert_eq!(total, 4);
    assert_eq!(sizes(&data)[0], vec![1, 0]);
    assert_eq!(sizes(&data)[25], vec![0, 1]);
}

#[test]
fn the_bucket_count_snaps_to_a_divisor_of_the_span() {
    let content = load("@attribute x numeric\n@attribute c {a}\n@data\n0,a\n12,a\n3,a\n");
    let q = Query { precision: given("10"), ..query() };
    assert_eq!(bucket_count(&q, Some(12)), Ok(13));
    let data = view(&content, &q).unwrap();
    assert_eq!(data.samples.len(), 13);
    assert_eq!(data.bounds.unwrap().precision, 10);
    // thirteen buckets of width one, centred on 0, 1, ..., 12
    let filled: Vec<usize> =
        (0..13).filter(|&k| data.samples[k].slices_len[0] > 0).collect();
    assert_eq!(filled, vec![0, 3, 12]);
}

#[test]
fn bucket_counts() {
    assert_eq!(bucket_count(&query(), None), Ok(26));
    assert_eq!(bucket_count(&query(), Some(26)), Ok(27));
    assert_eq!(bucket_count(&Query { precision: given("10"), ..query() }, None), Ok(10));
    assert_eq!(bucket_count(&Query { precision: Some(vec![]), ..query() }, None), Ok(26));
    assert_eq!(
        bucket_count(&Query { precision: given("0"), ..query() }, None),
        Err(QueryError::NoPrecision)
    );
    assert_eq!(
        bucket_count(&Query { precision: given("ten"), ..query() }, None),
        Err(QueryError::BadValue(NumeralError::InvalidDigit))
    );
}

#[test]
fn identical_values_make_one_bucket() {
    let content = load("@attribute x numeric\n@attribute c {a,b}\n@data\n7,a\n7,b\n7,a\n7,a\n");
    for precision in ["0", "1", "2", "5", "26", "100"] {
        let q = Query { precision: given(precision), ..query() };
        let data = view(&content, &q).unwrap();
        assert_eq!(data.samples.len(), 1);
        assert_eq!(members(&data.samples[0]), vec![vec![0, 2, 3], vec![1]]);
        assert_eq!(data.samples[0].label, "7");
    }
}

#[test]
fn identical_values_need_nothing_of_the_scale() {
    let content = load("@attribute x numeric\n@attribute c {a,b}\n@data\n2.50,a\n2.5,b\n2.5,a\n");
    for precision in ["0", "1", "3", "26"] {
        let q = Query { precision: given(precision), ..query() };
        let odd = Scale {
            span: Some(12),
            low: 1,
            high: 2,
            slots: vec![9, 9, 9],
            labels: vec!["x".to_string(), "y".to_string()],
            ..no_scale()
        };
        for s in [no_scale(), odd] {
            let data = prepare_att_view_data(&content, &q, &s).unwrap();
            assert_eq!(data.samples.len(), 1);
            assert_eq!(data.samples[0].label, "2.5");
            assert_eq!(members(&data.samples[0]), vec![vec![0, 2], vec![1]]);
            let total: usize = data.samples[0].slices_len.iter().sum();
            assert_eq!(total, 3);
            let bounds = data.bounds.unwrap();
            assert_eq!(f32::from_bits(bounds.min), 2.5);
            assert_eq!(f32::from_bits(bounds.max), 2.5);
        }
    }
}

#[test]
fn bounds_that_are_one_number_make_one_bucket() {
    let content = load(FOUR);
    let q = Query { precision: given("5"), ..query() };
    let s = scale(&content, &q, Some(2.0), Some(2.0));
    let data = prepare_att_view_data(&content, &q, &s).unwrap();
    assert_eq!(data.samples.len(), 1);
    assert_eq!(data.samples[0].label, "2");
    assert_eq!(members(&data.samples[0]), vec![vec![1], vec![]]);
}

#[test]
fn a_bound_not_given_is_the_lowest_or_highest_sample() {
    let content = load(FOUR);
    let q = Query { precision: given("2"), ..query() };
    let s = scale(&content, &q, None, Some(3.0));
    let data = prepare_att_view_data(&content, &q, &s).unwrap();
    assert_eq!(f32::from_bits(data.bounds.unwrap().min), 1.0);
    assert_eq!(f32::from_bits(data.bounds.unwrap().max), 3.0);
    let s = scale(&content, &q, Some(2.0), None);
    let data = prepare_att_view_data(&content, &q, &s).unwrap();
    assert_eq!(f32::from_bits(data.bounds.unwrap().min), 2.0);
    assert_eq!(f32::from_bits(data.bounds.unwrap().max), 4.0);
}

#[test]
fn a_precision_of_one_makes_one_bucket_of_the_whole_span() {
    let content = load(FOUR);
    let q = Query { precision: given("1"), ..query() };
    let data = view(&content, &q).unwrap();
    assert_eq!(data.samples.len(), 1);
    assert_eq!(members(&data.samples[0]), vec![vec![0, 1], vec![2, 3]]);
}

#[test]
fn a_numeric_attribute_without_samples_has_no_bucket() {
    let content = load("@attribute x numeric\n@attribute c {a,b}\n@data\n?,a\n?,b\n");
    let data = view(&content, &query()).unwrap();
    assert!(data.numeric);
    assert!(data.bounds.is_none());
    assert!(data.samples.is_empty());
}

#[test]
fn given_bounds_narrow_the_view() {
    let content = load(FOUR);
    let q = Query { precision: given("2"), ..query() };
    let s = scale(&content, &q, Some(2.0), Some(3.0));
    let data = prepare_att_view_data(&content, &q, &s).unwrap();
    // a width of 1 and a window from 1.5 to 3.5
    assert_eq!(data.samples.len(), 2);
    assert_eq!(members(&data.samples[0]), vec![vec![1], vec![]]);
    assert_eq!(members(&data.samples[1]), vec![vec![], vec![2]]);
    assert_eq!(f32::from_bits(data.bounds.unwrap().min), 2.0);
    assert_eq!(f32::from_bits(data.bounds.unwrap().max), 3.0);
}

#[test]
fn a_categorical_attribute_is_viewed_token_by_token() {
    let content = load("@attribute kind {x,y,z}\n@attribute class {A,B}\n@data\nx,A\ny,B\nx,B\nx,A\n?,A\n");
    let data = view(&content, &query()).unwrap();
    assert!(!data.numeric);
    assert!(data.bounds.is_none());
    assert_eq!(data.samples.len(), 3);
    assert_eq!(data.samples[0].label, "x");
    assert_eq!(data.samples[1].label, "y");
    assert_eq!(data.samples[2].label, "z");
    assert_eq!(members(&data.samples[0]), vec![vec![0, 3], vec![2]]);
    assert_eq!(members(&data.samples[1]), vec![vec![], vec![1]]);
    assert_eq!(members(&data.samples[2]), vec![vec![], vec![]]);
    assert_eq!(sizes(&data), vec![vec![2, 1], vec![0, 1], vec![0, 0]]);
}

#[test]
fn an_attribute_can_be_viewed_against_itself() {
    let content = load("@attribute class {A,B}\n@data\nA\nB\nA\n");
    let data = view(&content, &query()).unwrap();
    assert_eq!(sizes(&data), vec![vec![2, 0], vec![0, 1]]);
}

#[test]
fn a_free_text_attribute_has_no_bucket() {
    let content = load("@attribute s string\n@attribute class {A,B}\n@data\nu,A\nv,B\n");
    let data = view(&content, &query()).unwrap();
    assert!(!data.numeric);
    assert!(data.samples.is_empty());
    assert_eq!(data.name, "s");
}

#[test]
fn attributes_are_chosen_by_id() {
    let content = load("@attribute x numeric\n@attribute a {p,q}\n@attribute b {r,s,t}\n@data\n1,p,r\n2,q,t\n");
    let q = Query { primary: given("1"), secondary: given("2"), ..query() };
    let data = view(&content, &q).unwrap();
    assert_eq!(data.att_id, 1);
    assert_eq!(data.name, "a");
    assert_eq!(data.classes, vec!["r", "s", "t"]);
    assert_eq!(sizes(&data), vec![vec![1, 0, 0], vec![0, 0, 1]]);
    assert_eq!(read_attributes(&content, &q), Ok((1, 2)));
    assert_eq!(read_attributes(&content, &query()), Ok((0, 2)));
    let named = Query { primary: Some(vec![]), secondary: Some(vec![]), ..query() };
    assert_eq!(read_attributes(&content, &named), Ok((0, 0)));
}

#[test]
fn an_attribute_id_out_of_range_is_a_fault() {
    let content = load(FOUR);
    let q = Query { primary: given("2"), ..query() };
    assert_eq!(view(&content, &q).err(), Some(QueryError::InvalidAttributeId { id: 2, count: 2 }));
    let q = Query { secondary: given("7"), ..query() };
    assert_eq!(view(&content, &q).err(), Some(QueryError::InvalidAttributeId { id: 7, count: 2 }));
    assert_eq!(read_id("1", &content), Ok(1));
    assert_eq!(read_id("2", &content), Err(QueryError::InvalidAttributeId { id: 2, count: 2 }));
}

#[test]
fn a_dataset_without_attributes_has_no_view() {
    let content = load("@relation none\n@data\n");
    assert_eq!(
        view(&content, &query()).err(),
        Some(QueryError::InvalidAttributeId { id: 0, count: 0 })
    );
}

#[test]
fn a_parameter_that_is_no_number_is_a_fault() {
    let content = load(FOUR);
    let q = Query { primary: given("first"), ..query() };
    assert_eq!(view(&content, &q).err(), Some(QueryError::BadValue(NumeralError::InvalidDigit)));
    let q = Query { secondary: given(""), ..query() };
    assert_eq!(view(&content, &q).err(), Some(QueryError::BadValue(NumeralError::Empty)));
    let q = Query { precision: given("99999999999999999999999"), ..query() };
    assert_eq!(view(&content, &q).err(), Some(QueryError::BadValue(NumeralError::TooLarge)));
    assert_eq!(read_value("12"), Ok(12));
    assert_eq!(read_value("x"), Err(QueryError::BadValue(NumeralError::InvalidDigit)));
    assert_eq!(read_or(&None, 5), Ok(5));
    assert_eq!(read_or(&Some(vec![]), 5), Ok(5));
    assert_eq!(read_or(&given("8"), 5), Ok(8));
    assert_eq!(read_or(&given("-8"), 5), Err(QueryError::BadValue(NumeralError::InvalidDigit)));
}

#[test]
fn the_value_of_a_parameter_is_the_first_one_given() {
    assert_eq!(first_value(&None), None);
    assert_eq!(first_value(&Some(vec![])), None);
    assert_eq!(first_value(&given("a")), Some(&"a".to_string()));
    assert_eq!(
        first_value(&Some(vec!["b".to_string(), "c".to_string()])),
        Some(&"b".to_string())
    );
}

#[test]
fn only_the_first_value_of_a_parameter_counts() {
    let content = load(FOUR);
    let q = Query { primary: Some(vec!["0".to_string(), "zzz".to_string()]), ..query() };
    assert!(view(&content, &q).is_ok());
}

#[test]
fn comparing_with_an_attribute_that_is_not_categorical_is_a_fault() {
    let content = load(FOUR);
    let q = Query { primary: given("1"), secondary: given("0"), ..query() };
    assert_eq!(view(&content, &q).err(), Some(QueryError::NotCategorical { attribute: 0 }));
    assert_eq!(numeric_extent(&content, &q), Err(QueryError::NotCategorical { attribute: 0 }));
}

#[test]
fn a_precision_of_zero_is_a_fault() {
    let content = load(FOUR);
    let q = Query { precision: given("0"), ..query() };
    assert_eq!(view(&content, &q).err(), Some(QueryError::NoPrecision));
}

#[test]
fn a_record_without_class_is_a_fault() {
    let content = load("@attribute x numeric\n@attribute class {A,B}\n@data\n1,A\n2,?\n3,B\n");
    let q = Query { precision: given("3"), ..query() };
    assert_eq!(view(&content, &q).err(), Some(QueryError::UnresolvedClass { record: 1 }));
}

#[test]
fn a_scale_has_to_label_every_bucket() {
    let content = load(FOUR);
    let q = Query { precision: given("2"), ..query() };
    let mut s = scale(&content, &q, None, None);
    s.labels.pop();
    assert_eq!(
        prepare_att_view_data(&content, &q, &s).err(),
        Some(QueryError::BadLabels { buckets: 2, labels: 1 })
    );
}

#[test]
fn a_scale_has_to_give_every_sample_in_the_window_a_bucket() {
    let content = load(FOUR);
    let q = Query { precision: given("2"), ..query() };
    let mut s = scale(&content, &q, None, None);
    s.slots[2] = 2;
    assert_eq!(
        prepare_att_view_data(&content, &q, &s).err(),
        Some(QueryError::NoBucket { sample: 2 })
    );
}

#[test]
fn the_span_of_a_view() {
    let content = load("@attribute x numeric\n@attribute c {a}\n@data\n3,a\n-1,a\n?,a\n2,a\n");
    let extent = numeric_extent(&content, &query()).unwrap().unwrap();
    assert_eq!((f32::from_bits(extent.0), f32::from_bits(extent.1)), (-1.0, 3.0));
    let q = Query { primary: given("1"), ..query() };
    assert_eq!(numeric_extent(&content, &q), Ok(None));
    let empty = load("@attribute x numeric\n@attribute c {a}\n@data\n?,a\n");
    assert_eq!(numeric_extent(&empty, &query()), Ok(None));
}

const NAMED: &str = "@relation named\n@attribute x numeric\n@attribute id.ignore string\n@attribute class {A,B}\n@data\n1.0,one,A\n2.0,two,A\n3.0,?,B\n4.0,four,B\n";

fn pop_query(slice: &str, class: &str) -> Query {
    Query { precision: given("2"), slice: given(slice), class: given(class), ..query() }
}

#[test]
fn the_records_of_a_population_are_described() {
    let content = load(NAMED);
    let q = pop_query("0", "A");
    let data = prepare_pop_view_data(&content, &q, &scale(&content, &q, None, None)).unwrap();
    assert_eq!(data.class_description, "class = A");
    assert_eq!(data.description, "x ~ 2.5");
    assert_eq!(data.lines, vec!["one", "two"]);
    let q = pop_query("1", "B");
    let data = prepare_pop_view_data(&content, &q, &scale(&content, &q, None, None)).unwrap();
    assert_eq!(data.class_description, "class = B");
    assert_eq!(data.description, "x ~ 5.5");
    assert_eq!(data.lines, vec!["3,?,B,", "four"]);
    let q = pop_query("1", "A");
    let data = prepare_pop_view_data(&content, &q, &scale(&content, &q, None, None)).unwrap();
    assert!(data.lines.is_empty());
}

#[test]
fn a_population_of_a_categorical_view() {
    let content = load("@attribute kind {x,y}\n@attribute class {A,B}\n@data\nx,A\ny,B\nx,B\n");
    let q = Query { slice: given("0"), class: given("B"), ..query() };
    let data = prepare_pop_view_data(&content, &q, &no_scale()).unwrap();
    assert_eq!(data.class_description, "class = B");
    assert_eq!(data.description, "kind ~ x");
    assert_eq!(data.lines, vec!["x,B,"]);
}

#[test]
fn a_population_needs_a_bucket() {
    let content = load(NAMED);
    let s = |q: &Query| scale(&content, q, None, None);
    let q = Query { slice: None, ..pop_query("0", "A") };
    assert_eq!(prepare_pop_view_data(&content, &q, &s(&q)).err(), Some(QueryError::NoSlice));
    let q = Query { slice: Some(vec![]), ..pop_query("0", "A") };
    assert_eq!(prepare_pop_view_data(&content, &q, &s(&q)).err(), Some(QueryError::EmptySlice));
    let q = pop_query("x", "A");
    assert_eq!(
        prepare_pop_view_data(&content, &q, &s(&q)).err(),
        Some(QueryError::BadValue(NumeralError::InvalidDigit))
    );
    let q = pop_query("2", "A");
    assert_eq!(
        prepare_pop_view_data(&content, &q, &s(&q)).err(),
        Some(QueryError::InvalidSlice { id: 2, count: 2 })
    );
}

#[test]
fn a_population_needs_a_token() {
    let content = load(NAMED);
    let s = |q: &Query| scale(&content, q, None, None);
    let q = Query { class: None, ..pop_query("0", "A") };
    assert_eq!(prepare_pop_view_data(&content, &q, &s(&q)).err(), Some(QueryError::NoClass));
    let q = Query { class: Some(vec![]), ..pop_query("0", "A") };
    assert_eq!(prepare_pop_view_data(&content, &q, &s(&q)).err(), Some(QueryError::EmptyClass));
    let q = pop_query("0", "C");
    assert_eq!(prepare_pop_view_data(&content, &q, &s(&q)).err(), Some(QueryError::UnknownClass));
}

#[test]
fn the_faults_of_the_view_come_first() {
    let content = load(NAMED);
    let q = Query { primary: given("9"), slice: None, class: None, ..query() };
    assert_eq!(
        prepare_pop_view_data(&content, &q, &no_scale()).err(),
        Some(QueryError::InvalidAttributeId { id: 9, count: 3 })
    );
}

#[test]
fn a_query_leaves_the_dataset_as_it_was() {
    let content = load(FOUR);
    let bad = Query { primary: given("9"), ..query() };
    assert!(view(&content, &bad).is_err());
    let q = Query { precision: given("2"), ..query() };
    let first = view(&content, &q).unwrap();
    let second = view(&content, &q).unwrap();
    assert_eq!(sizes(&first), sizes(&second));
    assert_eq!(content.data().len(), 4);
}

#[test]
fn faults_are_told_in_a_sentence() {
    let content = load(FOUR);
    let q = Query { class: given("C"), ..query() };
    let tell = |e: QueryError| describe_fault(e, &content, &q);
    assert_eq!(
        tell(QueryError::BadValue(NumeralError::InvalidDigit)),
        "could not read value: invalid digit found in string"
    );
    assert_eq!(
        tell(QueryError::InvalidAttributeId { id: 5, count: 2 }),
        "Invalid attribute id! 5 > 1"
    );
    assert_eq!(
        tell(QueryError::InvalidAttributeId { id: 0, count: 0 }),
        "Invalid attribute id! 0: the dataset has no attribute"
    );
    assert_eq!(
        tell(QueryError::NotCategorical { attribute: 0 }),
        "Comparison to numeric attributes (x) not supported"
    );
    assert_eq!(
        tell(QueryError::NotCategorical { attribute: 9 }),
        "Comparison to numeric attributes () not supported"
    );
    assert_eq!(tell(QueryError::NoPrecision), "precision must be at least 1");
    assert_eq!(tell(QueryError::UnresolvedClass { record: 12 }), "value is not text! (record 12)");
    assert_eq!(tell(QueryError::NoBucket { sample: 3 }), "no bucket for sample 3");
    assert_eq!(tell(QueryError::BadLabels { buckets: 4, labels: 2 }), "2 labels for 4 buckets");
    assert_eq!(tell(QueryError::NoSlice), "no slice parameter");
    assert_eq!(tell(QueryError::EmptySlice), "empty slice parameter");
    assert_eq!(tell(QueryError::InvalidSlice { id: 30, count: 26 }), "Invalid slice id! 30 >= 26");
    assert_eq!(tell(QueryError::NoClass), "no class parameter");
    assert_eq!(tell(QueryError::EmptyClass), "class parameter empty");
    assert_eq!(tell(QueryError::UnknownClass), "could not find class C");
    assert_eq!(describe_fault(QueryError::UnknownClass, &content, &query()), "could not find class ");
}

#[test]
fn a_bucket_knows_the_sizes_of_its_populations() {
    let range = Range::new(
        "label".to_string(),
        vec![Population(vec![1, 2, 3]), Population(vec![]), Population(vec![9])],
    );
    assert_eq!(range.label, "label");
    assert_eq!(range.slices_len, vec![3, 0, 1]);
    assert_eq!(members(&range), vec![vec![1, 2, 3], vec![], vec![9]]);
}

#[test]
fn populations_are_decorated_with_a_label() {
    let slices = RangeSlices::Text(vec![Population(vec![4]), Population(vec![5, 6])]);
    let range = decorate(slices, "2.5".to_string());
    assert_eq!(range.label, "2.5");
    assert_eq!(range.slices_len, vec![1, 2]);
    assert_eq!(members(&range), vec![vec![4], vec![5, 6]]);
}
