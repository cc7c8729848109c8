use varf::arff::{ArffContent, Attribute, AttributeSamples, AttributeType, Value};
use varf::error::LoadError;
use varf::loader::{known_number, load_data_line, load_line, Draft, Entry};
use varf::number::Number;

fn lines_of(text: &str) -> Vec<String> {
    text.lines().map(|l| l.to_string()).collect()
}

fn number(token: &str) -> Option<Number> {
    token.parse::<f32>().ok().map(|f| Number { bits: f.to_bits(), text: format!("{}", f) })
}

fn load(text: &str) -> Result<ArffContent, LoadError> {
    let draft = Draft::read(&lines_of(text))?;
    let numbers: Vec<Option<Number>> =
        draft.numeric_tokens().iter().map(|t| number(t)).collect();
    ArffContent::new("test.arff", draft, &numbers)
}

fn bits_of(value: &Value) -> u32 {
    value.num().unwrap()
}

const IRIS: &str = "% a comment\n@relation iris\n@attribute length numeric\n@attribute name string\n@attribute class {setosa,virginica}\n@data\n5.1,first,setosa\n% another comment\n4.9,second,virginica\n?,?,?\n";

#[test]
fn loads_title_and_attributes() {
    let content = load(IRIS).unwrap();
    assert_eq!(content.filename(), "test.arff");
    assert_eq!(content.title(), "iris");
    assert_eq!(content.attributes().len(), 3);
    assert_eq!(content.attributes()[0].name, "length");
    assert!(matches!(content.attributes()[0].att_type, AttributeType::Numeric));
    assert_eq!(content.attributes()[1].name, "name");
    assert!(matches!(content.attributes()[1].att_type, AttributeType::String));
    assert_eq!(content.attributes()[2].name, "class");
    assert_eq!(
        content.attributes()[2].att_type.tokens().unwrap(),
        &["setosa".to_string(), "virginica".to_string()]
    );
}

#[test]
fn loads_records_in_order() {
    let content = load(IRIS).unwrap();
    assert_eq!(content.data().len(), 3);
    for record in content.data() {
        assert_eq!(record.values.len(), 3);
    }
    assert_eq!(bits_of(&content.data()[0].values[0]), 5.1f32.to_bits());
    assert_eq!(content.data()[0].values[1].string(), Some("first"));
    assert_eq!(content.data()[0].values[2].text(), Some(0));
    assert_eq!(bits_of(&content.data()[1].values[0]), 4.9f32.to_bits());
    assert_eq!(content.data()[1].values[1].string(), Some("second"));
    assert_eq!(content.data()[1].values[2].text(), Some(1));
    for value in &content.data()[2].values {
        assert!(matches!(value, Value::Missing));
    }
}

#[test]
fn every_value_says_what_its_token_says() {
    let text = "@relation t\n@attribute x numeric\n@attribute s string\n@attribute c {a,b,c}\n@data\n1.5,hello world,b\n-Infinity, spaced ,c\nInfinity,?x,a\n?,?,?\n1e3,,a\n";
    let content = load(text).unwrap();
    let tokens: Vec<Vec<&str>> =
        text.lines().skip(5).map(|l| l.split(',').collect()).collect();
    let names = content.attributes()[2].att_type.tokens().unwrap();
    for (record, line) in content.data().iter().zip(tokens.iter()) {
        match &record.values[0] {
            Value::Numeric(n) => {
                let read = if line[0] == "Infinity" {
                    f32::INFINITY
                } else if line[0] == "-Infinity" {
                    f32::NEG_INFINITY
                } else {
                    line[0].parse::<f32>().unwrap()
                };
                assert_eq!(f32::from_bits(n.bits), read);
                assert_eq!(n.text, format!("{}", read));
            }
            Value::Missing => assert_eq!(line[0], "?"),
            _ => panic!("a numeric attribute holds a number or nothing"),
        }
        match &record.values[1] {
            Value::String(s) => assert_eq!(s, line[1]),
            Value::Missing => assert_eq!(line[1], "?"),
            _ => panic!("a free text attribute holds a text or nothing"),
        }
        match &record.values[2] {
            Value::Text(i) => assert_eq!(names[*i], line[2]),
            Value::Missing => assert_eq!(line[2], "?"),
            _ => panic!("a categorical attribute holds a token or nothing"),
        }
    }
}

#[test]
fn infinities_are_known_without_reading() {
    let lines = lines_of("@attribute x numeric\n@data\nInfinity\n-Infinity\n7\n");
    let draft = Draft::read(&lines).unwrap();
    assert_eq!(draft.numeric_tokens(), vec!["7"]);
    let content = ArffContent::new("f", draft, &vec![number("7")]).unwrap();
    assert_eq!(bits_of(&content.data()[0].values[0]), f32::INFINITY.to_bits());
    assert_eq!(bits_of(&content.data()[1].values[0]), f32::NEG_INFINITY.to_bits());
    assert_eq!(bits_of(&content.data()[2].values[0]), 7.0f32.to_bits());
    match &content.data()[0].values[0] {
        Value::Numeric(n) => assert_eq!(n.text, format!("{}", f32::INFINITY)),
        _ => panic!("no number"),
    }
    match &content.data()[1].values[0] {
        Value::Numeric(n) => assert_eq!(n.text, format!("{}", f32::NEG_INFINITY)),
        _ => panic!("no number"),
    }
}

#[test]
fn known_numbers() {
    assert_eq!(known_number("Infinity").unwrap().bits, f32::INFINITY.to_bits());
    assert_eq!(known_number("-Infinity").unwrap().bits, f32::NEG_INFINITY.to_bits());
    assert_eq!(known_number("Infinity").unwrap().text, "inf");
    assert_eq!(known_number("-Infinity").unwrap().text, "-inf");
    assert!(known_number("infinity").is_none());
    assert!(known_number("+Infinity").is_none());
    assert!(known_number("1").is_none());
    assert!(known_number("").is_none());
}

#[test]
fn numeric_tokens_come_row_by_row() {
    let lines = lines_of(
        "@attribute x numeric\n@attribute c {a,b}\n@attribute y numeric\n@data\n1,a,2\n?,b,3\n4,?,?\nInfinity,a,5\n",
    );
    let draft = Draft::read(&lines).unwrap();
    assert_eq!(draft.numeric_tokens(), vec!["1", "2", "3", "4", "5"]);
}

#[test]
fn each_number_goes_to_its_token() {
    let lines = lines_of(
        "@attribute x numeric\n@attribute c {a,b}\n@attribute y numeric\n@data\n1,a,2\n?,b,3\n4,?,?\nInfinity,a,5\n",
    );
    let draft = Draft::read(&lines).unwrap();
    let numbers: Vec<Option<Number>> =
        draft.numeric_tokens().iter().map(|t| number(t)).collect();
    let content = ArffContent::new("f", draft, &numbers).unwrap();
    assert_eq!(bits_of(&content.data()[0].values[0]), 1.0f32.to_bits());
    assert_eq!(bits_of(&content.data()[0].values[2]), 2.0f32.to_bits());
    assert!(matches!(content.data()[1].values[0], Value::Missing));
    assert_eq!(bits_of(&content.data()[1].values[2]), 3.0f32.to_bits());
    assert_eq!(bits_of(&content.data()[2].values[0]), 4.0f32.to_bits());
    assert!(matches!(content.data()[2].values[2], Value::Missing));
    assert_eq!(bits_of(&content.data()[3].values[0]), f32::INFINITY.to_bits());
    assert_eq!(bits_of(&content.data()[3].values[2]), 5.0f32.to_bits());
}

#[test]
fn comments_are_skipped_anywhere() {
    let content = load("%c\n@relation r\n%@attribute y numeric\n@attribute x numeric\n%c\n@data\n%1\n2\n%3\n").unwrap();
    assert_eq!(content.attributes().len(), 1);
    assert_eq!(content.data().len(), 1);
    assert_eq!(bits_of(&content.data()[0].values[0]), 2.0f32.to_bits());
}

#[test]
fn a_percent_sign_inside_a_line_is_no_comment() {
    let content = load("@attribute s string\n@data\n 100%\nx%y\n").unwrap();
    assert_eq!(content.data().len(), 2);
    assert_eq!(content.data()[0].values[0].string(), Some(" 100%"));
    assert_eq!(content.data()[1].values[0].string(), Some("x%y"));
}

#[test]
fn unknown_header_lines_are_ignored() {
    let content = load("\n@unknown thing\n@RELATION upper\nplain words\n@attribute x numeric\n@data\n1\n").unwrap();
    assert_eq!(content.title(), "");
    assert_eq!(content.attributes().len(), 1);
    assert_eq!(content.data().len(), 1);
}

#[test]
fn the_last_title_stands() {
    let content = load("@relation one\n@relation two\n@data\n").unwrap();
    assert_eq!(content.title(), "two");
}

#[test]
fn a_title_ends_at_the_first_space() {
    let content = load("@relation my data\n@data\n").unwrap();
    assert_eq!(content.title(), "my");
}

#[test]
fn after_the_data_marker_every_line_is_a_record() {
    let content = load("@attribute s string\n@data\n@attribute t string\n@data\n").unwrap();
    assert_eq!(content.attributes().len(), 1);
    assert_eq!(content.data().len(), 2);
    assert_eq!(content.data()[0].values[0].string(), Some("@attribute t string"));
    assert_eq!(content.data()[1].values[0].string(), Some("@data"));
}

#[test]
fn values_beyond_the_last_attribute_are_not_looked_at() {
    let content = load("@attribute x numeric\n@data\n1,zzz,???\n").unwrap();
    assert_eq!(content.data()[0].values.len(), 1);
    assert_eq!(bits_of(&content.data()[0].values[0]), 1.0f32.to_bits());
}

#[test]
fn a_type_too_short_to_be_a_token_list_fails() {
    assert_eq!(load("@attribute x z\n@data\n1\n").err(), Some(LoadError::BadType { line: 0 }));
    assert_eq!(load("@attribute x {\n@data\n1\n").err(), Some(LoadError::BadType { line: 0 }));
    assert_eq!(load("@attribute x }\n@data\n1\n").err(), Some(LoadError::BadType { line: 0 }));
    assert_eq!(
        load("@relation r\n@attribute y \n@data\n1\n").err(),
        Some(LoadError::BadType { line: 1 })
    );
}

#[test]
fn no_declaration_gives_an_attribute_without_kind() {
    for declaration in ["", "x", "{", "}", "é", "{a", "a}", "real", "Numeric", "STRING", "{a,b} "] {
        assert!(AttributeType::parse(declaration).is_none());
    }
    for declaration in ["numeric", "string", "{}", "{a}", "{a,b}"] {
        assert!(!matches!(
            AttributeType::parse(declaration),
            None | Some(AttributeType::Unknown)
        ));
    }
}

#[test]
fn free_text_is_stored_as_it_is() {
    let content = load("@attribute s string\n@data\n  héllo wörld  \n\n").unwrap();
    assert_eq!(content.data()[0].values[0].string(), Some("  héllo wörld  "));
    assert_eq!(content.data()[1].values[0].string(), Some(""));
}

#[test]
fn category_tokens_are_matched_exactly() {
    assert_eq!(
        load("@attribute c {a,b}\n@data\nA\n").err(),
        Some(LoadError::UnknownCategory { line: 2, attribute: 0 })
    );
    assert_eq!(
        load("@attribute c {a,b}\n@data\na \n").err(),
        Some(LoadError::UnknownCategory { line: 2, attribute: 0 })
    );
}

#[test]
fn of_two_equal_tokens_the_first_is_meant() {
    let content = load("@attribute c {a,b,a}\n@data\na\nb\n").unwrap();
    assert_eq!(content.data()[0].values[0].text(), Some(0));
    assert_eq!(content.data()[1].values[0].text(), Some(1));
}

#[test]
fn a_relation_without_title_fails() {
    assert_eq!(load("@relation\n").err(), Some(LoadError::MissingTitle { line: 0 }));
}

#[test]
fn an_attribute_without_name_fails() {
    assert_eq!(load("@relation r\n@attribute\n").err(), Some(LoadError::MissingName { line: 1 }));
}

#[test]
fn an_attribute_without_type_fails() {
    assert_eq!(load("@attribute x\n").err(), Some(LoadError::MissingType { line: 0 }));
}

#[test]
fn an_unterminated_token_list_fails() {
    assert_eq!(load("@attribute c {a,b\n").err(), Some(LoadError::BadType { line: 0 }));
    assert_eq!(load("%\n%\n@attribute c {a, b}\n").err(), Some(LoadError::BadType { line: 2 }));
    assert_eq!(load("@attribute c a,b}\n").err(), Some(LoadError::BadType { line: 0 }));
    assert_eq!(load("@attribute c real\n").err(), Some(LoadError::BadType { line: 0 }));
    assert_eq!(load("@attribute c é\n").err(), Some(LoadError::BadType { line: 0 }));
}

#[test]
fn a_short_record_fails() {
    assert_eq!(
        load("@attribute x numeric\n@attribute y numeric\n@data\n1,2\n3\n").err(),
        Some(LoadError::ShortRecord { line: 4 })
    );
    assert_eq!(
        load("@attribute x numeric\n@attribute y numeric\n@data\n\n").err(),
        Some(LoadError::ShortRecord { line: 3 })
    );
}

#[test]
fn an_unknown_category_fails() {
    assert_eq!(
        load("@attribute x numeric\n@attribute c {a,b}\n@data\n1,a\n2,c\n").err(),
        Some(LoadError::UnknownCategory { line: 4, attribute: 1 })
    );
}

#[test]
fn a_token_that_is_no_number_fails() {
    assert_eq!(
        load("@attribute x numeric\n@attribute y numeric\n@data\n1,2\n3,abc\n").err(),
        Some(LoadError::BadNumber { line: 4, attribute: 1 })
    );
    assert_eq!(
        load("@attribute x numeric\n@data\n\n").err(),
        Some(LoadError::BadNumber { line: 2, attribute: 0 })
    );
}

#[test]
fn a_token_without_a_number_given_counts_as_no_number() {
    let lines = lines_of("@attribute x numeric\n@data\n1\n2\n3\n");
    let draft = Draft::read(&lines).unwrap();
    let numbers = vec![number("1"), number("2")];
    assert_eq!(
        ArffContent::new("f", draft, &numbers).err(),
        Some(LoadError::BadNumber { line: 4, attribute: 0 })
    );
}

#[test]
fn numbers_beyond_the_tokens_are_not_looked_at() {
    let lines = lines_of("@attribute x numeric\n@data\n1\n");
    let draft = Draft::read(&lines).unwrap();
    let numbers = vec![number("1"), None, number("3")];
    let content = ArffContent::new("f", draft, &numbers).unwrap();
    assert_eq!(content.data().len(), 1);
}

#[test]
fn a_fault_in_the_lines_comes_before_a_fault_in_the_numbers() {
    assert_eq!(
        load("@attribute x numeric\n@attribute c {a}\n@data\nabc,a\n1,zzz\n").err(),
        Some(LoadError::UnknownCategory { line: 4, attribute: 1 })
    );
}

#[test]
fn an_empty_file_is_an_empty_dataset() {
    let content = load("").unwrap();
    assert_eq!(content.title(), "");
    assert_eq!(content.attributes().len(), 0);
    assert_eq!(content.data().len(), 0);
    assert_eq!(content.samples().len(), 0);
}

#[test]
fn a_header_without_data_marker_has_no_records() {
    let content = load("@relation r\n@attribute x numeric\n1\n2\n").unwrap();
    assert_eq!(content.attributes().len(), 1);
    assert_eq!(content.data().len(), 0);
}

#[test]
fn the_draft_holds_what_was_read() {
    let lines = lines_of("@relation r\n@attribute x numeric\n@attribute c {a,b}\n@data\n1.50,b\n?,a\n");
    let draft = Draft::read(&lines).unwrap();
    assert_eq!(draft.title(), "r");
    assert!(draft.reading_data());
    assert_eq!(draft.attributes().len(), 2);
    assert_eq!(draft.places(), &vec![4, 5]);
    assert!(matches!(&draft.rows()[0][0], Entry::Pending(t) if t == "1.50"));
    assert!(matches!(draft.rows()[0][1], Entry::Text(1)));
    assert!(matches!(draft.rows()[1][0], Entry::Missing));
    assert!(matches!(draft.rows()[1][1], Entry::Text(0)));
}

#[test]
fn a_header_is_read_line_by_line() {
    let mut title = String::new();
    let mut attributes = Vec::new();
    assert_eq!(load_line(&mut title, &mut attributes, "@relation r", 0), Ok(false));
    assert_eq!(title, "r");
    assert_eq!(load_line(&mut title, &mut attributes, "@attribute x numeric", 1), Ok(false));
    assert_eq!(
        load_line(&mut title, &mut attributes, "@attribute c {a,b", 2),
        Err(LoadError::BadType { line: 2 })
    );
    assert_eq!(attributes.len(), 1);
    assert_eq!(attributes[0].name, "x");
    assert_eq!(load_line(&mut title, &mut attributes, "something else", 3), Ok(false));
    assert_eq!(load_line(&mut title, &mut attributes, "@data", 4), Ok(true));
    assert_eq!(load_line(&mut title, &mut attributes, "@data and more", 5), Ok(true));
    assert_eq!(title, "r");
    assert_eq!(attributes.len(), 1);
}

#[test]
fn a_record_is_read_from_its_line() {
    let attributes = vec![
        Attribute { name: "x".to_string(), att_type: AttributeType::Numeric },
        Attribute {
            name: "c".to_string(),
            att_type: AttributeType::Text(vec!["a".to_string(), "b".to_string()]),
        },
        Attribute { name: "s".to_string(), att_type: AttributeType::String },
        Attribute { name: "u".to_string(), att_type: AttributeType::Unknown },
    ];
    let row = load_data_line(&attributes, "1.5,b,text,what", 7).unwrap();
    assert_eq!(row.len(), 4);
    assert!(matches!(&row[0], Entry::Pending(t) if t == "1.5"));
    assert!(matches!(row[1], Entry::Text(1)));
    assert!(matches!(&row[2], Entry::String(t) if t == "text"));
    assert!(matches!(row[3], Entry::Missing));
    let row = load_data_line(&attributes, "-Infinity,?,?,?,more", 7).unwrap();
    assert!(matches!(&row[0], Entry::Known(n) if n.bits == f32::NEG_INFINITY.to_bits()));
    assert!(matches!(row[1], Entry::Missing));
    assert!(matches!(row[2], Entry::Missing));
    assert_eq!(
        load_data_line(&attributes, "1,b,text", 7).err(),
        Some(LoadError::ShortRecord { line: 7 })
    );
    assert_eq!(
        load_data_line(&attributes, "1,z,text,x", 7).err(),
        Some(LoadError::UnknownCategory { line: 7, attribute: 1 })
    );
}

#[test]
fn type_declarations() {
    assert!(matches!(AttributeType::parse("numeric"), Some(AttributeType::Numeric)));
    assert!(matches!(AttributeType::parse("string"), Some(AttributeType::String)));
    assert!(AttributeType::parse("").is_none());
    assert!(AttributeType::parse("{").is_none());
    assert!(AttributeType::parse("x").is_none());
    assert!(AttributeType::parse("Numeric").is_none());
    assert!(AttributeType::parse("{a,b").is_none());
    assert!(AttributeType::parse("é").is_none());
    match AttributeType::parse("{a,b c,,d}") {
        Some(AttributeType::Text(tokens)) => assert_eq!(tokens, vec!["a", "b c", "", "d"]),
        _ => panic!("no token list"),
    }
    match AttributeType::parse("{}") {
        Some(AttributeType::Text(tokens)) => assert_eq!(tokens, vec![""]),
        _ => panic!("no token list"),
    }
}

#[test]
fn tokens_of_a_type() {
    assert!(AttributeType::Numeric.tokens().is_none());
    assert!(AttributeType::String.tokens().is_none());
    assert!(AttributeType::Unknown.tokens().is_none());
    let t = AttributeType::Text(vec!["x".to_string(), "y".to_string()]);
    assert_eq!(t.tokens().unwrap(), &["x".to_string(), "y".to_string()]);
}
