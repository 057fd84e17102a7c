use schema::scan::check_numbers;
use schema::Analyser;
use schema::ParseError;
use schema::Probability;
use schema::RawValue;
use schema::Settings;

const BASIC: &str =
    "[{\"name\": \"Depeche Mode\", \"albums\": 20, \"rating\": 10.5, \"active\": true}]";

fn as_float(probability: &Probability) -> f32 {
    if probability.denominator == 0 {
        0.0
    } else {
        probability.numerator as f32 / probability.denominator as f32
    }
}

#[test]
fn new_deserializes_string_elements() {
    let analyser = Analyser::new(BASIC);
    let docs = analyser.documents.as_array().unwrap();
    let doc = docs[0].as_object().unwrap();
    assert_eq!(doc.get("name").unwrap().as_str().unwrap(), "Depeche Mode");
}

#[test]
fn new_deserializes_integer_elements() {
    let analyser = Analyser::new(BASIC);
    let docs = analyser.documents.as_array().unwrap();
    let doc = docs[0].as_object().unwrap();
    assert_eq!(doc.get("albums").unwrap().as_i64().unwrap(), 20);
}

#[test]
fn new_deserializes_float_elements() {
    let analyser = Analyser::new(BASIC);
    let docs = analyser.documents.as_array().unwrap();
    let doc = docs[0].as_object().unwrap();
    assert_eq!(doc.get("rating").unwrap().as_f64().unwrap(), 10.5);
}

#[test]
fn new_deserializes_bool_elements() {
    let analyser = Analyser::new(BASIC);
    let docs = analyser.documents.as_array().unwrap();
    let doc = docs[0].as_object().unwrap();
    assert_eq!(doc.get("active").unwrap().as_bool().unwrap(), true);
}

#[test]
fn try_new_refuses_broken_text() {
    match Analyser::try_new("[{\"a\": 1}") {
        Err(ParseError::Syntax { line, column }) => {
            assert_eq!(1, line);
            assert!(column > 0);
        }
        _ => panic!("broken text was read"),
    }
    assert!(Analyser::try_new("").is_err());
    assert!(Analyser::try_new("[1, 2,]").is_err());
    assert!(Analyser::try_new("{\"a\": 1} x").is_err());
}

#[test]
fn try_new_reads_what_new_reads() {
    let made = Analyser::try_new(BASIC).unwrap();
    assert!(made.documents == Analyser::new(BASIC).documents);
}

#[test]
fn try_new_keeps_long_exponents_from_the_reader() {
    assert_eq!(Some(ParseError::LongNumber), Analyser::try_new("1.5e-2147483647").err());
    assert_eq!(Some(ParseError::LongNumber), Analyser::try_new("[{\"a\": 1E+0000000001}]").err());
    assert!(Analyser::try_new("[{\"a\": 1.5e-999999999}]").is_ok());
    assert!(Analyser::try_new("[{\"a\": 1e300, \"b\": 12345678901234567890123}]").is_ok());
    assert!(Analyser::try_new("[{\"a\": \"1.5e-2147483647\"}]").is_ok());
    assert!(Analyser::try_new("[{\"e2147483647000\": \"x\\\"e1234567890\"}]").is_ok());
}

#[test]
fn numbers_are_checked_outside_strings_only() {
    assert!(check_numbers(""));
    assert!(check_numbers("123456789012345678901234567890"));
    assert!(check_numbers("1e123456789"));
    assert!(!check_numbers("1e1234567890"));
    assert!(!check_numbers("1E-1234567890"));
    assert!(!check_numbers("1e+-+1234567890"));
    assert!(check_numbers("1e12345 67890"));
    assert!(check_numbers("1e12345,67890"));
    assert!(check_numbers("\"1e1234567890\""));
    assert!(check_numbers("\"a\\\"1e1234567890\""));
    assert!(!check_numbers("\"a\\\\\"1e1234567890"));
    assert!(!check_numbers("\"a\" 1e1234567890"));
    assert!(!check_numbers("true1234567890"));
    assert!(check_numbers("true 1234567890"));
    assert!(check_numbers("[true,1234567890]"));
}

#[test]
fn run_counts_documents_however_deep_they_are() {
    let mut deep = serde_json::Value::U64(7);
    for _ in 0..200 {
        deep = serde_json::Value::Array(vec![deep]);
    }
    let document = |a: u64| {
        let mut members = std::collections::BTreeMap::new();
        members.insert("a".to_string(), serde_json::Value::U64(a));
        members.insert("b".to_string(), deep.clone());
        serde_json::Value::Object(members)
    };
    let mut last = std::collections::BTreeMap::new();
    last.insert("a".to_string(), serde_json::Value::U64(2));
    let analyser = Analyser {
        documents: serde_json::Value::Array(vec![
            document(1),
            document(1),
            serde_json::Value::Object(last),
        ]),
    };
    let analysis = analyser.analyse(Settings::standard());
    assert!(analysis.malformed.is_empty());
    let schema = analyser.run();
    assert_eq!(3, schema.count);
    assert_eq!(2, schema.fields.len());
    assert_eq!("a", schema.fields[0].name);
    assert_eq!(3, schema.fields[0].count);
    assert!(schema.fields[0].has_duplicates);
    assert_eq!(2, schema.fields[0].types[0].unique);
    assert_eq!("b", schema.fields[1].name);
    assert_eq!(2, schema.fields[1].count);
    assert!(schema.fields[1].has_duplicates);
    assert_eq!("Array", schema.fields[1].types[0].name);
}

#[test]
fn try_new_refuses_nesting_beyond_the_limit() {
    let mut text = String::new();
    for _ in 0..200 {
        text.push('[');
    }
    for _ in 0..200 {
        text.push(']');
    }
    assert!(Analyser::try_new(&text).is_err());
}

#[test]
fn values_convert_every_kind() {
    let text = "[null, true, -3, 20, 18446744073709551615, 10.5, \"x\", [1, [2]], {\"b\": 1, \"a\": null}]";
    let values = Analyser::try_new(text).unwrap().values();
    assert_eq!(9, values.len());
    assert!(values[0].same(&RawValue::Null));
    assert!(values[1].same(&RawValue::Boolean(true)));
    assert!(values[2].same(&RawValue::Int64(-3)));
    assert!(values[3].same(&RawValue::Int64(20)));
    assert!(values[4].same(&RawValue::UInt64(18446744073709551615)));
    assert!(values[5].same(&RawValue::Double(10.5f64.to_bits())));
    assert!(values[6].same(&RawValue::String("x".to_string())));
    assert!(values[7].same(&RawValue::Array(vec![
        RawValue::Int64(1),
        RawValue::Array(vec![RawValue::Int64(2)]),
    ])));
    assert!(values[8].same(&RawValue::Object(vec![
        ("a".to_string(), RawValue::Null),
        ("b".to_string(), RawValue::Int64(1)),
    ])));
}

#[test]
fn values_convert_what_is_nested_deep() {
    let mut text = String::from("[{\"a\": ");
    for _ in 0..100 {
        text.push('[');
    }
    text.push('7');
    for _ in 0..100 {
        text.push(']');
    }
    text.push_str("}]");
    let values = Analyser::try_new(&text).unwrap().values();
    assert_eq!(1, values.len());
    let mut inner = match &values[0] {
        RawValue::Object(members) => &members[0].1,
        _ => panic!("the document is an object"),
    };
    let mut depth = 0;
    while let RawValue::Array(items) = inner {
        inner = &items[0];
        depth += 1;
    }
    assert_eq!(100, depth);
    assert!(inner.same(&RawValue::Int64(7)));
}

#[test]
fn values_of_a_lone_document() {
    let values = Analyser::try_new("{\"a\": 1}").unwrap().values();
    assert_eq!(1, values.len());
    assert!(values[0].same(&RawValue::Object(vec![("a".to_string(), RawValue::Int64(1))])));
}

#[test]
fn run_sets_the_correct_document_count() {
    let schema = Analyser::new(BASIC).run();
    assert_eq!(schema.count, 1);
}

#[test]
fn run_orders_the_fields_by_name() {
    let schema = Analyser::new(BASIC).run();
    assert_eq!(schema.fields.len(), 4);
    assert_eq!(schema.fields[0].name, "active");
    assert_eq!(schema.fields[1].name, "albums");
    assert_eq!(schema.fields[2].name, "name");
    assert_eq!(schema.fields[3].name, "rating");
}

#[test]
fn run_sets_field_counts() {
    let schema = Analyser::new(BASIC).run();
    assert_eq!(schema.fields[0].count, 1);
    assert_eq!(schema.fields[1].count, 1);
    assert_eq!(schema.fields[2].count, 1);
    assert_eq!(schema.fields[3].count, 1);
}

#[test]
fn run_sets_field_probabilities() {
    let schema = Analyser::new(BASIC).run();
    assert_eq!(as_float(&schema.fields[0].probability), 1.0);
    assert_eq!(as_float(&schema.fields[1].probability), 1.0);
    assert_eq!(as_float(&schema.fields[2].probability), 1.0);
    assert_eq!(as_float(&schema.fields[3].probability), 1.0);
}

#[test]
fn run_sets_if_the_field_has_duplicate_values() {
    let schema = Analyser::new(BASIC).run();
    assert_eq!(schema.fields[0].has_duplicates, false);
    assert_eq!(schema.fields[1].has_duplicates, false);
    assert_eq!(schema.fields[2].has_duplicates, false);
    assert_eq!(schema.fields[3].has_duplicates, false);
}

#[test]
fn run_sets_the_types_of_the_example() {
    let schema = Analyser::new(BASIC).run();
    let expected = ["Boolean", "Int64", "String", "Double"];
    for (field, name) in schema.fields.iter().zip(expected.iter()) {
        assert_eq!(1, field.types.len());
        assert_eq!(*name, field.types[0].name);
        assert_eq!(1, field.types[0].count);
        assert_eq!(1, field.types[0].unique);
        assert_eq!(1.0, as_float(&field.types[0].probability));
    }
}

#[test]
fn run_passes_over_what_is_no_document() {
    let analyser = Analyser::try_new("[{\"a\": 1}, 7, \"x\", [1], {\"a\": 2}, null]").unwrap();
    let analysis = analyser.analyse(Settings::standard());
    assert_eq!(vec![1, 2, 3, 5], analysis.malformed);
    assert_eq!(2, analysis.schema.count);
    assert_eq!(1, analysis.schema.fields.len());
    assert_eq!(2, analysis.schema.fields[0].count);
    let schema = analyser.run();
    assert_eq!(2, schema.count);
}

#[test]
fn run_on_a_scalar_finds_nothing() {
    let schema = Analyser::try_new("42").unwrap().run();
    assert_eq!(0, schema.count);
    assert!(schema.fields.is_empty());
}

#[test]
fn run_on_an_empty_array_finds_nothing() {
    let schema = Analyser::try_new("[]").unwrap().run();
    assert_eq!(0, schema.count);
    assert!(schema.fields.is_empty());
}
