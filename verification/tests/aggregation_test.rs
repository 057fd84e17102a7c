use schema::analyse;
use schema::classify;
use schema::finalize;
use schema::AggregationError;
use schema::Classification;
use schema::CorpusAggregator;
use schema::FieldAggregator;
use schema::Probability;
use schema::RawValue;
use schema::Schema;
use schema::Settings;
use schema::Strategy;
use schema::TypeTag;
use schema::ValueTracker;

fn ratio(probability: &Probability) -> f64 {
    if probability.denominator == 0 {
        0.0
    } else {
        probability.numerator as f64 / probability.denominator as f64
    }
}

fn document(members: Vec<(&str, RawValue)>) -> RawValue {
    RawValue::Object(members.into_iter().map(|(name, value)| (name.to_string(), value)).collect())
}

fn text(content: &str) -> RawValue {
    RawValue::String(content.to_string())
}

fn schema_of(documents: &[RawValue]) -> Schema {
    let mut corpus = CorpusAggregator::new(Settings::standard());
    for document in documents {
        corpus.observe_document(document).unwrap();
    }
    finalize(&corpus)
}

fn same_schema(a: &Schema, b: &Schema) -> bool {
    format!("{:?}", a) == format!("{:?}", b)
}

#[test]
fn classify_gives_every_value_its_tag() {
    assert_eq!(TypeTag::Null, classify(&RawValue::Null));
    assert_eq!(TypeTag::Boolean, classify(&RawValue::Boolean(false)));
    assert_eq!(TypeTag::Int64, classify(&RawValue::Int64(-1)));
    assert_eq!(TypeTag::UInt64, classify(&RawValue::UInt64(1)));
    assert_eq!(TypeTag::Double, classify(&RawValue::Double(0)));
    assert_eq!(TypeTag::String, classify(&text("1")));
    assert_eq!(TypeTag::Array, classify(&RawValue::Array(vec![])));
    assert_eq!(TypeTag::Object, classify(&document(vec![])));
    assert_eq!(TypeTag::Object, classify(&document(vec![("$oid", text("5f"))])));
}

#[test]
fn extended_classification_knows_the_wrapped_kinds() {
    let rules = Classification::Extended;
    assert_eq!(TypeTag::ObjectId, rules.classify(&document(vec![("$oid", text("5f"))])));
    assert_eq!(TypeTag::Date, rules.classify(&document(vec![("$date", RawValue::Int64(0))])));
    assert_eq!(
        TypeTag::Decimal128,
        rules.classify(&document(vec![("$numberDecimal", text("1.5"))]))
    );
    assert_eq!(TypeTag::Binary, rules.classify(&document(vec![("$binary", text("AA=="))])));
    assert_eq!(TypeTag::Object, rules.classify(&document(vec![("oid", text("5f"))])));
    assert_eq!(
        TypeTag::Object,
        rules.classify(&document(vec![("$oid", text("5f")), ("x", RawValue::Null)]))
    );
    assert_eq!(TypeTag::Object, rules.classify(&document(vec![])));
    assert_eq!(TypeTag::Int64, rules.classify(&RawValue::Int64(1)));
    assert_eq!(TypeTag::Object, Classification::Plain.classify(&document(vec![("$date", text("x"))])));
}

#[test]
fn tags_stand_in_the_order_of_their_names() {
    let mut previous: Option<&str> = None;
    for position in 0..12 {
        let tag = TypeTag::from_ordinal(position);
        assert_eq!(position, tag.ordinal());
        if let Some(name) = previous {
            assert!(name < tag.name());
        }
        previous = Some(tag.name());
    }
    assert_eq!("Array", TypeTag::Array.name());
    assert_eq!("ObjectId", TypeTag::ObjectId.name());
    assert_eq!("UInt64", TypeTag::UInt64.name());
}

#[test]
fn values_are_compared_in_depth() {
    let a = document(vec![("k", RawValue::Array(vec![RawValue::Int64(1), text("x")]))]);
    let b = document(vec![("k", RawValue::Array(vec![RawValue::Int64(1), text("x")]))]);
    let c = document(vec![("k", RawValue::Array(vec![RawValue::Int64(1), text("y")]))]);
    let d = document(vec![("j", RawValue::Array(vec![RawValue::Int64(1), text("x")]))]);
    assert!(a.same(&b));
    assert!(!a.same(&c));
    assert!(!a.same(&d));
    assert!(a.duplicate().same(&a));
    assert!(!RawValue::Int64(1).same(&RawValue::UInt64(1)));
    assert!(!RawValue::Int64(1).same(&text("1")));
    assert!(!RawValue::Array(vec![]).same(&RawValue::Array(vec![RawValue::Null])));
}

#[test]
fn tracker_counts_and_remembers() {
    let mut tracker = ValueTracker::new(Strategy::Exact);
    assert_eq!(0, tracker.count());
    assert_eq!(0, tracker.unique_count());
    assert!(!tracker.has_duplicates());
    tracker.observe(&RawValue::Int64(1));
    tracker.observe(&RawValue::Int64(2));
    assert_eq!(2, tracker.count());
    assert_eq!(2, tracker.unique_count());
    assert!(!tracker.has_duplicates());
    tracker.observe(&RawValue::Int64(1));
    assert_eq!(3, tracker.count());
    assert_eq!(2, tracker.unique_count());
    assert!(tracker.has_duplicates());
}

#[test]
fn tracker_merge_unites_counts_and_values() {
    let mut left = ValueTracker::new(Strategy::Exact);
    left.observe(&text("a"));
    left.observe(&text("b"));
    let mut right = ValueTracker::new(Strategy::Exact);
    right.observe(&text("b"));
    right.observe(&text("c"));
    assert_eq!(Ok(()), left.merge(&right));
    assert_eq!(4, left.count());
    assert_eq!(3, left.unique_count());
    assert!(left.has_duplicates());
    assert_eq!(2, right.count());
}

#[test]
fn field_routes_values_by_their_kind() {
    let mut field = FieldAggregator::new(Settings::standard());
    field.observe(&text("1"));
    field.observe(&RawValue::Int64(1));
    field.observe(&RawValue::Int64(1));
    assert_eq!(3, field.count());
    assert_eq!(1, field.tracker(TypeTag::String).count());
    assert_eq!(2, field.tracker(TypeTag::Int64).count());
    assert_eq!(1, field.tracker(TypeTag::Int64).unique_count());
    assert_eq!(0, field.tracker(TypeTag::Double).count());
    assert!(field.has_duplicates());
}

#[test]
fn the_same_text_and_number_are_not_conflated() {
    let mut field = FieldAggregator::new(Settings::standard());
    field.observe(&text("1"));
    field.observe(&RawValue::Int64(1));
    field.observe(&RawValue::UInt64(1));
    assert!(!field.has_duplicates());
}

#[test]
fn duplicate_detection_example() {
    let schema = schema_of(&[
        document(vec![("a", RawValue::Int64(1))]),
        document(vec![("a", RawValue::Int64(1))]),
    ]);
    assert_eq!(2, schema.count);
    assert_eq!(1, schema.fields.len());
    let field = &schema.fields[0];
    assert_eq!("a", field.name);
    assert_eq!(2, field.count);
    assert!(field.has_duplicates);
    assert_eq!(1, field.types.len());
    assert_eq!("Int64", field.types[0].name);
    assert_eq!(2, field.types[0].count);
    assert_eq!(1, field.types[0].unique);
    assert_eq!(1.0, ratio(&field.types[0].probability));
}

#[test]
fn end_to_end_example() {
    let schema = schema_of(&[document(vec![
        ("name", text("Depeche Mode")),
        ("albums", RawValue::Int64(20)),
        ("rating", RawValue::Double(10.5f64.to_bits())),
        ("active", RawValue::Boolean(true)),
    ])]);
    assert_eq!(1, schema.count);
    let expected = [("active", "Boolean"), ("albums", "Int64"), ("name", "String"), ("rating", "Double")];
    assert_eq!(expected.len(), schema.fields.len());
    for (field, (name, kind)) in schema.fields.iter().zip(expected.iter()) {
        assert_eq!(*name, field.name);
        assert_eq!(1, field.count);
        assert_eq!(1.0, ratio(&field.probability));
        assert!(!field.has_duplicates);
        assert_eq!(1, field.types.len());
        assert_eq!(*kind, field.types[0].name);
        assert_eq!(1, field.types[0].count);
        assert_eq!(1.0, ratio(&field.types[0].probability));
        assert_eq!(1, field.types[0].unique);
    }
}

#[test]
fn absent_field_example() {
    let schema = schema_of(&[
        document(vec![("a", RawValue::Int64(1))]),
        document(vec![("b", RawValue::Int64(2))]),
    ]);
    assert_eq!(2, schema.count);
    assert_eq!(2, schema.fields.len());
    assert_eq!("a", schema.fields[0].name);
    assert_eq!(1, schema.fields[0].count);
    assert_eq!(0.5, ratio(&schema.fields[0].probability));
    assert_eq!("b", schema.fields[1].name);
    assert_eq!(1, schema.fields[1].count);
    assert_eq!(0.5, ratio(&schema.fields[1].probability));
    assert_eq!(Probability::new(1, 2), schema.fields[1].probability);
}

#[test]
fn an_empty_corpus_has_an_empty_schema() {
    let schema = schema_of(&[]);
    assert_eq!(0, schema.count);
    assert!(schema.fields.is_empty());
    let corpus = CorpusAggregator::new(Settings::standard());
    assert_eq!(0, corpus.document_count());
    assert_eq!(0, corpus.field_count());
}

#[test]
fn an_empty_document_counts() {
    let schema = schema_of(&[document(vec![]), document(vec![("a", RawValue::Null)])]);
    assert_eq!(2, schema.count);
    assert_eq!(1, schema.fields.len());
    assert_eq!(Probability::new(1, 2), schema.fields[0].probability);
    assert_eq!("Null", schema.fields[0].types[0].name);
}

#[test]
fn types_stand_by_count_then_by_name() {
    let schema = schema_of(&[
        document(vec![("v", text("x"))]),
        document(vec![("v", RawValue::Int64(1))]),
        document(vec![("v", RawValue::Int64(2))]),
        document(vec![("v", RawValue::Boolean(true))]),
        document(vec![("v", RawValue::Null)]),
        document(vec![("v", RawValue::Null)]),
        document(vec![("v", RawValue::Array(vec![]))]),
    ]);
    let field = &schema.fields[0];
    let names: Vec<&str> = field.types.iter().map(|t| t.name.as_str()).collect();
    assert_eq!(vec!["Int64", "Null", "Array", "Boolean", "String"], names);
    let counts: Vec<u64> = field.types.iter().map(|t| t.count).collect();
    assert_eq!(vec![2, 2, 1, 1, 1], counts);
    assert_eq!(7, counts.iter().sum::<u64>());
    assert_eq!(7, field.count);
    assert_eq!(Probability::new(2, 7), field.types[0].probability);
    assert_eq!(Probability::new(1, 7), field.types[4].probability);
    assert!(field.has_duplicates);
    assert_eq!(1, field.types[1].unique);
    assert_eq!(2, field.types[0].unique);
}

#[test]
fn fields_stand_by_name_whatever_the_order_of_arrival() {
    let schema = schema_of(&[
        document(vec![("zeta", RawValue::Null), ("alpha", RawValue::Null)]),
        document(vec![("Zeta", RawValue::Null), ("alp", RawValue::Null), ("", RawValue::Null)]),
        document(vec![("\u{e9}t\u{e9}", RawValue::Null), ("beta", RawValue::Null)]),
    ]);
    let names: Vec<&str> = schema.fields.iter().map(|f| f.name.as_str()).collect();
    assert_eq!(vec!["", "Zeta", "alp", "alpha", "beta", "zeta", "\u{e9}t\u{e9}"], names);
    for pair in names.windows(2) {
        assert!(pair[0] < pair[1]);
    }
}

#[test]
fn what_is_no_document_is_refused() {
    let mut corpus = CorpusAggregator::new(Settings::standard());
    corpus.observe_document(&document(vec![("a", RawValue::Int64(1))])).unwrap();
    for value in [
        RawValue::Null,
        RawValue::Int64(3),
        text("{}"),
        RawValue::Array(vec![document(vec![])]),
        document(vec![("a", RawValue::Int64(1)), ("b", RawValue::Null), ("a", RawValue::Int64(2))]),
    ] {
        assert_eq!(Err(AggregationError::MalformedDocument), corpus.observe_document(&value));
    }
    assert_eq!(1, corpus.document_count());
    assert_eq!(1, corpus.field_count());
    assert_eq!(1, corpus.field_at(0).count());
    assert_eq!("a", corpus.field_name(0));
}

#[test]
fn analyse_notes_what_it_passed_over() {
    let analysis = analyse(
        Settings::standard(),
        &vec![
            RawValue::Null,
            document(vec![("a", RawValue::Int64(1))]),
            document(vec![("a", RawValue::Int64(1)), ("a", RawValue::Int64(1))]),
            document(vec![("b", RawValue::Int64(1))]),
        ],
    );
    assert_eq!(vec![0, 2], analysis.malformed);
    assert_eq!(2, analysis.schema.count);
    assert_eq!(2, analysis.schema.fields.len());
}

#[test]
fn merge_refuses_other_settings() {
    let plain = Settings::standard();
    let extended = Settings { rules: Classification::Extended, strategy: Strategy::Exact };
    let mut left = CorpusAggregator::new(plain);
    left.observe_document(&document(vec![("a", RawValue::Int64(1))])).unwrap();
    let mut right = CorpusAggregator::new(extended);
    right.observe_document(&document(vec![("a", RawValue::Int64(1))])).unwrap();
    let before = finalize(&left);
    assert_eq!(Err(AggregationError::IncompatibleMerge), left.merge(&right));
    assert!(same_schema(&before, &finalize(&left)));
    let mut field = FieldAggregator::new(plain);
    assert_eq!(Err(AggregationError::IncompatibleMerge), field.merge(&FieldAggregator::new(extended)));
    assert_eq!(Ok(()), field.merge(&FieldAggregator::new(plain)));
}

#[test]
fn merge_recombines_shards() {
    let documents = vec![
        document(vec![("a", RawValue::Int64(1)), ("b", text("x"))]),
        document(vec![("a", RawValue::Int64(1))]),
        document(vec![("c", RawValue::Boolean(true)), ("a", text("1"))]),
        document(vec![("b", text("x")), ("d", RawValue::Null)]),
        document(vec![("a", RawValue::Double(1.5f64.to_bits())), ("d", RawValue::Null)]),
        document(vec![]),
    ];
    let shard = |from: usize, to: usize| {
        let mut corpus = CorpusAggregator::new(Settings::standard());
        for document in &documents[from..to] {
            corpus.observe_document(document).unwrap();
        }
        corpus
    };
    let whole = schema_of(&documents);

    let mut left = shard(0, 2);
    left.merge(&shard(2, 3)).unwrap();
    left.merge(&shard(3, 6)).unwrap();

    let mut tail = shard(2, 3);
    tail.merge(&shard(3, 6)).unwrap();
    let mut right = shard(0, 2);
    right.merge(&tail).unwrap();

    let mut swapped = shard(2, 3);
    swapped.merge(&shard(0, 2)).unwrap();
    swapped.merge(&shard(3, 6)).unwrap();

    assert!(same_schema(&whole, &finalize(&left)));
    assert!(same_schema(&whole, &finalize(&right)));
    assert!(same_schema(&whole, &finalize(&swapped)));
    assert_eq!(6, whole.count);
    assert_eq!(4, whole.fields.len());
    assert_eq!(4, whole.fields[0].count);
    assert!(whole.fields[0].has_duplicates);
    assert_eq!(3, whole.fields[0].types.len());
    assert_eq!("Int64", whole.fields[0].types[0].name);
    assert_eq!("Double", whole.fields[0].types[1].name);
    assert_eq!("String", whole.fields[0].types[2].name);
}

#[test]
fn merge_with_an_empty_aggregate_changes_nothing() {
    let documents = vec![document(vec![("a", RawValue::Int64(1))])];
    let whole = schema_of(&documents);
    let mut corpus = CorpusAggregator::new(Settings::standard());
    corpus.observe_document(&documents[0]).unwrap();
    corpus.merge(&CorpusAggregator::new(Settings::standard())).unwrap();
    assert!(same_schema(&whole, &finalize(&corpus)));
    let mut empty = CorpusAggregator::new(Settings::standard());
    empty.merge(&corpus).unwrap();
    assert!(same_schema(&whole, &finalize(&empty)));
}

#[test]
fn finalize_twice_gives_the_same_schema() {
    let mut corpus = CorpusAggregator::new(Settings::standard());
    corpus.observe_document(&document(vec![("a", RawValue::Int64(1)), ("b", text("x"))])).unwrap();
    corpus.observe_document(&document(vec![("a", text("y"))])).unwrap();
    let first = finalize(&corpus);
    let second = finalize(&corpus);
    assert!(same_schema(&first, &second));
    assert_eq!(2, corpus.document_count());
}

#[test]
fn every_schema_is_consistent() {
    let schema = schema_of(&[
        document(vec![("a", RawValue::Int64(1)), ("b", text("x"))]),
        document(vec![("a", text("1")), ("c", RawValue::Null)]),
        document(vec![("a", RawValue::Int64(1))]),
    ]);
    for field in &schema.fields {
        assert!(field.count as usize <= schema.count);
        assert_eq!(field.count, field.types.iter().map(|t| t.count).sum::<u64>());
        assert_eq!(Probability::new(field.count, schema.count as u64), field.probability);
        for kind in &field.types {
            assert_eq!(Probability::new(kind.count, field.count), kind.probability);
            assert!(kind.unique <= kind.count);
            assert!(ratio(&kind.probability) <= 1.0);
        }
        assert_eq!(field.has_duplicates, field.types.iter().any(|t| t.count > t.unique));
    }
}

#[test]
fn probability_in_parts_of_a_scale() {
    assert_eq!(75, Probability::new(3, 4).scaled(100));
    assert_eq!(333, Probability::new(1, 3).scaled(1000));
    assert_eq!(0, Probability::new(0, 0).scaled(100));
    assert_eq!(100, Probability::new(7, 7).scaled(100));
    assert_eq!(u64::MAX, Probability::new(u64::MAX, u64::MAX).scaled(u64::MAX));
    assert_eq!(0, Probability::new(1, 2).scaled(1));
}
