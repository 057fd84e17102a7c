use schema::finalize;
use schema::AggregationError;
use schema::Classification;
use schema::CorpusAggregator;
use schema::FieldAggregator;
use schema::RawValue;
use schema::Settings;
use schema::Sketch;
use schema::Strategy;
use schema::TypeTag;
use schema::ValueTracker;

const FINGERPRINT_MINUS_ONE: u64 = 0xe263_65ee_09f1_6664;
const FINGERPRINT_AB: u64 = 0xea9a_c44c_f315_1d46;
const FINGERPRINT_NULL_ITEM: u64 = 0x4071_cf78_a737_915d;

fn one_field(value: RawValue) -> RawValue {
    RawValue::Object(vec![("v".to_string(), value)])
}

fn numbers(strategy: Strategy, from: i64, to: i64) -> ValueTracker {
    let mut tracker = ValueTracker::new(strategy);
    for i in from..to {
        tracker.observe(&RawValue::Int64(i));
    }
    tracker
}

#[test]
fn fingerprints_depend_on_the_value_alone() {
    let a = RawValue::Object(vec![
        ("k".to_string(), RawValue::Array(vec![RawValue::Int64(-1), RawValue::String("x".to_string())])),
        ("l".to_string(), RawValue::Double(10.5f64.to_bits())),
    ]);
    assert_eq!(a.fingerprint(), a.duplicate().fingerprint());
    assert_eq!(971909191830961740, RawValue::Null.fingerprint());
    assert_eq!(FINGERPRINT_MINUS_ONE, RawValue::Int64(-1).fingerprint());
    assert_eq!(FINGERPRINT_AB, RawValue::String("ab".to_string()).fingerprint());
    assert_eq!(FINGERPRINT_NULL_ITEM, RawValue::Array(vec![RawValue::Null]).fingerprint());
    let all = [
        RawValue::Null,
        RawValue::Boolean(false),
        RawValue::Boolean(true),
        RawValue::Int64(0),
        RawValue::Int64(1),
        RawValue::Int64(-1),
        RawValue::UInt64(0),
        RawValue::UInt64(1),
        RawValue::Double(0),
        RawValue::Double(1),
        RawValue::String(String::new()),
        RawValue::String("1".to_string()),
        RawValue::String("a".to_string()),
        RawValue::String("ab".to_string()),
        RawValue::Array(vec![]),
        RawValue::Array(vec![RawValue::Null]),
        RawValue::Array(vec![RawValue::Null, RawValue::Null]),
        RawValue::Array(vec![RawValue::Array(vec![])]),
        RawValue::Object(vec![]),
        RawValue::Object(vec![("a".to_string(), RawValue::Null)]),
        RawValue::Object(vec![("".to_string(), RawValue::String("a".to_string()))]),
        a,
    ];
    for (i, x) in all.iter().enumerate() {
        for (j, y) in all.iter().enumerate() {
            assert_eq!(i == j, x.fingerprint() == y.fingerprint(), "{} and {}", i, j);
        }
    }
}

#[test]
fn sketch_is_exact_up_to_its_capacity() {
    let mut sketch = Sketch::new(4);
    assert_eq!(4, sketch.capacity());
    assert_eq!(0, sketch.estimate());
    for hash in [7u64, 1 << 63, 7, u64::MAX, 0, 7] {
        sketch.insert(hash);
    }
    assert_eq!(4, sketch.estimate());
}

#[test]
fn sketch_goes_deeper_when_it_is_full() {
    let mut sketch = Sketch::new(2);
    sketch.insert(1);
    sketch.insert(2);
    assert_eq!(2, sketch.estimate());
    sketch.insert(u64::MAX);
    assert_eq!(4, sketch.estimate());
    sketch.insert(u64::MAX - 1);
    assert_eq!(4, sketch.estimate());
    sketch.insert(3);
    assert_eq!(0x8000_0000_0000_0000, sketch.estimate());
    let mut least = Sketch::new(0);
    assert_eq!(1, least.capacity());
    least.insert(0x4000_0000_0000_0000);
    assert_eq!(1, least.estimate());
    least.insert(0xc000_0000_0000_0000);
    assert_eq!(2, least.estimate());
    least.insert(0x4000_0000_0000_0000);
    assert_eq!(2, least.estimate());
    least.insert(0x2000_0000_0000_0000);
    assert_eq!(4, least.estimate());
}

#[test]
fn sketch_estimate_is_capped() {
    let mut sketch = Sketch::new(2);
    sketch.insert(0);
    sketch.insert(1);
    sketch.insert(2);
    assert_eq!(u64::MAX, sketch.estimate());
}

#[test]
fn sketch_merge_is_as_if_all_was_seen_by_one() {
    let hashes: Vec<u64> = (0..200u64).map(|i| i.wrapping_mul(0x9e37_79b9_7f4a_7c15)).collect();
    let build = |from: usize, to: usize| {
        let mut sketch = Sketch::new(16);
        for hash in &hashes[from..to] {
            sketch.insert(*hash);
        }
        sketch
    };
    let whole = build(0, 200);
    let mut left = build(0, 70);
    left.merge(&build(70, 150));
    left.merge(&build(150, 200));
    let mut tail = build(70, 150);
    tail.merge(&build(150, 200));
    let mut right = build(0, 70);
    right.merge(&tail);
    let mut swapped = build(150, 200);
    swapped.merge(&build(0, 70));
    swapped.merge(&build(70, 150));
    assert_eq!(whole.estimate(), left.estimate());
    assert_eq!(whole.estimate(), right.estimate());
    assert_eq!(whole.estimate(), swapped.estimate());
    assert!(whole.estimate() >= 100 && whole.estimate() <= 400);
}

#[test]
fn approximate_tracker_estimates() {
    let tracker = numbers(Strategy::Approximate { capacity: 64 }, 0, 50);
    assert!(tracker.is_approximate());
    assert_eq!(50, tracker.count());
    assert_eq!(50, tracker.unique_count());
    assert!(!tracker.has_duplicates());
    let mut repeated = numbers(Strategy::Approximate { capacity: 64 }, 0, 50);
    for i in 0..50 {
        repeated.observe(&RawValue::Int64(i));
    }
    assert_eq!(100, repeated.count());
    assert_eq!(50, repeated.unique_count());
    assert!(repeated.has_duplicates());
    let empty = ValueTracker::new(Strategy::Approximate { capacity: 64 });
    assert!(!empty.is_approximate());
    assert_eq!(0, empty.unique_count());
}

#[test]
fn approximate_tracker_is_close_on_many_values() {
    let tracker = numbers(Strategy::Approximate { capacity: 1024 }, 0, 20000);
    let unique = tracker.unique_count();
    assert!(unique <= 20000);
    assert!(unique >= 18000, "estimated {}", unique);
}

#[test]
fn standard_capacity_is_close_on_very_many_values() {
    let capacity = schema::tracker_model::STANDARD_CAPACITY;
    assert_eq!(16384, capacity);
    let mut tracker = ValueTracker::new(Strategy::Approximate { capacity });
    for i in 0..200000i64 {
        tracker.observe(&RawValue::String(format!("user-{}", i)));
        tracker.observe(&RawValue::String(format!("user-{}", i / 2)));
    }
    let unique = tracker.unique_count() as f64;
    assert!(tracker.has_duplicates());
    assert_eq!(400000, tracker.count());
    assert!((unique - 200000.0).abs() / 200000.0 < 0.02, "estimated {}", unique);
}

#[test]
fn unique_never_exceeds_count() {
    for capacity in [1usize, 2, 3, 8] {
        let tracker = numbers(Strategy::Approximate { capacity }, 0, 100);
        assert!(tracker.unique_count() <= tracker.count());
    }
}

#[test]
fn bounded_tracker_turns_to_a_sketch_beyond_its_ceiling() {
    let strategy = Strategy::Bounded { ceiling: 10 };
    let mut tracker = numbers(strategy, 0, 10);
    assert!(!tracker.is_approximate());
    assert_eq!(10, tracker.unique_count());
    tracker.observe(&RawValue::Int64(3));
    assert!(!tracker.is_approximate());
    assert_eq!(10, tracker.unique_count());
    assert!(tracker.has_duplicates());
    tracker.observe(&RawValue::Int64(10));
    assert!(tracker.is_approximate());
    assert_eq!(12, tracker.count());
    assert!(tracker.unique_count() <= 12);
    assert!(tracker.unique_count() >= 4);
}

#[test]
fn bounded_merge_is_as_if_all_was_seen_by_one() {
    let strategy = Strategy::Bounded { ceiling: 16 };
    let whole = numbers(strategy, 0, 60);
    let mut left = numbers(strategy, 0, 10);
    assert_eq!(Ok(()), left.merge(&numbers(strategy, 10, 40)));
    assert_eq!(Ok(()), left.merge(&numbers(strategy, 40, 60)));
    let mut tail = numbers(strategy, 10, 40);
    assert_eq!(Ok(()), tail.merge(&numbers(strategy, 40, 60)));
    let mut right = numbers(strategy, 0, 10);
    assert_eq!(Ok(()), right.merge(&tail));
    assert!(whole.is_approximate());
    assert!(left.is_approximate());
    assert_eq!(60, left.count());
    assert_eq!(whole.unique_count(), left.unique_count());
    assert_eq!(whole.unique_count(), right.unique_count());
    let mut small = numbers(strategy, 0, 8);
    assert_eq!(Ok(()), small.merge(&numbers(strategy, 4, 12)));
    assert!(!small.is_approximate());
    assert_eq!(12, small.unique_count());
    assert_eq!(16, small.count());
}

#[test]
fn trackers_of_different_strategies_are_not_merged() {
    let strategies = [
        Strategy::Exact,
        Strategy::Bounded { ceiling: 4 },
        Strategy::Bounded { ceiling: 5 },
        Strategy::Approximate { capacity: 4 },
        Strategy::Approximate { capacity: 5 },
    ];
    for (i, a) in strategies.iter().enumerate() {
        for (j, b) in strategies.iter().enumerate() {
            assert_eq!(i == j, a.agrees(b));
            let mut left = numbers(*a, 0, 3);
            let merged = left.merge(&numbers(*b, 0, 3));
            if i == j {
                assert_eq!(Ok(()), merged);
                assert_eq!(6, left.count());
            } else {
                assert_eq!(Err(AggregationError::IncompatibleMerge), merged);
                assert_eq!(3, left.count());
                assert_eq!(3, left.unique_count());
            }
        }
    }
}

#[test]
fn strategy_limits() {
    assert_eq!(1, Strategy::Exact.sketch_capacity());
    assert_eq!(1, Strategy::Bounded { ceiling: 0 }.sketch_capacity());
    assert_eq!(7, Strategy::Bounded { ceiling: 7 }.sketch_capacity());
    assert_eq!(1, Strategy::Approximate { capacity: 0 }.sketch_capacity());
    assert_eq!(9, Strategy::Approximate { capacity: 9 }.sketch_capacity());
    assert!(Strategy::Exact.admits_size(usize::MAX));
    assert!(Strategy::Bounded { ceiling: 7 }.admits_size(7));
    assert!(!Strategy::Bounded { ceiling: 7 }.admits_size(8));
    assert!(Strategy::Approximate { capacity: 9 }.admits_size(0));
    assert!(!Strategy::Approximate { capacity: 9 }.admits_size(1));
}

#[test]
fn schema_marks_what_is_estimated() {
    let settings = Settings::new(Classification::Plain, Strategy::Bounded { ceiling: 3 });
    let mut corpus = CorpusAggregator::new(settings);
    for i in 0..5 {
        corpus.observe_document(&one_field(RawValue::Int64(i))).unwrap();
    }
    corpus.observe_document(&one_field(RawValue::String("x".to_string()))).unwrap();
    let schema = finalize(&corpus);
    let field = &schema.fields[0];
    assert!(field.approximate);
    assert_eq!(2, field.types.len());
    assert_eq!("Int64", field.types[0].name);
    assert!(field.types[0].approximate);
    assert!(field.types[0].unique <= 5);
    assert_eq!("String", field.types[1].name);
    assert!(!field.types[1].approximate);
    assert_eq!(1, field.types[1].unique);
    assert_eq!(field.has_duplicates, field.types.iter().any(|t| t.count > t.unique));
}

#[test]
fn exact_schema_is_not_marked() {
    let mut corpus = CorpusAggregator::new(Settings::standard());
    for i in 0..50 {
        corpus.observe_document(&one_field(RawValue::Int64(i))).unwrap();
    }
    let schema = finalize(&corpus);
    assert!(!schema.fields[0].approximate);
    assert!(!schema.fields[0].types[0].approximate);
    assert_eq!(50, schema.fields[0].types[0].unique);
}

#[test]
fn fields_of_different_strategies_are_not_merged() {
    let exact = Settings::new(Classification::Plain, Strategy::Exact);
    let sketched = Settings::new(Classification::Plain, Strategy::Approximate { capacity: 8 });
    assert!(!exact.agrees(&sketched));
    assert!(sketched.agrees(&sketched));
    let mut field = FieldAggregator::new(exact);
    field.observe(&RawValue::Int64(1));
    let mut other = FieldAggregator::new(sketched);
    other.observe(&RawValue::Int64(1));
    assert_eq!(Err(AggregationError::IncompatibleMerge), field.merge(&other));
    assert_eq!(1, field.count());
    assert!(!field.is_approximate());
    assert!(other.is_approximate());
    assert!(other.tracker(TypeTag::Int64).is_approximate());
    let mut left = CorpusAggregator::new(exact);
    let right = CorpusAggregator::new(sketched);
    assert_eq!(Err(AggregationError::IncompatibleMerge), left.merge(&right));
}
