use schema::analysis::analyse_strictly;
use schema::finalize;
use schema::AggregationError;
use schema::Classification;
use schema::CorpusAggregator;
use schema::CorpusSnapshot;
use schema::FieldAggregator;
use schema::MemorySnapshot;
use schema::RawValue;
use schema::Schema;
use schema::Settings;
use schema::Sketch;
use schema::Strategy;
use schema::TrackerSnapshot;
use schema::TypeTag;
use schema::ValueTracker;

fn record(members: Vec<(&str, RawValue)>) -> RawValue {
    RawValue::Object(members.into_iter().map(|(name, value)| (name.to_string(), value)).collect())
}

fn sample_corpus(settings: Settings) -> CorpusAggregator {
    let mut corpus = CorpusAggregator::new(settings);
    for i in 0..20 {
        corpus
            .observe_document(&record(vec![
                ("id", RawValue::Int64(i)),
                ("kind", RawValue::String(format!("k{}", i % 3))),
            ]))
            .unwrap();
    }
    corpus.observe_document(&record(vec![("id", RawValue::Null)])).unwrap();
    corpus
}

fn described(schema: &Schema) -> String {
    format!("{:?}", schema)
}

#[test]
fn snapshot_round_trip_keeps_the_aggregate() {
    for strategy in [
        Strategy::Exact,
        Strategy::Bounded { ceiling: 5 },
        Strategy::Approximate { capacity: 8 },
    ] {
        let corpus = sample_corpus(Settings::new(Classification::Plain, strategy));
        let snapshot = corpus.snapshot();
        assert_eq!(21, snapshot.count);
        assert_eq!(2, snapshot.fields.len());
        assert_eq!("id", snapshot.fields[0].name);
        assert_eq!(21, snapshot.fields[0].count);
        assert_eq!(12, snapshot.fields[0].trackers.len());
        let restored = CorpusAggregator::restore(&snapshot).unwrap();
        assert_eq!(described(&finalize(&corpus)), described(&finalize(&restored)));
        let mut twice = CorpusAggregator::restore(&snapshot).unwrap();
        twice.merge(&restored).unwrap();
        let mut direct = sample_corpus(Settings::new(Classification::Plain, strategy));
        direct.merge(&corpus).unwrap();
        assert_eq!(described(&finalize(&direct)), described(&finalize(&twice)));
    }
}

#[test]
fn snapshot_of_an_exact_tracker_holds_its_values() {
    let mut tracker = ValueTracker::new(Strategy::Exact);
    tracker.observe(&RawValue::Int64(7));
    tracker.observe(&RawValue::Int64(8));
    tracker.observe(&RawValue::Int64(7));
    let snapshot = tracker.snapshot();
    assert_eq!(3, snapshot.count);
    match &snapshot.memory {
        MemorySnapshot::Values(values) => {
            assert_eq!(2, values.len());
            assert!(values[0].same(&RawValue::Int64(7)));
            assert!(values[1].same(&RawValue::Int64(8)));
        }
        _ => panic!("an exact tracker keeps values"),
    }
    let restored = ValueTracker::restore(Strategy::Exact, &snapshot).unwrap();
    assert_eq!(3, restored.count());
    assert_eq!(2, restored.unique_count());
}

#[test]
fn snapshot_of_a_sketch_holds_its_sample() {
    let mut tracker = ValueTracker::new(Strategy::Approximate { capacity: 4 });
    for i in 0..40 {
        tracker.observe(&RawValue::Int64(i));
    }
    let snapshot = tracker.snapshot();
    match &snapshot.memory {
        MemorySnapshot::Sample { depth, hashes } => {
            assert!(*depth >= 3);
            assert!(hashes.len() <= 4);
            for hash in hashes {
                assert!(*hash <= u64::MAX >> *depth);
            }
        }
        _ => panic!("an approximate tracker keeps a sketch"),
    }
    let restored = ValueTracker::restore(Strategy::Approximate { capacity: 4 }, &snapshot).unwrap();
    assert_eq!(tracker.unique_count(), restored.unique_count());
    assert!(ValueTracker::restore(Strategy::Exact, &snapshot).is_none());
    assert!(ValueTracker::restore(Strategy::Approximate { capacity: 1 }, &snapshot).is_none()
        || snapshot_len(&snapshot) <= 1);
}

fn snapshot_len(snapshot: &TrackerSnapshot) -> usize {
    match &snapshot.memory {
        MemorySnapshot::Values(values) => values.len(),
        MemorySnapshot::Sample { hashes, .. } => hashes.len(),
    }
}

#[test]
fn tracker_snapshots_that_describe_no_tracker_are_refused() {
    let values = |values: Vec<RawValue>, count: u64| TrackerSnapshot {
        count,
        memory: MemorySnapshot::Values(values),
    };
    let sample = |depth: usize, hashes: Vec<u64>, count: u64| TrackerSnapshot {
        count,
        memory: MemorySnapshot::Sample { depth, hashes },
    };
    let exact = Strategy::Exact;
    let bounded = Strategy::Bounded { ceiling: 2 };
    assert!(ValueTracker::restore(exact, &values(vec![], 0)).is_some());
    assert!(ValueTracker::restore(exact, &values(vec![RawValue::Null], 1)).is_some());
    assert!(ValueTracker::restore(exact, &values(vec![RawValue::Null], 0)).is_none());
    assert!(ValueTracker::restore(exact, &values(vec![RawValue::Null, RawValue::Null], 5)).is_none());
    let three = vec![RawValue::Int64(1), RawValue::Int64(2), RawValue::Int64(3)];
    assert!(ValueTracker::restore(bounded, &values(three, 3)).is_none());
    assert!(ValueTracker::restore(bounded, &sample(0, vec![1, 2], 2)).is_some());
    assert!(ValueTracker::restore(bounded, &sample(0, vec![1, 2], 0)).is_none());
    assert!(ValueTracker::restore(bounded, &sample(0, vec![1, 2, 3], 3)).is_none());
    assert!(ValueTracker::restore(bounded, &sample(0, vec![1, 1], 3)).is_none());
    assert!(ValueTracker::restore(bounded, &sample(1, vec![u64::MAX], 3)).is_none());
    assert!(ValueTracker::restore(bounded, &sample(1, vec![u64::MAX / 2], 3)).is_some());
    assert!(ValueTracker::restore(bounded, &sample(64, vec![0], 3)).is_some());
    assert!(ValueTracker::restore(bounded, &sample(64, vec![1], 3)).is_none());
    assert!(ValueTracker::restore(bounded, &sample(65, vec![], 3)).is_none());
    assert!(ValueTracker::restore(exact, &sample(0, vec![1], 3)).is_none());
}

#[test]
fn sketch_restore_checks_the_sample() {
    let restored = Sketch::restore(4, 2, &vec![5, 9, 1]).unwrap();
    assert_eq!(12, restored.estimate());
    assert_eq!(2, restored.depth());
    assert_eq!(4, restored.capacity());
    assert_eq!(vec![5, 9, 1], restored.hashes());
    assert!(Sketch::restore(2, 2, &vec![5, 9, 1]).is_none());
    assert!(Sketch::restore(4, 2, &vec![5, 9, 5]).is_none());
    assert!(Sketch::restore(4, 2, &vec![u64::MAX / 4 + 1]).is_none());
    assert!(Sketch::restore(4, 2, &vec![u64::MAX / 4]).is_some());
    assert!(Sketch::restore(0, 0, &vec![3]).is_some());
    assert!(Sketch::restore(0, 0, &vec![3, 4]).is_none());
}

#[test]
fn field_snapshots_that_describe_no_field_are_refused() {
    let settings = Settings::standard();
    let mut field = FieldAggregator::new(settings);
    field.observe(&RawValue::Int64(1));
    field.observe(&RawValue::Null);
    let good = field.snapshot("f");
    assert_eq!("f", good.name);
    assert_eq!(2, good.count);
    assert_eq!(1, good.trackers[TypeTag::Int64.ordinal()].count);
    assert_eq!(1, good.trackers[TypeTag::Null.ordinal()].count);
    assert_eq!(0, good.trackers[TypeTag::String.ordinal()].count);
    let restored = FieldAggregator::restore(settings, &good).unwrap();
    assert_eq!(2, restored.count());
    assert_eq!(1, restored.tracker(TypeTag::Null).count());
    let mut miscounted = field.snapshot("f");
    miscounted.count = 3;
    assert!(FieldAggregator::restore(settings, &miscounted).is_none());
    let mut short = field.snapshot("f");
    short.trackers.pop();
    assert!(FieldAggregator::restore(settings, &short).is_none());
    let mut doubled = field.snapshot("f");
    doubled.trackers[TypeTag::Int64.ordinal()] = TrackerSnapshot {
        count: 1,
        memory: MemorySnapshot::Values(vec![RawValue::Int64(1), RawValue::Int64(1)]),
    };
    assert!(FieldAggregator::restore(settings, &doubled).is_none());
}

#[test]
fn corpus_snapshots_that_describe_no_corpus_are_refused() {
    let corpus = sample_corpus(Settings::standard());
    let refused = |snapshot: &CorpusSnapshot| match CorpusAggregator::restore(snapshot) {
        Err(error) => error == AggregationError::InvalidSnapshot,
        Ok(_) => false,
    };
    assert!(!refused(&corpus.snapshot()));
    let mut swapped = corpus.snapshot();
    swapped.fields.swap(0, 1);
    assert!(refused(&swapped));
    let mut twice = corpus.snapshot();
    twice.fields[1].name = "id".to_string();
    assert!(refused(&twice));
    let mut few = corpus.snapshot();
    few.count = 20;
    assert!(refused(&few));
    let mut more = corpus.snapshot();
    more.count = 22;
    assert!(!refused(&more));
    let mut other = corpus.snapshot();
    other.settings = Settings::new(Classification::Plain, Strategy::Bounded { ceiling: 3 });
    assert!(refused(&other));
    let empty = CorpusAggregator::new(Settings::standard()).snapshot();
    assert!(!refused(&empty));
    let mut vacant = corpus.snapshot();
    vacant.fields[0] = FieldAggregator::new(Settings::standard()).snapshot("a");
    assert!(refused(&vacant));
}

#[test]
fn reset_forgets_everything() {
    let mut corpus = sample_corpus(Settings::standard());
    corpus.reset();
    assert_eq!(0, corpus.document_count());
    assert_eq!(0, corpus.field_count());
    corpus.observe_document(&record(vec![("z", RawValue::Null)])).unwrap();
    let schema = finalize(&corpus);
    assert_eq!(1, schema.count);
    assert_eq!("z", schema.fields[0].name);
}

#[test]
fn strict_analysis_stops_at_what_is_no_document() {
    let good = vec![record(vec![("a", RawValue::Int64(1))]), record(vec![])];
    let schema = analyse_strictly(Settings::standard(), &good).unwrap();
    assert_eq!(2, schema.count);
    assert_eq!(1, schema.fields.len());
    let bad = vec![
        record(vec![("a", RawValue::Int64(1))]),
        RawValue::Int64(1),
        record(vec![]),
        RawValue::Null,
    ];
    assert_eq!(Some(1), analyse_strictly(Settings::standard(), &bad).err());
    assert!(analyse_strictly(Settings::standard(), &vec![]).is_ok());
}

#[test]
fn many_values_are_found_by_their_fingerprints() {
    let mut tracker = ValueTracker::new(Strategy::Exact);
    for round in 0..2 {
        for i in 0..3000i64 {
            tracker.observe(&RawValue::String(format!("value {}", i)));
        }
        assert_eq!(3000, tracker.unique_count());
        assert_eq!(3000 * (round + 1), tracker.count());
    }
    assert!(tracker.has_duplicates());
}
