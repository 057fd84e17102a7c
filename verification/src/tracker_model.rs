//! The mathematical content of a value tracker, and the algebra of merging
//! trackers.

use vstd::prelude::*;
use vstd::set_lib::lemma_len_subset;
use vstd::set_lib::lemma_len_union;
use crate::hashing::fingerprint_of;
use crate::sketch_model::SketchModel;
use crate::sketch_model::settle;
use crate::sketch_model::lemma_settle;
use crate::sketch_model::lemma_settle_again;
use crate::sketch_model::lemma_sketch_insert_is_merge;
use crate::sketch_model::lemma_sketch_merge_associative;
use crate::sketch_model::lemma_sketch_merge_commutative;
use crate::sketch_model::lemma_sketch_merge_empty;
use crate::sketch_model::lemma_sketch_merge_wf;
use crate::value::ValueModel;

verus! {

/// How a tracker remembers the values it has seen.
#[derive(Clone, Copy, PartialEq, Eq, Structural, Debug)]
pub enum Strategy {
    /// Every distinct value is kept: the number of distinct values is
    /// exact, and memory grows with it.
    Exact,
    /// Distinct values are kept as long as there are no more than
    /// `ceiling` of them. With one more the tracker turns to a sketch that
    /// holds up to `ceiling` hashes, and the number of distinct values is
    /// an estimate from then on.
    Bounded { ceiling: usize },
    /// From the first value on a sketch that holds up to `capacity` hashes
    /// is kept: the number of distinct values is an estimate.
    Approximate { capacity: usize },
}

/// The capacity with which estimates are typically within 2 % of the true
/// number of distinct values.
pub const STANDARD_CAPACITY: usize = 16384;

impl Strategy {
    /// How many distinct values may be kept, if their number is bounded.
    pub open spec fn ceiling(self) -> Option<nat> {
        match self {
            Strategy::Exact => None,
            Strategy::Bounded { ceiling } => Some(ceiling as nat),
            Strategy::Approximate { capacity } => Some(0),
        }
    }

    /// How many hashes a sketch holds: at least one.
    pub open spec fn capacity(self) -> nat {
        match self {
            Strategy::Exact => 1,
            Strategy::Bounded { ceiling } => if ceiling == 0 {
                1
            } else {
                ceiling as nat
            },
            Strategy::Approximate { capacity } => if capacity == 0 {
                1
            } else {
                capacity as nat
            },
        }
    }

    /// Whether this many distinct values may be kept.
    pub open spec fn admits(self, size: nat) -> bool {
        match self.ceiling() {
            None => true,
            Some(ceiling) => size <= ceiling,
        }
    }
}

/// The hashes of these values.
pub open spec fn hashes_of(values: Set<ValueModel>) -> Set<u64> {
    Set::new(|h: u64| exists|v: ValueModel| values.contains(v) && fingerprint_of(v) == h)
}

/// The sketch that has seen these values.
pub open spec fn sketch_of(capacity: nat, values: Set<ValueModel>) -> SketchModel {
    settle(capacity, 0, hashes_of(values))
}

/// What a tracker remembers of the values it has seen.
pub enum Seen {
    /// The distinct values.
    Exact(Set<ValueModel>),
    /// A sketch of their hashes.
    Sampled(SketchModel),
}

impl Seen {
    /// Values are kept only as far as the strategy admits, and a sketch
    /// only where the strategy has one, with the capacity that it gives.
    pub open spec fn wf(self, strategy: Strategy) -> bool {
        match self {
            Seen::Exact(values) => values.finite() && strategy.admits(values.len()),
            Seen::Sampled(sketch) => sketch.wf() && sketch.capacity == strategy.capacity()
                && strategy.ceiling() is Some,
        }
    }

    /// What is remembered as a sketch.
    pub open spec fn as_sketch(self, strategy: Strategy) -> SketchModel {
        match self {
            Seen::Exact(values) => sketch_of(strategy.capacity(), values),
            Seen::Sampled(sketch) => sketch,
        }
    }

    /// These values, kept as they are if the strategy admits so many, else
    /// as a sketch.
    pub open spec fn bounded(strategy: Strategy, values: Set<ValueModel>) -> Seen {
        if strategy.admits(values.len()) {
            Seen::Exact(values)
        } else {
            Seen::Sampled(sketch_of(strategy.capacity(), values))
        }
    }

    /// What is remembered of what either side has seen.
    pub open spec fn join(self, other: Seen, strategy: Strategy) -> Seen {
        match (self, other) {
            (Seen::Exact(mine), Seen::Exact(theirs)) => Seen::bounded(
                strategy,
                mine.union(theirs),
            ),
            _ => Seen::Sampled(self.as_sketch(strategy).merge(other.as_sketch(strategy))),
        }
    }
}

/// The mathematical content of a [`crate::tracker::ValueTracker`].
pub struct TrackerModel {
    /// The strategy the tracker was made with.
    pub strategy: Strategy,
    /// How many values were observed.
    pub count: nat,
    /// What is remembered of them.
    pub seen: Seen,
}

impl TrackerModel {
    /// A tracker that has seen nothing.
    pub open spec fn empty(strategy: Strategy) -> TrackerModel {
        TrackerModel { strategy, count: 0, seen: Seen::Exact(Set::empty()) }
    }

    /// A tracker that has seen one value.
    pub open spec fn single(strategy: Strategy, value: ValueModel) -> TrackerModel {
        TrackerModel {
            strategy,
            count: 1,
            seen: Seen::bounded(strategy, Set::empty().insert(value)),
        }
    }

    /// What is remembered fits the strategy, no more distinct values are
    /// kept than were observed, and a tracker that has seen nothing keeps
    /// no sketch.
    pub open spec fn wf(self) -> bool {
        &&& self.seen.wf(self.strategy)
        &&& self.seen matches Seen::Exact(values) ==> values.len() <= self.count
        &&& self.seen is Sampled ==> self.count >= 1
    }

    /// The tracker after one more observation.
    pub open spec fn observe(self, value: ValueModel) -> TrackerModel {
        TrackerModel {
            strategy: self.strategy,
            count: self.count + 1,
            seen: match self.seen {
                Seen::Exact(values) => Seen::bounded(self.strategy, values.insert(value)),
                Seen::Sampled(sketch) => Seen::Sampled(sketch.insert(fingerprint_of(value))),
            },
        }
    }

    /// Whether two trackers can be merged: they follow the same strategy.
    pub open spec fn compatible(self, other: TrackerModel) -> bool {
        self.strategy == other.strategy
    }

    /// The tracker that has seen what either of two trackers has seen.
    pub open spec fn merge(self, other: TrackerModel) -> TrackerModel {
        TrackerModel {
            strategy: self.strategy,
            count: self.count + other.count,
            seen: self.seen.join(other.seen, self.strategy),
        }
    }

    /// Whether the number of distinct values is an estimate.
    pub open spec fn approximate(self) -> bool {
        self.seen is Sampled
    }

    /// The number of distinct values seen: exact where the values are
    /// kept, else the estimate of the sketch, and never more than the
    /// number of values observed.
    pub open spec fn unique(self) -> nat {
        match self.seen {
            Seen::Exact(values) => values.len(),
            Seen::Sampled(sketch) => if sketch.estimate() <= self.count {
                sketch.estimate()
            } else {
                self.count
            },
        }
    }

    /// Whether some value was seen more than once: under an estimate,
    /// whether fewer distinct values are estimated than were observed.
    pub open spec fn has_duplicates(self) -> bool {
        self.count > self.unique()
    }
}

/// Finitely many values have finitely many hashes.
pub proof fn lemma_hashes_finite(values: Set<ValueModel>)
    requires
        values.finite(),
    ensures
        hashes_of(values).finite(),
    decreases values.len(),
{
    if values.len() == 0 {
        assert(hashes_of(values) =~= Set::empty()) by {
            assert forall|h: u64| !hashes_of(values).contains(h) by {
                if hashes_of(values).contains(h) {
                    let v = choose|v: ValueModel| values.contains(v) && fingerprint_of(v) == h;
                    assert(values.len() > 0);
                }
            }
        }
    } else {
        let v = values.choose();
        lemma_hashes_finite(values.remove(v));
        lemma_hashes_insert(values.remove(v), v);
        assert(values.remove(v).insert(v) =~= values);
    }
}

/// One more value adds its hash.
pub proof fn lemma_hashes_insert(values: Set<ValueModel>, value: ValueModel)
    ensures
        hashes_of(values.insert(value)) == hashes_of(values).insert(fingerprint_of(value)),
{
    assert forall|h: u64|
        hashes_of(values.insert(value)).contains(h) <==> hashes_of(values).insert(
            fingerprint_of(value),
        ).contains(h) by {
        if hashes_of(values.insert(value)).contains(h) {
            let v = choose|v: ValueModel|
                values.insert(value).contains(v) && fingerprint_of(v) == h;
            if v != value {
                assert(values.contains(v));
            }
        }
        if hashes_of(values).contains(h) {
            let v = choose|v: ValueModel| values.contains(v) && fingerprint_of(v) == h;
            assert(values.insert(value).contains(v));
        }
        if h == fingerprint_of(value) {
            assert(values.insert(value).contains(value));
        }
    }
    assert(hashes_of(values.insert(value)) =~= hashes_of(values).insert(fingerprint_of(value)));
}

/// The hashes of two sets of values are the hashes of either.
pub proof fn lemma_hashes_union(a: Set<ValueModel>, b: Set<ValueModel>)
    ensures
        hashes_of(a.union(b)) == hashes_of(a).union(hashes_of(b)),
{
    assert forall|h: u64|
        hashes_of(a.union(b)).contains(h) <==> hashes_of(a).union(hashes_of(b)).contains(h) by {
        if hashes_of(a.union(b)).contains(h) {
            let v = choose|v: ValueModel| a.union(b).contains(v) && fingerprint_of(v) == h;
            if a.contains(v) {
                assert(hashes_of(a).contains(h));
            } else {
                assert(hashes_of(b).contains(h));
            }
        }
        if hashes_of(a).contains(h) {
            let v = choose|v: ValueModel| a.contains(v) && fingerprint_of(v) == h;
            assert(a.union(b).contains(v));
        }
        if hashes_of(b).contains(h) {
            let v = choose|v: ValueModel| b.contains(v) && fingerprint_of(v) == h;
            assert(a.union(b).contains(v));
        }
    }
    assert(hashes_of(a.union(b)) =~= hashes_of(a).union(hashes_of(b)));
}

/// The sketch of finitely many values is well formed.
pub proof fn lemma_sketch_of_wf(capacity: nat, values: Set<ValueModel>)
    requires
        capacity >= 1,
        values.finite(),
    ensures
        sketch_of(capacity, values).wf(),
        sketch_of(capacity, values).capacity == capacity,
{
    lemma_hashes_finite(values);
    lemma_settle(capacity, 0, hashes_of(values));
}

/// The sketch of no values is the sketch that has seen nothing, and the
/// sketch of one value the sketch that has seen its hash.
pub proof fn lemma_sketch_of_few(capacity: nat, value: ValueModel)
    requires
        capacity >= 1,
    ensures
        sketch_of(capacity, Set::empty()) == SketchModel::empty(capacity),
        sketch_of(capacity, Set::empty().insert(value)) == SketchModel::single(
            capacity,
            fingerprint_of(value),
        ),
{
    let none = Set::<ValueModel>::empty();
    assert(hashes_of(none) =~= Set::<u64>::empty());
    assert(crate::sketch_model::below(Set::<u64>::empty(), crate::sketch_model::limit_at(0))
        =~= Set::<u64>::empty());
    lemma_hashes_insert(none, value);
    let one = Set::<u64>::empty().insert(fingerprint_of(value));
    assert(crate::sketch_model::below(one, crate::sketch_model::limit_at(0)) =~= one);
}

/// The sketch of the values of two sets is the merged sketch of either.
pub proof fn lemma_sketch_of_union(capacity: nat, a: Set<ValueModel>, b: Set<ValueModel>)
    requires
        capacity >= 1,
        a.finite(),
        b.finite(),
    ensures
        sketch_of(capacity, a.union(b)) == sketch_of(capacity, a).merge(sketch_of(capacity, b)),
{
    let ha = hashes_of(a);
    let hb = hashes_of(b);
    lemma_hashes_finite(a);
    lemma_hashes_finite(b);
    lemma_hashes_union(a, b);
    let sa = settle(capacity, 0, ha);
    let sb = settle(capacity, 0, hb);
    lemma_settle(capacity, 0, ha);
    lemma_settle(capacity, 0, hb);
    lemma_settle_again(capacity, 0, ha, sb.depth, sb.sample);
    lemma_settle_again(capacity, 0, hb, 0, ha);
    assert(sb.sample.union(ha) =~= ha.union(sb.sample));
    assert(hb.union(ha) =~= ha.union(hb));
}

/// A union is finite and at least as large as either side.
proof fn lemma_union_sizes(a: Set<ValueModel>, b: Set<ValueModel>)
    requires
        a.finite(),
        b.finite(),
    ensures
        a.union(b).finite(),
        a.len() <= a.union(b).len(),
        b.len() <= a.union(b).len(),
        a.union(b).len() <= a.len() + b.len(),
{
    lemma_len_union(a, b);
    lemma_len_subset(a, a.union(b));
    lemma_len_subset(b, a.union(b));
}

/// What is remembered as a sketch is a well-formed sketch.
pub proof fn lemma_as_sketch_wf(seen: Seen, strategy: Strategy)
    requires
        seen.wf(strategy),
    ensures
        seen.as_sketch(strategy).wf(),
        seen.as_sketch(strategy).capacity == strategy.capacity(),
{
    if let Seen::Exact(values) = seen {
        lemma_sketch_of_wf(strategy.capacity(), values);
    }
}

/// Joining keeps what is remembered well formed.
pub proof fn lemma_join_wf(a: Seen, b: Seen, strategy: Strategy)
    requires
        a.wf(strategy),
        b.wf(strategy),
    ensures
        a.join(b, strategy).wf(strategy),
{
    lemma_as_sketch_wf(a, strategy);
    lemma_as_sketch_wf(b, strategy);
    lemma_sketch_merge_wf(a.as_sketch(strategy), b.as_sketch(strategy));
    if let (Seen::Exact(x), Seen::Exact(y)) = (a, b) {
        lemma_union_sizes(x, y);
        lemma_sketch_of_wf(strategy.capacity(), x.union(y));
    }
}

/// As sketches, what is joined is what is merged.
pub proof fn lemma_join_as_sketch(a: Seen, b: Seen, strategy: Strategy)
    requires
        a.wf(strategy),
        b.wf(strategy),
    ensures
        a.join(b, strategy).as_sketch(strategy) == a.as_sketch(strategy).merge(
            b.as_sketch(strategy),
        ),
{
    if let (Seen::Exact(x), Seen::Exact(y)) = (a, b) {
        lemma_sketch_of_union(strategy.capacity(), x, y);
    }
}

/// To observe a value is to merge with the tracker that has seen just it.
pub proof fn lemma_tracker_observe_is_merge(m: TrackerModel, value: ValueModel)
    requires
        m.wf(),
    ensures
        m.observe(value) == m.merge(TrackerModel::single(m.strategy, value)),
{
    let one = Set::<ValueModel>::empty().insert(value);
    lemma_sketch_of_few(m.strategy.capacity(), value);
    match m.seen {
        Seen::Exact(values) => {
            assert(values.insert(value) =~= values.union(one));
            if !m.strategy.admits(one.len()) {
                lemma_sketch_of_union(m.strategy.capacity(), values, one);
                lemma_union_sizes(values, one);
            }
        },
        Seen::Sampled(sketch) => {
            lemma_sketch_insert_is_merge(sketch, fingerprint_of(value));
        },
    }
}

/// Merging keeps trackers well formed.
pub proof fn lemma_tracker_merge_wf(a: TrackerModel, b: TrackerModel)
    requires
        a.wf(),
        b.wf(),
        a.compatible(b),
    ensures
        a.merge(b).wf(),
        a.merge(b).strategy == a.strategy,
        a.merge(b).unique() <= a.merge(b).count,
{
    lemma_join_wf(a.seen, b.seen, a.strategy);
    if let (Seen::Exact(x), Seen::Exact(y)) = (a.seen, b.seen) {
        lemma_union_sizes(x, y);
    }
}

/// The tracker that has seen one value is well formed.
pub proof fn lemma_tracker_single_wf(strategy: Strategy, value: ValueModel)
    ensures
        TrackerModel::single(strategy, value).wf(),
{
    let one = Set::<ValueModel>::empty().insert(value);
    lemma_sketch_of_wf(strategy.capacity(), one);
}

/// Observation keeps a tracker well formed.
pub proof fn lemma_tracker_observe_wf(m: TrackerModel, value: ValueModel)
    requires
        m.wf(),
    ensures
        m.observe(value).wf(),
{
    lemma_tracker_observe_is_merge(m, value);
    lemma_tracker_single_wf(m.strategy, value);
    lemma_tracker_merge_wf(m, TrackerModel::single(m.strategy, value));
}

/// Merging does not depend on the order of its two sides.
pub proof fn lemma_tracker_merge_commutative(a: TrackerModel, b: TrackerModel)
    requires
        a.wf(),
        b.wf(),
        a.compatible(b),
    ensures
        a.merge(b) == b.merge(a),
{
    lemma_as_sketch_wf(a.seen, a.strategy);
    lemma_as_sketch_wf(b.seen, a.strategy);
    lemma_sketch_merge_commutative(a.seen.as_sketch(a.strategy), b.seen.as_sketch(a.strategy));
    if let (Seen::Exact(x), Seen::Exact(y)) = (a.seen, b.seen) {
        assert(x.union(y) =~= y.union(x));
    }
}

/// Merging three trackers does not depend on which two are merged first.
pub proof fn lemma_tracker_merge_associative(a: TrackerModel, b: TrackerModel, c: TrackerModel)
    requires
        a.wf(),
        b.wf(),
        c.wf(),
        a.compatible(b),
        b.compatible(c),
    ensures
        a.merge(b).merge(c) == a.merge(b.merge(c)),
{
    let strategy = a.strategy;
    let capacity = strategy.capacity();
    lemma_join_wf(a.seen, b.seen, strategy);
    lemma_join_wf(b.seen, c.seen, strategy);
    lemma_as_sketch_wf(a.seen, strategy);
    lemma_as_sketch_wf(b.seen, strategy);
    lemma_as_sketch_wf(c.seen, strategy);
    lemma_join_as_sketch(a.seen, b.seen, strategy);
    lemma_join_as_sketch(b.seen, c.seen, strategy);
    lemma_sketch_merge_associative(
        a.seen.as_sketch(strategy),
        b.seen.as_sketch(strategy),
        c.seen.as_sketch(strategy),
    );
    if let (Seen::Exact(x), Seen::Exact(y), Seen::Exact(z)) = (a.seen, b.seen, c.seen) {
        lemma_union_sizes(x, y);
        lemma_union_sizes(y, z);
        lemma_union_sizes(x.union(y), z);
        lemma_union_sizes(x, y.union(z));
        assert(x.union(y).union(z) =~= x.union(y.union(z)));
        lemma_sketch_of_union(capacity, x.union(y), z);
        lemma_sketch_of_union(capacity, x, y.union(z));
    }
}

/// Merging with a tracker that has seen nothing changes nothing.
pub proof fn lemma_tracker_merge_empty(a: TrackerModel)
    requires
        a.wf(),
    ensures
        a.merge(TrackerModel::empty(a.strategy)) == a,
        TrackerModel::empty(a.strategy).merge(a) == a,
{
    let none = Set::<ValueModel>::empty();
    match a.seen {
        Seen::Exact(values) => {
            assert(values.union(none) =~= values);
            assert(none.union(values) =~= values);
        },
        Seen::Sampled(sketch) => {
            lemma_sketch_of_few(a.strategy.capacity(), arbitrary());
            lemma_sketch_merge_empty(sketch);
        },
    }
}

/// No more distinct values are counted than values were observed.
pub proof fn lemma_unique_bound(m: TrackerModel)
    requires
        m.wf(),
    ensures
        m.unique() <= m.count,
{
}

} // verus!
