//! Tracking the values of one kind that one field has taken.

use vstd::prelude::*;
use crate::errors::AggregationError;
use crate::hashing::fingerprint_of;
use crate::sketch::Sketch;
use crate::snapshot::MemorySnapshot;
use crate::snapshot::TrackerSnapshot;
use crate::sketch_model::lemma_settle;
use crate::sketch_model::lemma_settle_again;
use crate::tracker_model::Seen;
use crate::tracker_model::Strategy;
use crate::tracker_model::TrackerModel;
use crate::tracker_model::hashes_of;
use crate::tracker_model::sketch_of;
use crate::tracker_model::lemma_hashes_finite;
use crate::tracker_model::lemma_hashes_insert;
use crate::tracker_model::lemma_sketch_of_few;
use crate::value::RawValue;
use crate::value_set::ValueSet;

verus! {

impl Strategy {
    /// Whether two strategies are the same.
    pub fn agrees(&self, other: &Strategy) -> (same: bool)
        ensures
            same == (*self == *other),
    {
        match (self, other) {
            (Strategy::Exact, Strategy::Exact) => true,
            (Strategy::Bounded { ceiling: a }, Strategy::Bounded { ceiling: b }) => *a == *b,
            (Strategy::Approximate { capacity: a }, Strategy::Approximate { capacity: b }) => *a
                == *b,
            _ => false,
        }
    }

    /// How many hashes a sketch holds under this strategy.
    pub fn sketch_capacity(&self) -> (capacity: usize)
        ensures
            capacity == self.capacity(),
            capacity >= 1,
    {
        match self {
            Strategy::Exact => 1,
            Strategy::Bounded { ceiling } => if *ceiling == 0 {
                1
            } else {
                *ceiling
            },
            Strategy::Approximate { capacity } => if *capacity == 0 {
                1
            } else {
                *capacity
            },
        }
    }

    /// Whether this many distinct values may be kept under this strategy.
    pub fn admits_size(&self, size: usize) -> (admitted: bool)
        ensures
            admitted == self.admits(size as nat),
    {
        match self {
            Strategy::Exact => true,
            Strategy::Bounded { ceiling } => size <= *ceiling,
            Strategy::Approximate { capacity: _ } => size == 0,
        }
    }
}

fn sketch_values(values: &ValueSet, capacity: usize) -> (sketch: Sketch)
    requires
        capacity >= 1,
        values.wf(),
    ensures
        sketch.wf(),
        sketch@ == sketch_of(capacity as nat, values@),
        sketch@.capacity == capacity,
{
    let mut sketch = Sketch::new(capacity);
    let ghost all = values.kept();
    proof {
        values.lemma_wf();
    }
    let mut i: usize = 0;
    proof {
        lemma_sketch_of_few(capacity as nat, arbitrary());
        assert(all.take(0).to_set() =~= Set::empty());
    }
    while i < values.len()
        invariant
            i <= values.kept().len(),
            capacity >= 1,
            all == values.kept(),
            sketch.wf(),
            sketch@ == sketch_of(capacity as nat, all.take(i as int).to_set()),
        decreases values.kept().len() - i,
    {
        let ghost sofar = all.take(i as int);
        let ghost hash = fingerprint_of(all[i as int]);
        proof {
            vstd::seq_lib::seq_to_set_is_finite(sofar);
            lemma_hashes_finite(sofar.to_set());
            lemma_hashes_insert(sofar.to_set(), all[i as int]);
            assert(all.take(i + 1) =~= sofar.push(all[i as int]));
            sofar.lemma_push_to_set_commute(all[i as int]);
            let one = Set::<u64>::empty().insert(hash);
            lemma_settle(capacity as nat, 0, hashes_of(sofar.to_set()));
            lemma_settle_again(capacity as nat, 0, hashes_of(sofar.to_set()), 0, one);
            assert(sketch@.sample.insert(hash) =~= sketch@.sample.union(one));
            assert(hashes_of(sofar.to_set()).insert(hash) =~= hashes_of(sofar.to_set()).union(
                one,
            ));
        }
        sketch.insert(values.get(i).fingerprint());
        i += 1;
    }
    proof {
        assert(all.take(all.len() as int) =~= all);
        vstd::seq_lib::seq_to_set_is_finite(all);
        crate::tracker_model::lemma_sketch_of_wf(capacity as nat, all.to_set());
    }
    sketch
}

enum Memory {
    Values(ValueSet),
    Sample(Sketch),
}

/// Counts the values of one kind that a field has taken, and remembers which
/// values they were, or a sketch of them.
pub struct ValueTracker {
    strategy: Strategy,
    count: u64,
    memory: Memory,
}

impl Memory {
    spec fn seen(self) -> Seen {
        match self {
            Memory::Values(values) => Seen::Exact(values@),
            Memory::Sample(sketch) => Seen::Sampled(sketch@),
        }
    }

    spec fn wf(self, strategy: Strategy) -> bool {
        match self {
            Memory::Values(values) => values.wf() && strategy.admits(values.kept().len()),
            Memory::Sample(sketch) => sketch.wf() && sketch@.capacity == strategy.capacity()
                && strategy.ceiling() is Some,
        }
    }

    proof fn lemma_wf(self, strategy: Strategy)
        requires
            self.wf(strategy),
        ensures
            self.seen().wf(strategy),
            self matches Memory::Values(values) ==> values@.len() == values.kept().len(),
    {
        match self {
            Memory::Values(values) => {
                values.lemma_wf();
            },
            Memory::Sample(sketch) => {
                sketch.lemma_wf();
            },
        }
    }

    /// The values, kept as they are if the strategy admits so many, else
    /// as a sketch.
    fn bounded(strategy: Strategy, values: ValueSet) -> (memory: Memory)
        requires
            values.wf(),
        ensures
            memory.wf(strategy),
            memory.seen() == Seen::bounded(strategy, values@),
            memory matches Memory::Values(kept) ==> kept == values,
            memory is Sample ==> values.kept().len() >= 1,
    {
        proof {
            values.lemma_wf();
        }
        if strategy.admits_size(values.len()) {
            Memory::Values(values)
        } else {
            Memory::Sample(sketch_values(&values, strategy.sketch_capacity()))
        }
    }
}

impl View for ValueTracker {
    type V = TrackerModel;

    closed spec fn view(&self) -> TrackerModel {
        TrackerModel {
            strategy: self.strategy,
            count: self.count as nat,
            seen: self.memory.seen(),
        }
    }
}

impl ValueTracker {
    /// No value is kept twice, no more values are kept than were observed
    /// or than the strategy admits, and a sketch is as the strategy has it.
    pub closed spec fn wf(&self) -> bool {
        &&& self.memory.wf(self.strategy)
        &&& self.memory matches Memory::Values(values) ==> values.kept().len() <= self.count
        &&& self.memory is Sample ==> self.count >= 1
    }

    /// A well-formed tracker has a well-formed content.
    pub proof fn lemma_wf(&self)
        requires
            self.wf(),
        ensures
            self@.wf(),
    {
        self.memory.lemma_wf(self.strategy);
    }

    /// A tracker that has seen nothing.
    pub fn new(strategy: Strategy) -> (tracker: ValueTracker)
        ensures
            tracker.wf(),
            tracker@ == TrackerModel::empty(strategy),
    {
        ValueTracker { strategy, count: 0, memory: Memory::Values(ValueSet::new()) }
    }

    /// The strategy that the tracker follows.
    pub fn strategy(&self) -> (strategy: Strategy)
        ensures
            strategy == self@.strategy,
    {
        self.strategy
    }

    /// How many values were observed.
    pub fn count(&self) -> (count: u64)
        ensures
            count == self@.count,
    {
        self.count
    }

    /// Whether the number of distinct values is an estimate.
    pub fn is_approximate(&self) -> (approximate: bool)
        ensures
            approximate == self@.approximate(),
    {
        match &self.memory {
            Memory::Values(_) => false,
            Memory::Sample(_) => true,
        }
    }

    /// The tracker as plain data.
    pub fn snapshot(&self) -> (snapshot: TrackerSnapshot)
        requires
            self.wf(),
        ensures
            snapshot.valid(self@.strategy),
            snapshot.model(self@.strategy) == self@,
    {
        proof {
            self.memory.lemma_wf(self.strategy);
        }
        match &self.memory {
            Memory::Values(values) => {
                proof {
                    values.lemma_wf();
                }
                TrackerSnapshot { count: self.count, memory: MemorySnapshot::Values(values.to_vec()) }
            },
            Memory::Sample(sketch) => TrackerSnapshot {
                count: self.count,
                memory: MemorySnapshot::Sample { depth: sketch.depth(), hashes: sketch.hashes() },
            },
        }
    }

    /// The tracker of this strategy that the data describes, if it
    /// describes one.
    pub fn restore(strategy: Strategy, snapshot: &TrackerSnapshot) -> (restored: Option<
        ValueTracker,
    >)
        ensures
            restored is Some <==> snapshot.valid(strategy),
            restored matches Some(tracker) ==> tracker.wf() && tracker@ == snapshot.model(strategy),
    {
        match &snapshot.memory {
            MemorySnapshot::Values(values) => {
                if values.len() as u64 > snapshot.count || !strategy.admits_size(values.len()) {
                    return None;
                }
                match ValueSet::from_values(values) {
                    Some(set) => {
                        proof {
                            set.lemma_wf();
                        }
                        Some(
                            ValueTracker {
                                strategy,
                                count: snapshot.count,
                                memory: Memory::Values(set),
                            },
                        )
                    },
                    None => None,
                }
            },
            MemorySnapshot::Sample { depth, hashes } => {
                if snapshot.count == 0 || matches!(strategy, Strategy::Exact) {
                    return None;
                }
                match Sketch::restore(strategy.sketch_capacity(), *depth, hashes) {
                    Some(sketch) => Some(
                        ValueTracker {
                            strategy,
                            count: snapshot.count,
                            memory: Memory::Sample(sketch),
                        },
                    ),
                    None => None,
                }
            },
        }
    }

    /// Observes one value: counts it, and remembers it.
    pub fn observe(&mut self, value: &RawValue)
        requires
            old(self).wf(),
            old(self)@.count < u64::MAX,
        ensures
            final(self).wf(),
            final(self)@ == old(self)@.observe(value@),
    {
        let mut memory = Memory::Values(ValueSet::new());
        core::mem::swap(&mut self.memory, &mut memory);
        proof {
            memory.lemma_wf(self.strategy);
        }
        let renewed = match memory {
            Memory::Values(mut values) => {
                values.insert(value);
                Memory::bounded(self.strategy, values)
            },
            Memory::Sample(mut sketch) => {
                sketch.insert(value.fingerprint());
                Memory::Sample(sketch)
            },
        };
        self.memory = renewed;
        self.count = self.count + 1;
    }

    /// The number of distinct values seen: exact where the values are
    /// kept, else an estimate, and never more than the number of values
    /// observed.
    pub fn unique_count(&self) -> (unique: u64)
        requires
            self.wf(),
        ensures
            unique == self@.unique(),
            unique <= self@.count,
    {
        proof {
            self.memory.lemma_wf(self.strategy);
        }
        match &self.memory {
            Memory::Values(values) => values.len() as u64,
            Memory::Sample(sketch) => {
                let estimate = sketch.estimate();
                if estimate <= self.count {
                    estimate
                } else {
                    self.count
                }
            },
        }
    }

    /// Whether some value was seen more than once: under an estimate,
    /// whether fewer distinct values are estimated than were observed.
    pub fn has_duplicates(&self) -> (duplicates: bool)
        requires
            self.wf(),
        ensures
            duplicates == self@.has_duplicates(),
    {
        self.count > self.unique_count()
    }

    /// Takes in what another tracker has seen. Trackers that follow
    /// different strategies are not merged.
    pub fn merge(&mut self, other: &ValueTracker) -> (merged: Result<(), AggregationError>)
        requires
            old(self).wf(),
            other.wf(),
            old(self)@.count + other@.count <= u64::MAX,
        ensures
            final(self).wf(),
            merged is Ok <==> old(self)@.compatible(other@),
            merged is Ok ==> final(self)@ == old(self)@.merge(other@),
            merged is Err ==> merged == Err::<(), AggregationError>(
                AggregationError::IncompatibleMerge,
            ) && final(self)@ == old(self)@,
    {
        if !self.strategy.agrees(&other.strategy) {
            return Err(AggregationError::IncompatibleMerge);
        }
        let strategy = self.strategy;
        let mut memory = Memory::Values(ValueSet::new());
        core::mem::swap(&mut self.memory, &mut memory);
        proof {
            memory.lemma_wf(strategy);
            other.memory.lemma_wf(strategy);
        }
        let renewed = match memory {
            Memory::Values(mut mine) => match &other.memory {
                Memory::Values(theirs) => {
                    let ghost before = mine@;
                    let ghost size = mine.kept().len();
                    let mut i: usize = 0;
                    while i < theirs.len()
                        invariant
                            i <= theirs.kept().len(),
                            theirs.wf(),
                            mine.wf(),
                            mine.kept().len() <= size + i,
                            mine@ == before.union(theirs.kept().take(i as int).to_set()),
                        decreases theirs.kept().len() - i,
                    {
                        let ghost sofar = theirs.kept().take(i as int);
                        let ghost next = theirs.kept()[i as int];
                        mine.insert(theirs.get(i));
                        proof {
                            assert(theirs.kept().take(i + 1) =~= sofar.push(next));
                            sofar.lemma_push_to_set_commute(next);
                            assert(before.union(sofar.to_set()).insert(next) =~= before.union(
                                sofar.to_set().insert(next),
                            ));
                        }
                        i += 1;
                    }
                    proof {
                        assert(theirs.kept().take(theirs.kept().len() as int) =~= theirs.kept());
                        theirs.lemma_wf();
                    }
                    Memory::bounded(strategy, mine)
                },
                Memory::Sample(theirs) => {
                    let mut sketch = sketch_values(&mine, strategy.sketch_capacity());
                    sketch.merge(theirs);
                    Memory::Sample(sketch)
                },
            },
            Memory::Sample(mut mine) => match &other.memory {
                Memory::Values(theirs) => {
                    let sketch = sketch_values(theirs, strategy.sketch_capacity());
                    mine.merge(&sketch);
                    Memory::Sample(mine)
                },
                Memory::Sample(theirs) => {
                    mine.merge(theirs);
                    Memory::Sample(mine)
                },
            },
        };
        self.memory = renewed;
        self.count = self.count + other.count;
        Ok(())
    }
}

} // verus!
