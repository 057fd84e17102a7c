//! Snapshots: partial aggregates as plain data, to be written down, sent to
//! another process and taken in there.

use vstd::prelude::*;
use crate::corpus_model::CorpusModel;
use crate::corpus_model::Entries;
use crate::corpus_model::entries_map;
use crate::field::FieldModel;
use crate::field::total_count;
use crate::names::name_lt;
use crate::settings::Settings;
use crate::sketch_model::SketchModel;
use crate::sketch_model::sample_valid;
use crate::tags::TAG_COUNT;
use crate::tracker_model::Seen;
use crate::tracker_model::Strategy;
use crate::tracker_model::TrackerModel;
use crate::value::RawValue;
use crate::value::contents;

verus! {

/// What a tracker remembers.
pub enum MemorySnapshot {
    /// The distinct values, each once.
    Values(Vec<RawValue>),
    /// The sample of a sketch at a depth, each hash once.
    Sample { depth: usize, hashes: Vec<u64> },
}

/// A tracker as plain data.
pub struct TrackerSnapshot {
    pub count: u64,
    pub memory: MemorySnapshot,
}

/// A field as plain data: its name, how often it occurred, and one tracker
/// for each tag, in the order of the tags.
pub struct FieldSnapshot {
    pub name: String,
    pub count: u64,
    pub trackers: Vec<TrackerSnapshot>,
}

/// A corpus aggregate as plain data: the settings it was built under, how
/// many documents were observed, and the fields in the order of their
/// names.
pub struct CorpusSnapshot {
    pub settings: Settings,
    pub count: usize,
    pub fields: Vec<FieldSnapshot>,
}

impl TrackerSnapshot {
    /// Whether the data is that of a tracker of this strategy.
    pub open spec fn valid(self, strategy: Strategy) -> bool {
        match self.memory {
            MemorySnapshot::Values(values) => {
                &&& contents(values@).no_duplicates()
                &&& values@.len() <= self.count
                &&& strategy.admits(values@.len())
            },
            MemorySnapshot::Sample { depth, hashes } => {
                &&& sample_valid(strategy.capacity(), depth as nat, hashes@)
                &&& strategy.ceiling() is Some
                &&& self.count >= 1
            },
        }
    }

    /// The content of the tracker that the data describes.
    pub open spec fn model(self, strategy: Strategy) -> TrackerModel {
        TrackerModel {
            strategy,
            count: self.count as nat,
            seen: match self.memory {
                MemorySnapshot::Values(values) => Seen::Exact(contents(values@).to_set()),
                MemorySnapshot::Sample { depth, hashes } => Seen::Sampled(
                    SketchModel {
                        capacity: strategy.capacity(),
                        depth: depth as nat,
                        sample: hashes@.to_set(),
                    },
                ),
            },
        }
    }
}

/// The contents of the trackers that these data describe.
pub open spec fn tracker_models(trackers: Seq<TrackerSnapshot>, strategy: Strategy) -> Seq<
    TrackerModel,
> {
    Seq::new(trackers.len(), |i: int| trackers[i].model(strategy))
}

impl FieldSnapshot {
    /// Whether the data is that of a field aggregated under these settings.
    pub open spec fn valid(self, settings: Settings) -> bool {
        &&& self.trackers@.len() == TAG_COUNT
        &&& forall|i: int|
            0 <= i < TAG_COUNT ==> (#[trigger] self.trackers@[i]).valid(settings.strategy)
        &&& total_count(tracker_models(self.trackers@, settings.strategy), TAG_COUNT as int)
            == self.count
    }

    /// The content of the field that the data describes.
    pub open spec fn model(self, settings: Settings) -> FieldModel {
        FieldModel {
            settings,
            count: self.count as nat,
            trackers: tracker_models(self.trackers@, settings.strategy),
        }
    }
}

impl CorpusSnapshot {
    /// The fields that the data describes, each with its name.
    pub open spec fn entries(self) -> Entries {
        Seq::new(
            self.fields@.len(),
            |i: int| (self.fields@[i].name@, self.fields@[i].model(self.settings)),
        )
    }

    /// Whether the data is that of a corpus aggregate.
    pub open spec fn valid(self) -> bool {
        &&& forall|i: int, j: int|
            0 <= i < j < self.fields@.len() ==> name_lt(
                self.fields@[i].name@,
                self.fields@[j].name@,
            )
        &&& forall|i: int|
            0 <= i < self.fields@.len() ==> (#[trigger] self.fields@[i]).valid(self.settings)
                && 1 <= self.fields@[i].count <= self.count
    }

    /// The content of the aggregate that the data describes.
    pub open spec fn model(self) -> CorpusModel {
        CorpusModel {
            settings: self.settings,
            count: self.count as nat,
            fields: entries_map(self.entries()),
        }
    }
}

} // verus!
