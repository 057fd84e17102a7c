//! Aggregating the values of one field.

use vstd::prelude::*;
use crate::classifier::tag_of;
use crate::errors::AggregationError;
use crate::settings::Settings;
use crate::snapshot::FieldSnapshot;
use crate::snapshot::TrackerSnapshot;
use crate::snapshot::tracker_models;
use crate::tags::TypeTag;
use crate::tags::TAG_COUNT;
use crate::tracker_model::TrackerModel;
use crate::tracker::ValueTracker;
use crate::tracker_model::lemma_tracker_merge_associative;
use crate::tracker_model::lemma_tracker_merge_commutative;
use crate::tracker_model::lemma_tracker_merge_empty;
use crate::tracker_model::lemma_tracker_merge_wf;
use crate::tracker_model::lemma_tracker_observe_is_merge;
use crate::tracker_model::lemma_tracker_observe_wf;
use crate::tracker_model::lemma_tracker_single_wf;
use crate::value::RawValue;
use crate::value::ValueModel;

verus! {

/// The sum of the counts of the first `n` trackers.
pub open spec fn total_count(trackers: Seq<TrackerModel>, n: int) -> nat
    decreases n,
{
    if n <= 0 {
        0
    } else {
        total_count(trackers, n - 1) + trackers[n - 1].count
    }
}

/// The mathematical content of a [`FieldAggregator`]: how often the field
/// occurred, and for each tag, at the tag's position, what was seen of the
/// values with that tag.
pub struct FieldModel {
    pub settings: Settings,
    pub count: nat,
    pub trackers: Seq<TrackerModel>,
}

impl FieldModel {
    /// A field that has not occurred.
    pub open spec fn empty(settings: Settings) -> FieldModel {
        FieldModel {
            settings,
            count: 0,
            trackers: Seq::new(TAG_COUNT as nat, |i: int| TrackerModel::empty(settings.strategy)),
        }
    }

    /// A field that has occurred once, with this value.
    pub open spec fn single(settings: Settings, value: ValueModel) -> FieldModel {
        FieldModel::empty(settings).observe(value)
    }

    /// Every tag has a well-formed tracker that follows the field's strategy,
    /// and every occurrence of the field was counted by exactly one of them.
    pub open spec fn wf(self) -> bool {
        &&& self.trackers.len() == TAG_COUNT
        &&& forall|i: int|
            0 <= i < TAG_COUNT ==> (#[trigger] self.trackers[i]).wf() && self.trackers[i].strategy
                == self.settings.strategy
        &&& total_count(self.trackers, TAG_COUNT as int) == self.count
    }

    /// What was seen of the values with this tag.
    pub open spec fn tracker(self, tag: TypeTag) -> TrackerModel {
        self.trackers[tag.index() as int]
    }

    /// The field after one more occurrence, with this value.
    pub open spec fn observe(self, value: ValueModel) -> FieldModel {
        let position = tag_of(self.settings.rules, value).index() as int;
        FieldModel {
            settings: self.settings,
            count: self.count + 1,
            trackers: self.trackers.update(position, self.trackers[position].observe(value)),
        }
    }

    /// Whether two fields can be merged: they were built under the same
    /// settings.
    pub open spec fn compatible(self, other: FieldModel) -> bool {
        self.settings == other.settings
    }

    /// The field with the occurrences of both fields.
    pub open spec fn merge(self, other: FieldModel) -> FieldModel {
        FieldModel {
            settings: self.settings,
            count: self.count + other.count,
            trackers: Seq::new(
                TAG_COUNT as nat,
                |i: int| self.trackers[i].merge(other.trackers[i]),
            ),
        }
    }

    /// Whether some value of some kind was seen more than once.
    pub open spec fn has_duplicates(self) -> bool {
        exists|i: int| 0 <= i < TAG_COUNT && (#[trigger] self.trackers[i]).has_duplicates()
    }

    /// Whether the number of distinct values of some kind is an estimate.
    pub open spec fn approximate(self) -> bool {
        exists|i: int| 0 <= i < TAG_COUNT && (#[trigger] self.trackers[i]).approximate()
    }
}

/// The sum of the counts changes with one tracker as that tracker's count
/// does.
pub proof fn lemma_total_count_update(
    trackers: Seq<TrackerModel>,
    n: int,
    position: int,
    tracker: TrackerModel,
)
    requires
        0 <= position < trackers.len(),
        0 <= n <= trackers.len(),
    ensures
        total_count(trackers.update(position, tracker), n) == if position < n {
            total_count(trackers, n) - trackers[position].count + tracker.count
        } else {
            total_count(trackers, n) as int
        },
    decreases n,
{
    if n > 0 {
        lemma_total_count_update(trackers, n - 1, position, tracker);
    }
}

/// No tracker counts more than all trackers together.
pub proof fn lemma_total_count_bounds(trackers: Seq<TrackerModel>, n: int, position: int)
    requires
        0 <= position < n <= trackers.len(),
    ensures
        trackers[position].count <= total_count(trackers, n),
    decreases n,
{
    if position < n - 1 {
        lemma_total_count_bounds(trackers, n - 1, position);
    }
}

/// Sequences of trackers that agree on their counts have the same sum.
pub proof fn lemma_total_count_pointwise(
    a: Seq<TrackerModel>,
    b: Seq<TrackerModel>,
    c: Seq<TrackerModel>,
    n: int,
)
    requires
        0 <= n <= a.len(),
        n <= b.len(),
        n <= c.len(),
        forall|i: int| 0 <= i < n ==> (#[trigger] c[i]).count == a[i].count + b[i].count,
    ensures
        total_count(c, n) == total_count(a, n) + total_count(b, n),
    decreases n,
{
    if n > 0 {
        lemma_total_count_pointwise(a, b, c, n - 1);
    }
}

/// Trackers that have seen nothing count nothing.
pub proof fn lemma_total_count_zero(trackers: Seq<TrackerModel>, n: int)
    requires
        0 <= n <= trackers.len(),
        forall|i: int| 0 <= i < n ==> (#[trigger] trackers[i]).count == 0,
    ensures
        total_count(trackers, n) == 0,
    decreases n,
{
    if n > 0 {
        lemma_total_count_zero(trackers, n - 1);
    }
}

/// A field that has not occurred is well formed.
pub proof fn lemma_field_empty_wf(settings: Settings)
    ensures
        FieldModel::empty(settings).wf(),
{
    lemma_total_count_zero(FieldModel::empty(settings).trackers, TAG_COUNT as int);
}

/// Observation keeps a field well formed.
pub proof fn lemma_field_observe_wf(m: FieldModel, value: ValueModel)
    requires
        m.wf(),
    ensures
        m.observe(value).wf(),
{
    let position = tag_of(m.settings.rules, value).index() as int;
    lemma_total_count_update(
        m.trackers,
        TAG_COUNT as int,
        position,
        m.trackers[position].observe(value),
    );
    assert forall|i: int| 0 <= i < TAG_COUNT implies (#[trigger] m.observe(value).trackers[i]).wf()
        && m.observe(value).trackers[i].strategy == m.settings.strategy by {
        assert(m.trackers[i].wf());
        lemma_tracker_observe_wf(m.trackers[i], value);
    }
}

/// Merging keeps fields well formed.
pub proof fn lemma_field_merge_wf(a: FieldModel, b: FieldModel)
    requires
        a.wf(),
        b.wf(),
        a.compatible(b),
    ensures
        a.merge(b).wf(),
{
    assert forall|i: int| 0 <= i < TAG_COUNT implies (#[trigger] a.merge(b).trackers[i]).wf()
        && a.merge(b).trackers[i].strategy == a.settings.strategy by {
        assert(a.trackers[i].wf());
        assert(b.trackers[i].wf());
        lemma_tracker_merge_wf(a.trackers[i], b.trackers[i]);
    }
    lemma_total_count_pointwise(a.trackers, b.trackers, a.merge(b).trackers, TAG_COUNT as int);
}

/// To observe a value is to merge with the field that occurred once, with
/// that value.
pub proof fn lemma_field_observe_is_merge(m: FieldModel, value: ValueModel)
    requires
        m.wf(),
    ensures
        m.observe(value) == m.merge(FieldModel::single(m.settings, value)),
{
    let position = tag_of(m.settings.rules, value).index() as int;
    let single = FieldModel::single(m.settings, value);
    assert forall|i: int| 0 <= i < TAG_COUNT implies m.observe(value).trackers[i] == m.merge(
        single,
    ).trackers[i] by {
        assert(m.trackers[i].wf());
        if i == position {
            lemma_tracker_observe_is_merge(m.trackers[i], value);
            lemma_tracker_observe_is_merge(TrackerModel::empty(m.settings.strategy), value);
            lemma_tracker_single_wf(m.settings.strategy, value);
            lemma_tracker_merge_empty(TrackerModel::single(m.settings.strategy, value));
        } else {
            lemma_tracker_merge_empty(m.trackers[i]);
        }
    }
    assert(m.observe(value).trackers =~= m.merge(single).trackers);
}

/// Merging does not depend on the order of its two sides.
pub proof fn lemma_field_merge_commutative(a: FieldModel, b: FieldModel)
    requires
        a.wf(),
        b.wf(),
        a.compatible(b),
    ensures
        a.merge(b) == b.merge(a),
{
    assert forall|i: int| 0 <= i < TAG_COUNT implies a.merge(b).trackers[i] == b.merge(
        a,
    ).trackers[i] by {
        assert(a.trackers[i].wf());
        assert(b.trackers[i].wf());
        lemma_tracker_merge_commutative(a.trackers[i], b.trackers[i]);
    }
    assert(a.merge(b).trackers =~= b.merge(a).trackers);
}

/// Merging three fields does not depend on which two are merged first.
pub proof fn lemma_field_merge_associative(a: FieldModel, b: FieldModel, c: FieldModel)
    requires
        a.wf(),
        b.wf(),
        c.wf(),
        a.compatible(b),
        b.compatible(c),
    ensures
        a.merge(b).merge(c) == a.merge(b.merge(c)),
{
    assert forall|i: int| 0 <= i < TAG_COUNT implies a.merge(b).merge(c).trackers[i] == a.merge(
        b.merge(c),
    ).trackers[i] by {
        assert(a.trackers[i].wf());
        assert(b.trackers[i].wf());
        assert(c.trackers[i].wf());
        lemma_tracker_merge_associative(a.trackers[i], b.trackers[i], c.trackers[i]);
    }
    assert(a.merge(b).merge(c).trackers =~= a.merge(b.merge(c)).trackers);
}

/// Merging with a field that has not occurred changes nothing.
pub proof fn lemma_field_merge_empty(a: FieldModel)
    requires
        a.wf(),
    ensures
        a.merge(FieldModel::empty(a.settings)) == a,
        FieldModel::empty(a.settings).merge(a) == a,
{
    let empty = FieldModel::empty(a.settings);
    assert forall|i: int| 0 <= i < TAG_COUNT implies a.merge(empty).trackers[i] == a.trackers[i]
        && empty.merge(a).trackers[i] == a.trackers[i] by {
        assert(a.trackers[i].wf());
        lemma_tracker_merge_empty(a.trackers[i]);
    }
    assert(a.merge(empty).trackers =~= a.trackers);
    assert(empty.merge(a).trackers =~= a.trackers);
}

/// Counts the occurrences of one field, and tracks its values by their
/// kind.
pub struct FieldAggregator {
    settings: Settings,
    count: u64,
    trackers: Vec<ValueTracker>,
}

impl View for FieldAggregator {
    type V = FieldModel;

    closed spec fn view(&self) -> FieldModel {
        FieldModel {
            settings: self.settings,
            count: self.count as nat,
            trackers: self.trackers@.map_values(|t: ValueTracker| t@),
        }
    }
}

impl FieldAggregator {
    /// Every tracker is well formed, and so is the content.
    pub closed spec fn wf(&self) -> bool {
        &&& self@.wf()
        &&& forall|i: int| 0 <= i < self.trackers@.len() ==> (#[trigger] self.trackers@[i]).wf()
    }

    /// A well-formed aggregator has a well-formed content.
    pub proof fn lemma_wf(&self)
        requires
            self.wf(),
        ensures
            self@.wf(),
    {
    }

    /// A field that has not occurred.
    pub fn new(settings: Settings) -> (field: FieldAggregator)
        ensures
            field.wf(),
            field@ == FieldModel::empty(settings),
    {
        let mut trackers: Vec<ValueTracker> = Vec::new();
        let mut i: usize = 0;
        while i < TAG_COUNT
            invariant
                i <= TAG_COUNT,
                trackers@.len() == i,
                forall|j: int|
                    0 <= j < i ==> (#[trigger] trackers@[j]).wf() && trackers@[j]@
                        == TrackerModel::empty(settings.strategy),
            decreases TAG_COUNT - i,
        {
            trackers.push(ValueTracker::new(settings.strategy));
            i += 1;
        }
        let field = FieldAggregator { settings, count: 0, trackers };
        proof {
            assert(field@.trackers =~= FieldModel::empty(settings).trackers);
            lemma_field_empty_wf(settings);
        }
        field
    }

    /// The settings under which the field is aggregated.
    pub fn settings(&self) -> (settings: Settings)
        ensures
            settings == self@.settings,
    {
        self.settings
    }

    /// How often the field occurred.
    pub fn count(&self) -> (count: u64)
        ensures
            count == self@.count,
    {
        self.count
    }

    /// What was seen of the values with this tag.
    pub fn tracker(&self, tag: TypeTag) -> (tracker: &ValueTracker)
        requires
            self.wf(),
        ensures
            tracker.wf(),
            tracker@ == self@.tracker(tag),
    {
        &self.trackers[tag.ordinal()]
    }

    /// The field as plain data, under the given name.
    pub fn snapshot(&self, name: &str) -> (snapshot: FieldSnapshot)
        requires
            self.wf(),
        ensures
            snapshot.name@ == name@,
            snapshot.valid(self@.settings),
            snapshot.model(self@.settings) == self@,
    {
        let mut trackers: Vec<TrackerSnapshot> = Vec::new();
        let mut i: usize = 0;
        while i < TAG_COUNT
            invariant
                i <= TAG_COUNT,
                self.wf(),
                trackers@.len() == i,
                forall|j: int|
                    0 <= j < i ==> (#[trigger] trackers@[j]).valid(self.settings.strategy)
                        && trackers@[j].model(self.settings.strategy) == self@.trackers[j],
            decreases TAG_COUNT - i,
        {
            assert(self@.trackers[i as int].strategy == self.settings.strategy);
            trackers.push(self.trackers[i].snapshot());
            i += 1;
        }
        let snapshot = FieldSnapshot { name: name.to_owned(), count: self.count, trackers };
        proof {
            assert(tracker_models(snapshot.trackers@, self.settings.strategy) =~= self@.trackers);
        }
        snapshot
    }

    /// The field aggregator under these settings that the data describes,
    /// if it describes one.
    pub fn restore(settings: Settings, snapshot: &FieldSnapshot) -> (restored: Option<
        FieldAggregator,
    >)
        ensures
            restored is Some <==> snapshot.valid(settings),
            restored matches Some(field) ==> field.wf() && field@ == snapshot.model(settings),
    {
        if snapshot.trackers.len() != TAG_COUNT {
            return None;
        }
        let ghost models = tracker_models(snapshot.trackers@, settings.strategy);
        let mut trackers: Vec<ValueTracker> = Vec::new();
        let mut total: u128 = 0;
        let mut i: usize = 0;
        while i < TAG_COUNT
            invariant
                i <= TAG_COUNT,
                snapshot.trackers@.len() == TAG_COUNT,
                models == tracker_models(snapshot.trackers@, settings.strategy),
                trackers@.len() == i,
                total == total_count(models, i as int),
                total <= i * u64::MAX,
                forall|j: int|
                    0 <= j < i ==> (#[trigger] snapshot.trackers@[j]).valid(settings.strategy),
                forall|j: int|
                    0 <= j < i ==> (#[trigger] trackers@[j]).wf() && trackers@[j]@ == models[j],
            decreases TAG_COUNT - i,
        {
            match ValueTracker::restore(settings.strategy, &snapshot.trackers[i]) {
                Some(tracker) => {
                    total = total + tracker.count() as u128;
                    trackers.push(tracker);
                },
                None => {
                    return None;
                },
            }
            i += 1;
        }
        if total != snapshot.count as u128 {
            return None;
        }
        let field = FieldAggregator { settings, count: snapshot.count, trackers };
        proof {
            assert(field@.trackers =~= models);
            assert forall|j: int| 0 <= j < TAG_COUNT implies (#[trigger] field@.trackers[j]).wf()
                && field@.trackers[j].strategy == settings.strategy by {
                trackers@[j].lemma_wf();
            }
        }
        Some(field)
    }

    /// Observes one occurrence of the field: counts it, classifies the
    /// value, and hands the value to the tracker of its tag.
    pub fn observe(&mut self, value: &RawValue)
        requires
            old(self).wf(),
            old(self)@.count < u64::MAX,
        ensures
            final(self).wf(),
            final(self)@ == old(self)@.observe(value@),
    {
        let position = self.settings.rules.classify(value).ordinal();
        proof {
            lemma_total_count_bounds(self@.trackers, TAG_COUNT as int, position as int);
            lemma_field_observe_wf(self@, value@);
        }
        self.trackers[position].observe(value);
        self.count = self.count + 1;
        proof {
            assert(self@.trackers =~= old(self)@.observe(value@).trackers);
        }
    }

    /// Whether some value of some kind was seen more than once.
    pub fn has_duplicates(&self) -> (duplicates: bool)
        requires
            self.wf(),
        ensures
            duplicates == self@.has_duplicates(),
    {
        let mut i: usize = 0;
        while i < TAG_COUNT
            invariant
                i <= TAG_COUNT,
                self.wf(),
                forall|j: int| 0 <= j < i ==> !(#[trigger] self@.trackers[j]).has_duplicates(),
            decreases TAG_COUNT - i,
        {
            if self.trackers[i].has_duplicates() {
                assert(self@.trackers[i as int].has_duplicates());
                return true;
            }
            i += 1;
        }
        false
    }

    /// Whether the number of distinct values of some kind is an estimate.
    pub fn is_approximate(&self) -> (approximate: bool)
        requires
            self.wf(),
        ensures
            approximate == self@.approximate(),
    {
        let mut i: usize = 0;
        while i < TAG_COUNT
            invariant
                i <= TAG_COUNT,
                self.wf(),
                forall|j: int| 0 <= j < i ==> !(#[trigger] self@.trackers[j]).approximate(),
            decreases TAG_COUNT - i,
        {
            if self.trackers[i].is_approximate() {
                assert(self@.trackers[i as int].approximate());
                return true;
            }
            i += 1;
        }
        false
    }

    /// Takes in the occurrences that another aggregator has counted.
    /// Aggregators built under different settings are not merged.
    pub fn merge(&mut self, other: &FieldAggregator) -> (merged: Result<(), AggregationError>)
        requires
            old(self).wf(),
            other.wf(),
            old(self)@.count + other@.count <= u64::MAX,
        ensures
            final(self).wf(),
            merged is Ok <==> old(self)@.compatible(other@),
            merged is Ok ==> final(self)@ == old(self)@.merge(other@),
            merged is Err ==> merged == Err::<(), AggregationError>(
                AggregationError::IncompatibleMerge,
            ) && final(self)@ == old(self)@,
    {
        if !self.settings.agrees(&other.settings) {
            return Err(AggregationError::IncompatibleMerge);
        }
        let mut i: usize = 0;
        while i < TAG_COUNT
            invariant
                i <= TAG_COUNT,
                old(self).wf(),
                other.wf(),
                old(self)@.count + other@.count <= u64::MAX,
                self.settings == old(self).settings,
                self.settings == other.settings,
                self.count == old(self).count,
                self.trackers@.len() == TAG_COUNT,
                forall|j: int| 0 <= j < TAG_COUNT ==> (#[trigger] self.trackers@[j]).wf(),
                forall|j: int|
                    0 <= j < i ==> (#[trigger] self.trackers@[j])@ == old(self)@.trackers[j].merge(
                        other@.trackers[j],
                    ),
                forall|j: int|
                    i <= j < TAG_COUNT ==> (#[trigger] self.trackers@[j])@ == old(
                        self,
                    )@.trackers[j],
            decreases TAG_COUNT - i,
        {
            proof {
                lemma_total_count_bounds(old(self)@.trackers, TAG_COUNT as int, i as int);
                lemma_total_count_bounds(other@.trackers, TAG_COUNT as int, i as int);
                assert(old(self)@.trackers[i as int].wf());
                assert(other@.trackers[i as int].wf());
            }
            let merged = self.trackers[i].merge(&other.trackers[i]);
            assert(merged is Ok);
            i += 1;
        }
        self.count = self.count + other.count;
        proof {
            assert(self@.trackers =~= old(self)@.merge(other@).trackers);
            lemma_field_merge_wf(old(self)@, other@);
        }
        Ok(())
    }
}

} // verus!
