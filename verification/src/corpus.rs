//! Aggregating a corpus of documents.

use vstd::prelude::*;
use crate::corpus_model::CorpusModel;
use crate::corpus_model::Entries;
use crate::corpus_model::document_entries;
use crate::corpus_model::entries_map;
use crate::corpus_model::field_or_empty;
use crate::corpus_model::has_name;
use crate::corpus_model::is_document;
use crate::corpus_model::merge_fields;
use crate::corpus_model::names_distinct;
use crate::corpus_model::names_sorted;
use crate::corpus_model::position_of;
use crate::corpus_model::lemma_entries_map_empty;
use crate::corpus_model::lemma_entries_map_finite;
use crate::corpus_model::lemma_entries_map_insert;
use crate::corpus_model::lemma_entries_map_take;
use crate::corpus_model::lemma_entries_map_update;
use crate::corpus_model::lemma_merge_fields_empty;
use crate::corpus_model::lemma_merge_fields_insert;
use crate::corpus_model::lemma_merge_wf;
use crate::corpus_model::lemma_observe_is_merge;
use crate::corpus_model::lemma_observe_wf;
use crate::corpus_model::lemma_position;
use crate::corpus_model::lemma_sorted_distinct;
use crate::errors::AggregationError;
use crate::field::FieldAggregator;
use crate::field::FieldModel;
use crate::field::lemma_field_empty_wf;
use crate::field::lemma_field_observe_is_merge;
use crate::names::name_equal;
use crate::names::name_less;
use crate::names::name_lt;
use crate::names::lemma_name_lt_connected;
use crate::names::lemma_name_lt_irreflexive;
use crate::names::lemma_name_lt_transitive;
use crate::settings::Settings;
use crate::snapshot::CorpusSnapshot;
use crate::snapshot::FieldSnapshot;
use crate::value::RawValue;
use crate::value::lemma_object_model;

verus! {

struct Slot {
    name: String,
    field: FieldAggregator,
}

/// Aggregates documents: counts them, and for every field that occurs in
/// them keeps a [`FieldAggregator`]. The fields are held in the order of
/// their names.
pub struct CorpusAggregator {
    settings: Settings,
    count: usize,
    slots: Vec<Slot>,
}

impl View for CorpusAggregator {
    type V = CorpusModel;

    closed spec fn view(&self) -> CorpusModel {
        CorpusModel {
            settings: self.settings,
            count: self.count as nat,
            fields: entries_map(self.entries()),
        }
    }
}

/// Whether the members stand in the strict order of their names.
fn names_rise(members: &Vec<(String, RawValue)>) -> (rise: bool)
    ensures
        rise == members_rise(members@),
{
    let mut i: usize = 1;
    while i < members.len()
        invariant
            1 <= i,
            forall|a: int, b: int|
                0 <= a < b < i && b < members@.len() ==> name_lt(members@[a].0@, members@[b].0@),
        decreases members.len() - i,
    {
        if !name_less(members[i - 1].0.as_str(), members[i].0.as_str()) {
            assert(!name_lt(members@[i - 1].0@, members@[i as int].0@));
            return false;
        }
        proof {
            assert forall|a: int, b: int| 0 <= a < b < i + 1 && b < members@.len() implies name_lt(
                members@[a].0@,
                members@[b].0@,
            ) by {
                if b == i && a < i - 1 {
                    lemma_name_lt_transitive(
                        members@[a].0@,
                        members@[i - 1].0@,
                        members@[i as int].0@,
                    );
                }
            }
        }
        i += 1;
    }
    true
}

/// Whether each member's name comes before the names of all members after
/// it.
pub open spec fn members_rise(members: Seq<(String, RawValue)>) -> bool {
    forall|a: int, b: int| 0 <= a < b < members.len() ==> name_lt(members[a].0@, members[b].0@)
}

/// Members that stand in the strict order of their names have different
/// names.
pub proof fn lemma_rising_differ(members: Seq<(String, RawValue)>)
    requires
        members_rise(members),
    ensures
        forall|i: int, j: int|
            0 <= i < members.len() && 0 <= j < members.len() && i != j ==> members[i].0@
                != members[j].0@,
{
    assert forall|a: int, b: int|
        0 <= a < members.len() && 0 <= b < members.len() && a != b implies members[a].0@
        != members[b].0@ by {
        lemma_name_lt_irreflexive(members[a].0@);
        if a < b {
            assert(name_lt(members[a].0@, members[b].0@));
        } else {
            assert(name_lt(members[b].0@, members[a].0@));
        }
    }
}

/// Whether no two members have the same name. Members that stand in the
/// order of their names, as those of a parsed object do, are checked in one
/// pass.
fn names_differ(members: &Vec<(String, RawValue)>) -> (differ: bool)
    ensures
        differ == (forall|i: int, j: int|
            0 <= i < members@.len() && 0 <= j < members@.len() && i != j ==> members@[i].0@
                != members@[j].0@),
{
    if names_rise(members) {
        proof {
            lemma_rising_differ(members@);
        }
        return true;
    }
    let mut i: usize = 0;
    while i < members.len()
        invariant
            i <= members.len(),
            forall|a: int, b: int| 0 <= a < b < i ==> members@[a].0@ != members@[b].0@,
        decreases members.len() - i,
    {
        let mut j: usize = 0;
        while j < i
            invariant
                j <= i,
                i < members.len(),
                forall|a: int| 0 <= a < j ==> members@[a].0@ != members@[i as int].0@,
            decreases i - j,
        {
            if name_equal(members[j].0.as_str(), members[i].0.as_str()) {
                return false;
            }
            j += 1;
        }
        i += 1;
    }
    assert forall|a: int, b: int|
        0 <= a < members@.len() && 0 <= b < members@.len() && a != b implies members@[a].0@
        != members@[b].0@ by {
        if a < b {
            assert(members@[a].0@ != members@[b].0@);
        } else {
            assert(members@[b].0@ != members@[a].0@);
        }
    }
    true
}

impl CorpusAggregator {
    /// The fields with their names, in the order in which they are held.
    pub closed spec fn entries(&self) -> Entries {
        self.slots@.map_values(|s: Slot| (s.name@, s.field@))
    }

    /// The fields are held in the strict order of their names, each well
    /// formed and aggregated under the settings of the corpus.
    closed spec fn shape(&self) -> bool {
        &&& names_sorted(self.entries())
        &&& forall|i: int|
            0 <= i < self.slots@.len() ==> (#[trigger] self.slots@[i]).field.wf()
                && self.slots@[i].field@.settings == self.settings
    }

    /// The fields are held in the strict order of their names; each is well
    /// formed, occurred at least once and in no more documents than were
    /// observed.
    pub closed spec fn wf(&self) -> bool {
        &&& self.shape()
        &&& forall|i: int|
            0 <= i < self.slots@.len() ==> 1 <= (#[trigger] self.slots@[i]).field@.count
                <= self.count
    }

    /// A well-formed aggregator has a well-formed content, which is the
    /// mapping of the fields that it holds.
    pub proof fn lemma_wf(&self)
        requires
            self.wf(),
        ensures
            self@.wf(),
            names_sorted(self.entries()),
            self@.fields == entries_map(self.entries()),
    {
        self.lemma_shape();
        assert forall|name: Seq<char>| #[trigger] self@.fields.contains_key(name) implies {
            &&& self@.fields[name].wf()
            &&& self@.fields[name].settings == self@.settings
            &&& 1 <= self@.fields[name].count <= self@.count
        } by {
            let i = position_of(self.entries(), name);
            assert(self.slots@[i].field.wf());
        }
    }

    proof fn lemma_shape(&self)
        requires
            self.shape(),
        ensures
            names_distinct(self.entries()),
            entries_map(self.entries()).dom().finite(),
            forall|name: Seq<char>| #[trigger]
                entries_map(self.entries()).contains_key(name) ==> entries_map(
                    self.entries(),
                )[name].wf() && entries_map(self.entries())[name].settings == self.settings,
    {
        lemma_sorted_distinct(self.entries());
        lemma_entries_map_finite(self.entries());
        assert forall|name: Seq<char>| #[trigger]
            entries_map(self.entries()).contains_key(name) implies entries_map(
            self.entries(),
        )[name].wf() && entries_map(self.entries())[name].settings == self.settings by {
            let i = position_of(self.entries(), name);
            assert(self.slots@[i].field.wf());
            self.slots@[i].field.lemma_wf();
        }
    }

    /// An aggregator that has observed no document.
    pub fn new(settings: Settings) -> (corpus: CorpusAggregator)
        ensures
            corpus.wf(),
            corpus@ == CorpusModel::empty(settings),
    {
        let corpus = CorpusAggregator { settings, count: 0, slots: Vec::new() };
        proof {
            lemma_entries_map_empty(corpus.entries());
        }
        corpus
    }

    /// The aggregate as plain data.
    pub fn snapshot(&self) -> (snapshot: CorpusSnapshot)
        requires
            self.wf(),
        ensures
            snapshot.valid(),
            snapshot.model() == self@,
    {
        let mut fields: Vec<FieldSnapshot> = Vec::new();
        let mut i: usize = 0;
        while i < self.slots.len()
            invariant
                i <= self.slots.len(),
                self.wf(),
                fields@.len() == i,
                forall|j: int|
                    0 <= j < i ==> {
                        &&& (#[trigger] fields@[j]).name@ == self.entries()[j].0
                        &&& fields@[j].valid(self.settings)
                        &&& fields@[j].model(self.settings) == self.entries()[j].1
                        &&& fields@[j].count == self.entries()[j].1.count
                    },
            decreases self.slots.len() - i,
        {
            assert(self.slots@[i as int].field.wf());
            fields.push(self.slots[i].field.snapshot(self.slots[i].name.as_str()));
            i += 1;
        }
        let snapshot = CorpusSnapshot { settings: self.settings, count: self.count, fields };
        proof {
            assert(snapshot.entries() =~= self.entries());
            assert forall|a: int, b: int| 0 <= a < b < snapshot.fields@.len() implies name_lt(
                snapshot.fields@[a].name@,
                snapshot.fields@[b].name@,
            ) by {
                assert(name_lt(self.entries()[a].0, self.entries()[b].0));
            }
            assert forall|j: int| 0 <= j < snapshot.fields@.len() implies (
            #[trigger] snapshot.fields@[j]).valid(snapshot.settings) && 1
                <= snapshot.fields@[j].count <= snapshot.count by {
                assert(1 <= self.slots@[j].field@.count <= self.count);
            }
        }
        snapshot
    }

    /// The aggregator that the data describes, if it describes one.
    pub fn restore(snapshot: &CorpusSnapshot) -> (restored: Result<
        CorpusAggregator,
        AggregationError,
    >)
        ensures
            restored is Ok <==> snapshot.valid(),
            restored matches Ok(corpus) ==> corpus.wf() && corpus@ == snapshot.model(),
            restored matches Err(error) ==> error == AggregationError::InvalidSnapshot,
    {
        let settings = snapshot.settings;
        let mut slots: Vec<Slot> = Vec::new();
        let mut i: usize = 0;
        while i < snapshot.fields.len()
            invariant
                i <= snapshot.fields.len(),
                settings == snapshot.settings,
                slots@.len() == i,
                forall|a: int, b: int|
                    0 <= a < b < i ==> name_lt(
                        snapshot.fields@[a].name@,
                        snapshot.fields@[b].name@,
                    ),
                forall|j: int|
                    0 <= j < i ==> (#[trigger] snapshot.fields@[j]).valid(settings) && 1
                        <= snapshot.fields@[j].count <= snapshot.count,
                forall|j: int|
                    0 <= j < i ==> {
                        &&& (#[trigger] slots@[j]).name@ == snapshot.fields@[j].name@
                        &&& slots@[j].field.wf()
                        &&& slots@[j].field@ == snapshot.fields@[j].model(settings)
                    },
            decreases snapshot.fields.len() - i,
        {
            let given = &snapshot.fields[i];
            if given.count == 0 || given.count > snapshot.count as u64 {
                return Err(AggregationError::InvalidSnapshot);
            }
            if i > 0 && !name_less(snapshot.fields[i - 1].name.as_str(), given.name.as_str()) {
                return Err(AggregationError::InvalidSnapshot);
            }
            proof {
                assert forall|a: int, b: int| 0 <= a < b < i + 1 implies name_lt(
                    snapshot.fields@[a].name@,
                    snapshot.fields@[b].name@,
                ) by {
                    if b == i && a < i - 1 {
                        lemma_name_lt_transitive(
                            snapshot.fields@[a].name@,
                            snapshot.fields@[i - 1].name@,
                            snapshot.fields@[i as int].name@,
                        );
                    }
                }
            }
            match FieldAggregator::restore(settings, given) {
                Some(field) => {
                    slots.push(Slot { name: given.name.clone(), field });
                },
                None => {
                    return Err(AggregationError::InvalidSnapshot);
                },
            }
            i += 1;
        }
        let corpus = CorpusAggregator { settings, count: snapshot.count, slots };
        proof {
            assert(corpus.entries() =~= snapshot.entries());
            assert forall|a: int, b: int| 0 <= a < b < corpus.entries().len() implies name_lt(
                corpus.entries()[a].0,
                corpus.entries()[b].0,
            ) by {
                assert(name_lt(snapshot.fields@[a].name@, snapshot.fields@[b].name@));
            }
            assert forall|j: int| 0 <= j < corpus.slots@.len() implies (
            #[trigger] corpus.slots@[j]).field.wf() && corpus.slots@[j].field@.settings
                == corpus.settings && 1 <= corpus.slots@[j].field@.count <= corpus.count by {
                assert(snapshot.fields@[j].valid(settings));
            }
        }
        Ok(corpus)
    }

    /// Forgets every document, as if none had been observed.
    pub fn reset(&mut self)
        ensures
            final(self).wf(),
            final(self)@ == CorpusModel::empty(old(self)@.settings),
    {
        self.count = 0;
        self.slots = Vec::new();
        proof {
            lemma_entries_map_empty(self.entries());
        }
    }

    /// The settings under which the corpus is aggregated.
    pub fn settings(&self) -> (settings: Settings)
        ensures
            settings == self@.settings,
    {
        self.settings
    }

    /// How many documents were observed.
    pub fn document_count(&self) -> (count: usize)
        ensures
            count == self@.count,
    {
        self.count
    }

    /// How many fields have occurred.
    pub fn field_count(&self) -> (count: usize)
        ensures
            count == self.entries().len(),
    {
        self.slots.len()
    }

    /// The name of the field at a position, in the order of the names.
    pub fn field_name(&self, position: usize) -> (name: &String)
        requires
            position < self.entries().len(),
        ensures
            name@ == self.entries()[position as int].0,
    {
        &self.slots[position].name
    }

    /// The aggregator of the field at a position, in the order of the names.
    pub fn field_at(&self, position: usize) -> (field: &FieldAggregator)
        requires
            self.wf(),
            position < self.entries().len(),
        ensures
            field.wf(),
            field@ == self.entries()[position as int].1,
    {
        &self.slots[position].field
    }

    /// Where the field of this name is held, or where it would have to be.
    fn locate(&self, name: &str) -> (place: (usize, bool))
        requires
            names_sorted(self.entries()),
        ensures
            place.0 <= self.entries().len(),
            forall|j: int| 0 <= j < place.0 ==> name_lt(self.entries()[j].0, name@),
            place.1 ==> place.0 < self.entries().len() && self.entries()[place.0 as int].0
                == name@,
            !place.1 ==> !has_name(self.entries(), name@),
            !place.1 ==> forall|j: int|
                place.0 <= j < self.entries().len() ==> name_lt(name@, self.entries()[j].0),
    {
        let ghost entries = self.entries();
        let mut low: usize = 0;
        let mut high: usize = self.slots.len();
        while low < high
            invariant
                low <= high <= self.slots.len(),
                entries == self.entries(),
                names_sorted(entries),
                forall|j: int| 0 <= j < low ==> name_lt(entries[j].0, name@),
                forall|j: int| high <= j < entries.len() ==> !name_lt(entries[j].0, name@),
            decreases high - low,
        {
            let middle = low + (high - low) / 2;
            if name_less(self.slots[middle].name.as_str(), name) {
                proof {
                    assert forall|j: int| 0 <= j < middle + 1 implies name_lt(
                        entries[j].0,
                        name@,
                    ) by {
                        if j < middle {
                            lemma_name_lt_transitive(entries[j].0, entries[middle as int].0, name@);
                        }
                    }
                }
                low = middle + 1;
            } else {
                proof {
                    assert forall|j: int| middle <= j < entries.len() implies !name_lt(
                        entries[j].0,
                        name@,
                    ) by {
                        if j > middle && name_lt(entries[j].0, name@) {
                            lemma_name_lt_transitive(
                                entries[middle as int].0,
                                entries[j].0,
                                name@,
                            );
                        }
                    }
                }
                high = middle;
            }
        }
        let found = low < self.slots.len() && name_equal(self.slots[low].name.as_str(), name);
        proof {
            if !found {
                assert forall|j: int| low <= j < entries.len() implies name_lt(
                    name@,
                    entries[j].0,
                ) by {
                    if j == low {
                        if !name_lt(name@, entries[j].0) {
                            lemma_name_lt_connected(name@, entries[j].0);
                        }
                    } else {
                        if !name_lt(name@, entries[low as int].0) {
                            lemma_name_lt_connected(name@, entries[low as int].0);
                        }
                        lemma_name_lt_transitive(name@, entries[low as int].0, entries[j].0);
                    }
                }
                assert forall|j: int| 0 <= j < entries.len() implies entries[j].0 != name@ by {
                    lemma_name_lt_irreflexive(name@);
                }
            }
        }
        (low, found)
    }

    /// Where the field of this name is held, after making room for it if it
    /// was not yet held.
    fn slot_for(&mut self, name: &str) -> (position: usize)
        requires
            old(self).shape(),
        ensures
            final(self).shape(),
            final(self).settings == old(self).settings,
            final(self).count == old(self).count,
            position < final(self).entries().len(),
            position <= old(self).entries().len(),
            final(self).entries()[position as int].0 == name@,
            final(self).entries()[position as int].1 == field_or_empty(
                entries_map(old(self).entries()),
                old(self).settings,
                name@,
            ),
            has_name(old(self).entries(), name@) ==> final(self).entries() == old(
                self,
            ).entries(),
            !has_name(old(self).entries(), name@) ==> final(self).entries() == old(
                self,
            ).entries().insert(position as int, (name@, FieldModel::empty(old(self).settings))),
    {
        let ghost before = self.entries();
        proof {
            lemma_sorted_distinct(before);
        }
        let (position, found) = self.locate(name);
        if found {
            proof {
                lemma_position(before, position as int);
            }
        } else {
            let slot = Slot { name: name.to_owned(), field: FieldAggregator::new(self.settings) };
            self.slots.insert(position, slot);
            proof {
                let entry = (name@, FieldModel::empty(self.settings));
                assert(self.entries() =~= before.insert(position as int, entry));
                assert forall|i: int, j: int| 0 <= i < j < self.entries().len() implies name_lt(
                    self.entries()[i].0,
                    self.entries()[j].0,
                ) by {
                    if i < position && j > position {
                        assert(name_lt(before[i].0, before[j - 1].0));
                    } else if i < position && j < position {
                        assert(name_lt(before[i].0, before[j].0));
                    } else if i > position {
                        assert(name_lt(before[i - 1].0, before[j - 1].0));
                    }
                }
                assert forall|i: int| 0 <= i < self.slots@.len() implies (
                #[trigger] self.slots@[i]).field.wf() && self.slots@[i].field@.settings
                    == self.settings by {
                    if i < position {
                        assert(self.slots@[i] == old(self).slots@[i]);
                    } else if i > position {
                        assert(self.slots@[i] == old(self).slots@[i - 1]);
                    }
                }
            }
        }
        position
    }

    /// Observes one document: counts it, and observes each of its members
    /// as one occurrence of the field of its name. Fields that the document
    /// does not have are not touched. A value that is no document is
    /// refused.
    pub fn observe_document(&mut self, document: &RawValue) -> (observed: Result<
        (),
        AggregationError,
    >)
        requires
            old(self).wf(),
            old(self)@.count < usize::MAX,
        ensures
            final(self).wf(),
            observed is Ok <==> is_document(document@),
            observed is Ok ==> final(self)@ == old(self)@.observe(document@),
            observed is Err ==> observed == Err::<(), AggregationError>(
                AggregationError::MalformedDocument,
            ) && final(self)@ == old(self)@,
    {
        let members = match document {
            RawValue::Object(members) => members,
            _ => {
                return Err(AggregationError::MalformedDocument);
            },
        };
        proof {
            lemma_object_model(*members);
        }
        if !names_differ(members) {
            proof {
                let (i, j) = choose|i: int, j: int|
                    0 <= i < members@.len() && 0 <= j < members@.len() && i != j
                        && members@[i].0@ == members@[j].0@;
                assert(document@->Object_0[i].0 == document@->Object_0[j].0);
            }
            return Err(AggregationError::MalformedDocument);
        }
        let ghost base = self@;
        let ghost extra = document_entries(base.settings, document@->Object_0);
        proof {
            self.lemma_wf();
            lemma_merge_fields_empty(base.fields, base.settings);
            lemma_entries_map_empty(extra.take(0));
            assert(names_distinct(extra));
        }
        let mut i: usize = 0;
        while i < members.len()
            invariant
                i <= members.len(),
                self.shape(),
                self.settings == base.settings,
                self.count == base.count,
                base.wf(),
                base.count < usize::MAX,
                *document == RawValue::Object(*members),
                extra == document_entries(base.settings, document@->Object_0),
                extra.len() == members@.len(),
                names_distinct(extra),
                entries_map(self.entries()) == merge_fields(
                    base.fields,
                    entries_map(extra.take(i as int)),
                    base.settings,
                ),
            decreases members.len() - i,
        {
            let ghost name = members@[i as int].0@;
            let ghost value = members@[i as int].1@;
            let ghost fresh = FieldModel::single(base.settings, value);
            let ghost found = field_or_empty(base.fields, base.settings, name);
            proof {
                lemma_object_model(*members);
                assert(extra[i as int] == (name, fresh));
                lemma_entries_map_take(extra, i as int);
                lemma_merge_fields_insert(
                    base.fields,
                    entries_map(extra.take(i as int)),
                    base.settings,
                    name,
                    fresh,
                );
                self.lemma_shape();
                lemma_field_empty_wf(base.settings);
                lemma_field_observe_is_merge(found, value);
            }
            let ghost held = self.entries();
            let position = self.slot_for(members[i].0.as_str());
            let ghost ready = self.entries();
            proof {
                lemma_sorted_distinct(ready);
                if !has_name(held, name) {
                    lemma_entries_map_insert(held, position as int, (name, found));
                }
                lemma_entries_map_update(ready, position as int, found.observe(value));
                assert(self.slots@[position as int].field@ == found);
            }
            self.slots[position].field.observe(&members[i].1);
            proof {
                assert(self.entries() =~= ready.update(
                    position as int,
                    (name, found.observe(value)),
                ));
                assert forall|k: int| 0 <= k < self.slots@.len() implies (
                #[trigger] self.slots@[k]).field.wf() && self.slots@[k].field@.settings
                    == self.settings by {
                    if k != position {
                        assert(ready[k] == self.entries()[k]);
                    }
                }
                assert(entries_map(self.entries()) =~= merge_fields(
                    base.fields,
                    entries_map(extra.take(i + 1)),
                    base.settings,
                ));
            }
            i += 1;
        }
        self.count = self.count + 1;
        proof {
            assert(extra.take(members@.len() as int) =~= extra);
            lemma_observe_is_merge(base, document@);
            lemma_observe_wf(base, document@);
            assert(self@ == base.observe(document@));
            self.lemma_counts();
        }
        Ok(())
    }

    proof fn lemma_counts(&self)
        requires
            self.shape(),
            self@.wf(),
        ensures
            self.wf(),
    {
        lemma_sorted_distinct(self.entries());
        assert forall|i: int| 0 <= i < self.slots@.len() implies 1 <= (
        #[trigger] self.slots@[i]).field@.count <= self.count by {
            lemma_position(self.entries(), i);
            assert(self@.fields.contains_key(self.entries()[i].0));
        }
    }

    /// Takes in the documents that another aggregator has observed.
    /// Aggregators built under different settings are not merged.
    pub fn merge(&mut self, other: &CorpusAggregator) -> (merged: Result<(), AggregationError>)
        requires
            old(self).wf(),
            other.wf(),
            old(self)@.count + other@.count <= usize::MAX,
        ensures
            final(self).wf(),
            merged is Ok <==> old(self)@.compatible(other@),
            merged is Ok ==> final(self)@ == old(self)@.merge(other@),
            merged is Err ==> merged == Err::<(), AggregationError>(
                AggregationError::IncompatibleMerge,
            ) && final(self)@ == old(self)@,
    {
        if !self.settings.agrees(&other.settings) {
            return Err(AggregationError::IncompatibleMerge);
        }
        let ghost base = self@;
        let ghost extra = other.entries();
        proof {
            self.lemma_wf();
            other.lemma_wf();
            lemma_merge_fields_empty(base.fields, base.settings);
            lemma_entries_map_empty(extra.take(0));
            lemma_sorted_distinct(extra);
        }
        let mut i: usize = 0;
        while i < other.slots.len()
            invariant
                i <= other.slots.len(),
                self.shape(),
                other.wf(),
                other@.wf(),
                self.settings == base.settings,
                other.settings == base.settings,
                self.count == base.count,
                base.wf(),
                base.count + other@.count <= usize::MAX,
                extra == other.entries(),
                names_distinct(extra),
                entries_map(self.entries()) == merge_fields(
                    base.fields,
                    entries_map(extra.take(i as int)),
                    base.settings,
                ),
            decreases other.slots.len() - i,
        {
            let ghost name = extra[i as int].0;
            let ghost given = extra[i as int].1;
            let ghost found = field_or_empty(base.fields, base.settings, name);
            proof {
                lemma_entries_map_take(extra, i as int);
                lemma_merge_fields_insert(
                    base.fields,
                    entries_map(extra.take(i as int)),
                    base.settings,
                    name,
                    given,
                );
                self.lemma_shape();
                lemma_field_empty_wf(base.settings);
                lemma_position(extra, i as int);
                assert(other@.fields.contains_key(name));
                assert(other.slots@[i as int].field.wf());
            }
            let ghost held = self.entries();
            let position = self.slot_for(other.slots[i].name.as_str());
            let ghost ready = self.entries();
            proof {
                lemma_sorted_distinct(ready);
                if !has_name(held, name) {
                    lemma_entries_map_insert(held, position as int, (name, found));
                }
                lemma_entries_map_update(ready, position as int, found.merge(given));
                assert(self.slots@[position as int].field@ == found);
            }
            let taken = self.slots[position].field.merge(&other.slots[i].field);
            proof {
                assert(taken is Ok);
                assert(self.entries() =~= ready.update(position as int, (name, found.merge(given))));
                assert forall|k: int| 0 <= k < self.slots@.len() implies (
                #[trigger] self.slots@[k]).field.wf() && self.slots@[k].field@.settings
                    == self.settings by {
                    if k != position {
                        assert(ready[k] == self.entries()[k]);
                    }
                }
                assert(entries_map(self.entries()) =~= merge_fields(
                    base.fields,
                    entries_map(extra.take(i + 1)),
                    base.settings,
                ));
            }
            i += 1;
        }
        self.count = self.count + other.count;
        proof {
            assert(extra.take(other.slots@.len() as int) =~= extra);
            lemma_merge_wf(base, other@);
            assert(self@ == base.merge(other@));
            self.lemma_counts();
        }
        Ok(())
    }
}

} // verus!
