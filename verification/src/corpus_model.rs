//! The mathematical content of a corpus aggregate, and the algebra of
//! merging.

use vstd::prelude::*;
use crate::field::FieldModel;
use crate::field::lemma_field_empty_wf;
use crate::field::lemma_field_merge_associative;
use crate::field::lemma_field_merge_commutative;
use crate::field::lemma_field_merge_empty;
use crate::field::lemma_field_merge_wf;
use crate::field::lemma_field_observe_is_merge;
use crate::field::lemma_field_observe_wf;
use crate::names::name_lt;
use crate::names::lemma_name_lt_irreflexive;
use crate::settings::Settings;
use crate::value::ValueModel;

verus! {

/// A sequence of fields, each with its name.
pub type Entries = Seq<(Seq<char>, FieldModel)>;

/// The members of an object: each a name with a value.
pub type Members = Seq<(Seq<char>, ValueModel)>;

/// Whether no two entries have the same name.
pub open spec fn names_distinct(entries: Entries) -> bool {
    forall|i: int, j: int|
        0 <= i < entries.len() && 0 <= j < entries.len() && i != j ==> entries[i].0
            != entries[j].0
}

/// Whether the entries stand in the strict order of their names.
pub open spec fn names_sorted(entries: Entries) -> bool {
    forall|i: int, j: int| 0 <= i < j < entries.len() ==> name_lt(entries[i].0, entries[j].0)
}

/// Whether some entry has this name.
pub open spec fn has_name(entries: Entries, name: Seq<char>) -> bool {
    exists|i: int| 0 <= i < entries.len() && entries[i].0 == name
}

/// Where an entry of this name stands.
pub open spec fn position_of(entries: Entries, name: Seq<char>) -> int {
    choose|i: int| 0 <= i < entries.len() && entries[i].0 == name
}

/// The mapping from each entry's name to its field.
pub open spec fn entries_map(entries: Entries) -> Map<Seq<char>, FieldModel> {
    Map::new(
        |name: Seq<char>| has_name(entries, name),
        |name: Seq<char>| entries[position_of(entries, name)].1,
    )
}

/// Whether a value is a document: an object no two members of which have
/// the same name.
pub open spec fn is_document(value: ValueModel) -> bool {
    &&& value is Object
    &&& forall|i: int, j: int|
        0 <= i < value->Object_0.len() && 0 <= j < value->Object_0.len() && i != j
            ==> value->Object_0[i].0 != value->Object_0[j].0
}

/// The fields of a document, each having occurred once.
pub open spec fn document_entries(settings: Settings, members: Members) -> Entries {
    Seq::new(members.len(), |i: int| (members[i].0, FieldModel::single(settings, members[i].1)))
}

/// The field of this name, or a field that has not occurred.
pub open spec fn field_or_empty(
    fields: Map<Seq<char>, FieldModel>,
    settings: Settings,
    name: Seq<char>,
) -> FieldModel {
    if fields.contains_key(name) {
        fields[name]
    } else {
        FieldModel::empty(settings)
    }
}

/// The fields of two mappings, those that both have merged.
pub open spec fn merge_fields(
    a: Map<Seq<char>, FieldModel>,
    b: Map<Seq<char>, FieldModel>,
    settings: Settings,
) -> Map<Seq<char>, FieldModel> {
    Map::new(
        |name: Seq<char>| a.contains_key(name) || b.contains_key(name),
        |name: Seq<char>|
            field_or_empty(a, settings, name).merge(field_or_empty(b, settings, name)),
    )
}

/// The mathematical content of a corpus aggregate: how many documents were
/// observed, and what was aggregated for each field that occurred in them.
pub struct CorpusModel {
    pub settings: Settings,
    pub count: nat,
    pub fields: Map<Seq<char>, FieldModel>,
}

impl CorpusModel {
    /// An aggregate of no documents.
    pub open spec fn empty(settings: Settings) -> CorpusModel {
        CorpusModel { settings, count: 0, fields: Map::empty() }
    }

    /// The aggregate of one document.
    pub open spec fn single(settings: Settings, document: ValueModel) -> CorpusModel {
        CorpusModel {
            settings,
            count: 1,
            fields: entries_map(document_entries(settings, document->Object_0)),
        }
    }

    /// Finitely many fields have occurred. Each occurred at least once and
    /// in no more documents than were observed, and each was aggregated
    /// under the settings of the corpus.
    pub open spec fn wf(self) -> bool {
        &&& self.fields.dom().finite()
        &&& forall|name: Seq<char>| #[trigger]
            self.fields.contains_key(name) ==> {
                &&& self.fields[name].wf()
                &&& self.fields[name].settings == self.settings
                &&& 1 <= self.fields[name].count <= self.count
            }
    }

    /// What was aggregated for the field of this name.
    pub open spec fn field(self, name: Seq<char>) -> FieldModel {
        field_or_empty(self.fields, self.settings, name)
    }

    /// The aggregate after one more document: every member of the document
    /// is one more occurrence of the field of its name.
    pub open spec fn observe(self, document: ValueModel) -> CorpusModel {
        let members = document->Object_0;
        let entries = document_entries(self.settings, members);
        CorpusModel {
            settings: self.settings,
            count: self.count + 1,
            fields: Map::new(
                |name: Seq<char>| self.fields.contains_key(name) || has_name(entries, name),
                |name: Seq<char>|
                    if has_name(entries, name) {
                        self.field(name).observe(members[position_of(entries, name)].1)
                    } else {
                        self.fields[name]
                    },
            ),
        }
    }

    /// Whether two aggregates can be merged: they were built under the same
    /// settings.
    pub open spec fn compatible(self, other: CorpusModel) -> bool {
        self.settings == other.settings
    }

    /// The aggregate of the documents of both aggregates.
    pub open spec fn merge(self, other: CorpusModel) -> CorpusModel {
        CorpusModel {
            settings: self.settings,
            count: self.count + other.count,
            fields: merge_fields(self.fields, other.fields, self.settings),
        }
    }
}

/// Entries in the strict order of their names have different names.
pub proof fn lemma_sorted_distinct(entries: Entries)
    requires
        names_sorted(entries),
    ensures
        names_distinct(entries),
{
    assert forall|i: int, j: int|
        0 <= i < entries.len() && 0 <= j < entries.len() && i != j implies entries[i].0
        != entries[j].0 by {
        lemma_name_lt_irreflexive(entries[i].0);
        if i < j {
            assert(name_lt(entries[i].0, entries[j].0));
        } else {
            assert(name_lt(entries[j].0, entries[i].0));
        }
    }
}

/// Among entries with different names, each name leads to its own entry.
pub proof fn lemma_position(entries: Entries, i: int)
    requires
        names_distinct(entries),
        0 <= i < entries.len(),
    ensures
        has_name(entries, entries[i].0),
        position_of(entries, entries[i].0) == i,
        entries_map(entries).contains_key(entries[i].0),
        entries_map(entries)[entries[i].0] == entries[i].1,
{
}

/// The mapping of finitely many entries has finitely many names.
pub proof fn lemma_entries_map_finite(entries: Entries)
    ensures
        entries_map(entries).dom().finite(),
    decreases entries.len(),
{
    let names = entries.map_values(|e: (Seq<char>, FieldModel)| e.0);
    vstd::seq_lib::seq_to_set_is_finite(names);
    assert forall|name: Seq<char>| entries_map(entries).dom().contains(name) implies names.to_set().contains(name) by {
        let i = position_of(entries, name);
        assert(names[i] == name);
    }
    vstd::set_lib::lemma_set_subset_finite(names.to_set(), entries_map(entries).dom());
}

/// The mapping of no entries is empty.
pub proof fn lemma_entries_map_empty(entries: Entries)
    requires
        entries.len() == 0,
    ensures
        entries_map(entries) == Map::<Seq<char>, FieldModel>::empty(),
{
    assert(entries_map(entries) =~= Map::<Seq<char>, FieldModel>::empty());
}

/// One more entry, of a new name, adds its name and field to the mapping.
pub proof fn lemma_entries_map_take(entries: Entries, n: int)
    requires
        names_distinct(entries),
        0 <= n < entries.len(),
    ensures
        names_distinct(entries.take(n)),
        names_distinct(entries.take(n + 1)),
        !has_name(entries.take(n), entries[n].0),
        entries_map(entries.take(n + 1)) == entries_map(entries.take(n)).insert(
            entries[n].0,
            entries[n].1,
        ),
{
    let before = entries.take(n);
    let after = entries.take(n + 1);
    assert forall|name: Seq<char>| has_name(after, name) <==> (has_name(before, name) || name
        == entries[n].0) by {
        if has_name(after, name) {
            let i = position_of(after, name);
            if i < n {
                assert(before[i].0 == name);
            }
        }
        if has_name(before, name) {
            let i = position_of(before, name);
            assert(after[i].0 == name);
        }
        if name == entries[n].0 {
            assert(after[n].0 == name);
        }
    }
    assert forall|name: Seq<char>| has_name(before, name) implies entries_map(after)[name]
        == entries_map(before)[name] by {
        let i = position_of(before, name);
        assert(after[i].0 == name);
        lemma_position(after, i);
        lemma_position(before, i);
    }
    lemma_position(after, n);
    assert(entries_map(after) =~= entries_map(before).insert(entries[n].0, entries[n].1));
}

/// Replacing the field of one entry replaces it in the mapping.
pub proof fn lemma_entries_map_update(entries: Entries, position: int, field: FieldModel)
    requires
        names_distinct(entries),
        0 <= position < entries.len(),
    ensures
        names_distinct(entries.update(position, (entries[position].0, field))),
        entries_map(entries.update(position, (entries[position].0, field))) == entries_map(
            entries,
        ).insert(entries[position].0, field),
{
    let after = entries.update(position, (entries[position].0, field));
    assert forall|name: Seq<char>| has_name(after, name) <==> has_name(entries, name) by {
        if has_name(after, name) {
            let i = position_of(after, name);
            assert(entries[i].0 == name);
        }
        if has_name(entries, name) {
            let i = position_of(entries, name);
            assert(after[i].0 == name);
        }
    }
    assert forall|name: Seq<char>| has_name(entries, name) implies entries_map(after)[name] == (
    if name == entries[position].0 {
        field
    } else {
        entries_map(entries)[name]
    }) by {
        let i = position_of(entries, name);
        assert(after[i].0 == name);
        lemma_position(after, i);
        lemma_position(entries, i);
    }
    lemma_position(entries, position);
    assert(entries_map(after) =~= entries_map(entries).insert(entries[position].0, field));
}

/// A new entry, of a new name, adds its name and field to the mapping.
pub proof fn lemma_entries_map_insert(entries: Entries, position: int, entry: (Seq<char>, FieldModel))
    requires
        names_distinct(entries),
        0 <= position <= entries.len(),
        !has_name(entries, entry.0),
    ensures
        names_distinct(entries.insert(position, entry)),
        entries_map(entries.insert(position, entry)) == entries_map(entries).insert(
            entry.0,
            entry.1,
        ),
{
    let after = entries.insert(position, entry);
    assert forall|i: int| 0 <= i < entries.len() implies entries[i].0 != entry.0 by {
        if entries[i].0 == entry.0 {
            assert(has_name(entries, entry.0));
        }
    }
    assert forall|i: int| 0 <= i < entries.len() implies #[trigger] entries[i] == after[if i
        < position {
        i
    } else {
        i + 1
    }] by {}
    assert forall|name: Seq<char>| has_name(after, name) <==> (has_name(entries, name) || name
        == entry.0) by {
        if has_name(after, name) {
            let i = position_of(after, name);
            if i < position {
                assert(entries[i].0 == name);
            } else if i > position {
                assert(entries[i - 1].0 == name);
            }
        }
        if has_name(entries, name) {
            let i = position_of(entries, name);
            let k = if i < position {
                i
            } else {
                i + 1
            };
            assert(after[k].0 == name);
        }
        if name == entry.0 {
            assert(after[position].0 == name);
        }
    }
    assert(names_distinct(after)) by {
        assert forall|i: int, j: int|
            0 <= i < after.len() && 0 <= j < after.len() && i != j implies after[i].0
            != after[j].0 by {
            let x = if i < position {
                i
            } else {
                i - 1
            };
            let y = if j < position {
                j
            } else {
                j - 1
            };
            if i != position && j != position {
                assert(after[i] == entries[x]);
                assert(after[j] == entries[y]);
            } else if i == position {
                assert(after[j] == entries[y]);
            } else {
                assert(after[i] == entries[x]);
            }
        }
    }
    assert forall|name: Seq<char>| has_name(entries, name) implies entries_map(after)[name]
        == entries_map(entries)[name] by {
        let i = position_of(entries, name);
        let k = if i < position {
            i
        } else {
            i + 1
        };
        assert(after[k].0 == name);
        lemma_position(after, k);
        lemma_position(entries, i);
    }
    lemma_position(after, position);
    assert(entries_map(after) =~= entries_map(entries).insert(entry.0, entry.1));
}

/// Taking in one more field, of a name that the right side did not have,
/// merges it with the left side's field of that name.
pub proof fn lemma_merge_fields_insert(
    a: Map<Seq<char>, FieldModel>,
    b: Map<Seq<char>, FieldModel>,
    settings: Settings,
    name: Seq<char>,
    field: FieldModel,
)
    requires
        !b.contains_key(name),
        a.contains_key(name) ==> a[name].wf() && a[name].settings == settings,
    ensures
        merge_fields(a, b.insert(name, field), settings) == merge_fields(a, b, settings).insert(
            name,
            field_or_empty(a, settings, name).merge(field),
        ),
        merge_fields(a, b, settings).contains_key(name) == a.contains_key(name),
        a.contains_key(name) ==> merge_fields(a, b, settings)[name] == a[name],
{
    if a.contains_key(name) {
        lemma_field_merge_empty(a[name]);
    }
    assert(merge_fields(a, b.insert(name, field), settings) =~= merge_fields(
        a,
        b,
        settings,
    ).insert(name, field_or_empty(a, settings, name).merge(field)));
}

/// Merging with no fields changes nothing.
pub proof fn lemma_merge_fields_empty(a: Map<Seq<char>, FieldModel>, settings: Settings)
    requires
        forall|name: Seq<char>| #[trigger]
            a.contains_key(name) ==> a[name].wf() && a[name].settings == settings,
    ensures
        merge_fields(a, Map::empty(), settings) == a,
{
    assert forall|name: Seq<char>| a.contains_key(name) implies merge_fields(
        a,
        Map::empty(),
        settings,
    )[name] == a[name] by {
        lemma_field_merge_empty(a[name]);
    }
    assert(merge_fields(a, Map::empty(), settings) =~= a);
}

/// The aggregate of one document is well formed.
pub proof fn lemma_single_wf(settings: Settings, document: ValueModel)
    requires
        is_document(document),
    ensures
        CorpusModel::single(settings, document).wf(),
{
    let entries = document_entries(settings, document->Object_0);
    lemma_entries_map_finite(entries);
    let single = CorpusModel::single(settings, document);
    assert forall|name: Seq<char>| #[trigger] single.fields.contains_key(name) implies {
        &&& single.fields[name].wf()
        &&& single.fields[name].settings == settings
        &&& 1 <= single.fields[name].count <= 1
    } by {
        let i = position_of(entries, name);
        lemma_field_empty_wf(settings);
        lemma_field_observe_wf(FieldModel::empty(settings), document->Object_0[i].1);
    }
}

/// To observe a document is to merge with the aggregate of that document.
pub proof fn lemma_observe_is_merge(m: CorpusModel, document: ValueModel)
    requires
        m.wf(),
        is_document(document),
    ensures
        m.observe(document) == m.merge(CorpusModel::single(m.settings, document)),
{
    let members = document->Object_0;
    let entries = document_entries(m.settings, members);
    let single = CorpusModel::single(m.settings, document);
    lemma_field_empty_wf(m.settings);
    assert forall|name: Seq<char>|
        m.fields.contains_key(name) || has_name(entries, name) implies m.observe(
        document,
    ).fields[name] == m.merge(single).fields[name] by {
        if has_name(entries, name) {
            lemma_field_observe_is_merge(m.field(name), members[position_of(entries, name)].1);
        } else {
            lemma_field_merge_empty(m.fields[name]);
        }
    }
    assert(m.observe(document).fields =~= m.merge(single).fields);
}

/// Merging keeps aggregates well formed.
pub proof fn lemma_merge_wf(a: CorpusModel, b: CorpusModel)
    requires
        a.wf(),
        b.wf(),
        a.compatible(b),
    ensures
        a.merge(b).wf(),
{
    let merged = a.merge(b);
    assert(merged.fields.dom() =~= a.fields.dom().union(b.fields.dom()));
    lemma_field_empty_wf(a.settings);
    assert forall|name: Seq<char>| #[trigger] merged.fields.contains_key(name) implies {
        &&& merged.fields[name].wf()
        &&& merged.fields[name].settings == merged.settings
        &&& 1 <= merged.fields[name].count <= merged.count
    } by {
        lemma_field_merge_wf(a.field(name), b.field(name));
    }
}

/// Observation keeps an aggregate well formed.
pub proof fn lemma_observe_wf(m: CorpusModel, document: ValueModel)
    requires
        m.wf(),
        is_document(document),
    ensures
        m.observe(document).wf(),
{
    lemma_observe_is_merge(m, document);
    lemma_single_wf(m.settings, document);
    lemma_merge_wf(m, CorpusModel::single(m.settings, document));
}

/// Merging does not depend on the order of its two sides.
pub proof fn lemma_merge_commutative(a: CorpusModel, b: CorpusModel)
    requires
        a.wf(),
        b.wf(),
        a.compatible(b),
    ensures
        a.merge(b) == b.merge(a),
{
    lemma_field_empty_wf(a.settings);
    assert forall|name: Seq<char>|
        a.fields.contains_key(name) || b.fields.contains_key(name) implies a.merge(
        b,
    ).fields[name] == b.merge(a).fields[name] by {
        lemma_field_merge_commutative(a.field(name), b.field(name));
    }
    assert(a.merge(b).fields =~= b.merge(a).fields);
}

/// Merging three aggregates does not depend on which two are merged first.
pub proof fn lemma_merge_associative(a: CorpusModel, b: CorpusModel, c: CorpusModel)
    requires
        a.wf(),
        b.wf(),
        c.wf(),
        a.compatible(b),
        b.compatible(c),
    ensures
        a.merge(b).merge(c) == a.merge(b.merge(c)),
{
    lemma_field_empty_wf(a.settings);
    let empty = FieldModel::empty(a.settings);
    lemma_field_merge_empty(empty);
    assert forall|name: Seq<char>|
        a.fields.contains_key(name) || b.fields.contains_key(name) || c.fields.contains_key(
            name,
        ) implies a.merge(b).merge(c).fields[name] == a.merge(b.merge(c)).fields[name] by {
        lemma_field_merge_associative(a.field(name), b.field(name), c.field(name));
    }
    assert(a.merge(b).merge(c).fields =~= a.merge(b.merge(c)).fields);
}

/// Merging with an aggregate of no documents changes nothing.
pub proof fn lemma_merge_empty(a: CorpusModel)
    requires
        a.wf(),
    ensures
        a.merge(CorpusModel::empty(a.settings)) == a,
        CorpusModel::empty(a.settings).merge(a) == a,
{
    let empty = CorpusModel::empty(a.settings);
    assert forall|name: Seq<char>| a.fields.contains_key(name) implies a.merge(
        empty,
    ).fields[name] == a.fields[name] && empty.merge(a).fields[name] == a.fields[name] by {
        lemma_field_merge_empty(a.fields[name]);
    }
    assert(a.merge(empty).fields =~= a.fields);
    assert(empty.merge(a).fields =~= a.fields);
}

} // verus!
