//! What holds of aggregation as a whole.

use vstd::prelude::*;
use crate::analysis::aggregate;
use crate::analysis::documents_among;
use crate::analysis::lemma_aggregate_count;
use crate::analysis::lemma_aggregate_wf;
use crate::corpus_model::document_entries;
use crate::corpus_model::has_name;
use crate::corpus_model::position_of;
use crate::classifier::tag_of;
use crate::corpus_model::CorpusModel;
use crate::corpus_model::is_document;
use crate::corpus_model::lemma_merge_associative;
use crate::corpus_model::lemma_merge_commutative;
use crate::corpus_model::lemma_merge_empty;
use crate::corpus_model::lemma_observe_is_merge;
use crate::corpus_model::lemma_single_wf;
use crate::field::FieldModel;
use crate::field::lemma_field_empty_wf;
use crate::field::lemma_field_observe_wf;
use crate::finalize::is_schema_of;
use crate::finalize::lemma_schema_of_wf;
use crate::finalize::lemma_schema_unique;
use crate::schema::SchemaModel;
use crate::settings::Settings;
use crate::tags::TAG_COUNT;
use crate::tags::lemma_tag_at_index;
use crate::tracker_model::Strategy;
use crate::value::ValueModel;

verus! {

/// Every schema is consistent in itself: no field occurs in more
/// documents than there are; the counts of the types of a field add up to
/// the count of the field; every probability is the share that the counts
/// give; the fields stand in the strict order of their names, and the
/// types of a field by their counts, the greater first, and by their names
/// where the counts are the same.
pub proof fn law_schema_consistent(corpus: CorpusModel, schema: SchemaModel)
    requires
        corpus.wf(),
        is_schema_of(corpus, schema),
    ensures
        schema.wf(),
{
    lemma_schema_of_wf(corpus, schema);
}

/// Finalizing is a function of what was aggregated: finalizing the same
/// aggregate twice, or two aggregates with the same content, gives the same
/// schema.
pub proof fn law_finalize_deterministic(
    corpus: CorpusModel,
    first: SchemaModel,
    second: SchemaModel,
)
    requires
        is_schema_of(corpus, first),
        is_schema_of(corpus, second),
    ensures
        first == second,
{
    lemma_schema_unique(corpus, first, second);
}

/// Merging is commutative and associative: in whichever order and grouping
/// three partial aggregates are merged, the merged aggregate is the same,
/// and so is its schema.
pub proof fn law_merge_order(
    a: CorpusModel,
    b: CorpusModel,
    c: CorpusModel,
    left: SchemaModel,
    right: SchemaModel,
    swapped: SchemaModel,
)
    requires
        a.wf(),
        b.wf(),
        c.wf(),
        a.compatible(b),
        b.compatible(c),
        is_schema_of(a.merge(b).merge(c), left),
        is_schema_of(a.merge(b.merge(c)), right),
        is_schema_of(b.merge(a).merge(c), swapped),
    ensures
        a.merge(b) == b.merge(a),
        a.merge(b).merge(c) == a.merge(b.merge(c)),
        left == right,
        right == swapped,
{
    lemma_merge_commutative(a, b);
    lemma_merge_associative(a, b, c);
    lemma_schema_unique(a.merge(b).merge(c), left, right);
    lemma_schema_unique(a.merge(b).merge(c), left, swapped);
}

/// Shards recombine: to aggregate two sequences of values apart and merge
/// the aggregates is to aggregate the two sequences one after the other.
pub proof fn law_shards_recombine(
    settings: Settings,
    first: Seq<ValueModel>,
    second: Seq<ValueModel>,
)
    ensures
        aggregate(settings, first + second) == aggregate(settings, first).merge(
            aggregate(settings, second),
        ),
    decreases second.len(),
{
    let whole = aggregate(settings, first);
    lemma_aggregate_wf(settings, first);
    lemma_aggregate_wf(settings, second);
    if second.len() == 0 {
        assert(first + second =~= first);
        lemma_merge_empty(whole);
    } else {
        let rest = second.drop_last();
        let last = second.last();
        assert((first + second).drop_last() =~= first + rest);
        assert((first + second).last() == last);
        law_shards_recombine(settings, first, rest);
        lemma_aggregate_wf(settings, rest);
        lemma_aggregate_wf(settings, first + rest);
        if is_document(last) {
            let single = CorpusModel::single(settings, last);
            lemma_single_wf(settings, last);
            lemma_observe_is_merge(aggregate(settings, first + rest), last);
            lemma_observe_is_merge(aggregate(settings, rest), last);
            lemma_merge_associative(whole, aggregate(settings, rest), single);
        }
    }
}

/// The field after it occurred with each of these values in turn.
pub open spec fn field_after(settings: Settings, values: Seq<ValueModel>) -> FieldModel
    decreases values.len(),
{
    if values.len() == 0 {
        FieldModel::empty(settings)
    } else {
        field_after(settings, values.drop_last()).observe(values.last())
    }
}

proof fn lemma_field_after(settings: Settings, values: Seq<ValueModel>)
    requires
        settings.strategy == Strategy::Exact,
    ensures
        field_after(settings, values).wf(),
        field_after(settings, values).settings == settings,
        forall|value: ValueModel| #[trigger]
            values.contains(value) <==> field_after(settings, values).trackers[tag_of(
                settings.rules,
                value,
            ).index() as int].seen->Exact_0.contains(value),
        forall|t: int|
            0 <= t < TAG_COUNT ==> (#[trigger] field_after(settings, values).trackers[t]).seen
                is Exact,
        field_after(settings, values).has_duplicates() <==> !values.no_duplicates(),
    decreases values.len(),
{
    let field = field_after(settings, values);
    if values.len() == 0 {
        lemma_field_empty_wf(settings);
        assert forall|value: ValueModel| !(#[trigger] values.contains(value)) by {}
        assert forall|value: ValueModel|
            !field.trackers[tag_of(settings.rules, value).index() as int].seen->Exact_0.contains(
                value,
            ) by {
            lemma_tag_at_index(tag_of(settings.rules, value));
        }
    } else {
        let rest = values.drop_last();
        let last = values.last();
        let before = field_after(settings, rest);
        let position = tag_of(settings.rules, last).index() as int;
        lemma_field_after(settings, rest);
        lemma_field_observe_wf(before, last);
        lemma_tag_at_index(tag_of(settings.rules, last));
        assert(values =~= rest.push(last));
        assert forall|value: ValueModel| #[trigger]
            values.contains(value) <==> field.trackers[tag_of(
                settings.rules,
                value,
            ).index() as int].seen->Exact_0.contains(value) by {
            lemma_tag_at_index(tag_of(settings.rules, value));
            if value != last {
                assert(rest.contains(value) <==> values.contains(value)) by {
                    if values.contains(value) {
                        let i = choose|i: int| 0 <= i < values.len() && values[i] == value;
                        assert(rest[i] == value);
                    }
                    if rest.contains(value) {
                        let i = choose|i: int| 0 <= i < rest.len() && rest[i] == value;
                        assert(values[i] == value);
                    }
                }
            } else {
                assert(values[values.len() - 1] == value);
            }
        }
        let tracker = before.trackers[position];
        assert(tracker.wf());
        if rest.contains(last) {
            let i = choose|i: int| 0 <= i < rest.len() && rest[i] == last;
            assert(values[i] == values[values.len() - 1]);
            assert(!values.no_duplicates());
            assert(tracker.seen->Exact_0.insert(last) =~= tracker.seen->Exact_0);
            assert(field.trackers[position].has_duplicates());
        } else {
            assert(!tracker.seen->Exact_0.contains(last));
            if before.has_duplicates() {
                let t = choose|t: int|
                    0 <= t < TAG_COUNT && (#[trigger] before.trackers[t]).has_duplicates();
                assert(field.trackers[t].has_duplicates());
                let (i, j) = choose|i: int, j: int|
                    0 <= i < rest.len() && 0 <= j < rest.len() && i != j && rest[i] == rest[j];
                assert(values[i] == values[j]);
            } else {
                assert forall|t: int| 0 <= t < TAG_COUNT implies !(
                #[trigger] field.trackers[t]).has_duplicates() by {
                    assert(!before.trackers[t].has_duplicates());
                }
                assert forall|i: int, j: int|
                    0 <= i < values.len() && 0 <= j < values.len() && i != j implies values[i]
                    != values[j] by {
                    if i < rest.len() && j < rest.len() {
                        assert(rest[i] != rest[j]);
                    } else if i < rest.len() {
                        assert(rest.contains(rest[i]));
                    } else {
                        assert(rest.contains(rest[j]));
                    }
                }
            }
        }
    }
}

/// The field that occurred with each of these values in turn has occurred
/// as often as there are values.
pub proof fn lemma_field_after_count(settings: Settings, values: Seq<ValueModel>)
    ensures
        field_after(settings, values).count == values.len(),
    decreases values.len(),
{
    if values.len() > 0 {
        lemma_field_after_count(settings, values.drop_last());
    }
}

/// Whether a document has a member of this name.
pub open spec fn has_member(document: ValueModel, name: Seq<char>) -> bool {
    exists|i: int| 0 <= i < document->Object_0.len() && document->Object_0[i].0 == name
}

/// The value that a document has under a name.
pub open spec fn member_value(document: ValueModel, name: Seq<char>) -> ValueModel {
    document->Object_0[choose|i: int|
        0 <= i < document->Object_0.len() && document->Object_0[i].0 == name].1
}

/// The values that the documents among these values have under a name, in
/// the order of the documents.
pub open spec fn values_under(values: Seq<ValueModel>, name: Seq<char>) -> Seq<ValueModel>
    decreases values.len(),
{
    if values.len() == 0 {
        Seq::empty()
    } else if is_document(values.last()) && has_member(values.last(), name) {
        values_under(values.drop_last(), name).push(member_value(values.last(), name))
    } else {
        values_under(values.drop_last(), name)
    }
}

/// The count of an aggregate is the number of documents that were
/// observed.
pub proof fn law_count_documents(settings: Settings, values: Seq<ValueModel>)
    ensures
        aggregate(settings, values).count == documents_among(values),
{
    lemma_aggregate_count(settings, values);
}

/// A name is a field of an aggregate exactly if some document has a member
/// of that name; the field has occurred as often as there are such
/// documents; and it holds what a field holds that took the values under
/// that name one after the other.
pub proof fn law_field_history(settings: Settings, values: Seq<ValueModel>, name: Seq<char>)
    ensures
        aggregate(settings, values).fields.contains_key(name) <==> values_under(
            values,
            name,
        ).len() > 0,
        aggregate(settings, values).field(name) == field_after(
            settings,
            values_under(values, name),
        ),
        aggregate(settings, values).field(name).count == values_under(values, name).len(),
    decreases values.len(),
{
    lemma_aggregate_wf(settings, values);
    lemma_field_after_count(settings, values_under(values, name));
    if values.len() > 0 {
        let rest = values.drop_last();
        let last = values.last();
        law_field_history(settings, rest, name);
        lemma_aggregate_wf(settings, rest);
        if is_document(last) {
            let members = last->Object_0;
            let entries = document_entries(settings, members);
            if has_member(last, name) {
                let i = choose|i: int| 0 <= i < members.len() && members[i].0 == name;
                assert(entries[i].0 == name);
                let k = position_of(entries, name);
                assert(members[k].0 == name);
                assert(k == i);
                let under = values_under(rest, name);
                let value = member_value(last, name);
                assert(under.push(value).drop_last() =~= under);
                assert(under.push(value).last() == value);
            } else {
                if has_name(entries, name) {
                    let k = position_of(entries, name);
                    assert(members[k].0 == name);
                }
            }
        }
    }
}

/// Under exact tracking a field of an aggregate has duplicates exactly if
/// two documents hold the same value under its name. Values of different
/// kinds are different values.
pub proof fn law_corpus_duplicates(settings: Settings, values: Seq<ValueModel>, name: Seq<char>)
    requires
        settings.strategy == Strategy::Exact,
    ensures
        aggregate(settings, values).field(name).has_duplicates() <==> exists|i: int, j: int|
            0 <= i < j < values_under(values, name).len() && values_under(values, name)[i]
                == values_under(values, name)[j],
{
    law_field_history(settings, values, name);
    law_duplicates(settings, values_under(values, name));
}

/// Under exact tracking a field has duplicates exactly if it took some
/// value more than once. Values of different kinds are different values.
pub proof fn law_duplicates(settings: Settings, values: Seq<ValueModel>)
    requires
        settings.strategy == Strategy::Exact,
    ensures
        field_after(settings, values).has_duplicates() <==> exists|i: int, j: int|
            0 <= i < j < values.len() && values[i] == values[j],
{
    lemma_field_after(settings, values);
    if !values.no_duplicates() {
        let (i, j) = choose|i: int, j: int|
            0 <= i < values.len() && 0 <= j < values.len() && i != j && values[i] == values[j];
        if i < j {
            assert(values[i] == values[j]);
        } else {
            assert(values[j] == values[i]);
        }
    }
}

} // verus!
