//! Finalizing: from an aggregate to the schema of its corpus.

use vstd::prelude::*;
use crate::corpus::CorpusAggregator;
use crate::corpus_model::CorpusModel;
use crate::corpus_model::has_name;
use crate::corpus_model::position_of;
use crate::corpus_model::lemma_position;
use crate::corpus_model::lemma_sorted_distinct;
use crate::field::FieldAggregator;
use crate::field::FieldModel;
use crate::field::total_count;
use crate::names::name_lt;
use crate::names::lemma_name_lt_irreflexive;
use crate::names::lemma_name_lt_transitive;
use crate::schema::Field;
use crate::schema::FieldView;
use crate::schema::Probability;
use crate::schema::Ratio;
use crate::schema::Schema;
use crate::schema::SchemaModel;
use crate::schema::Type;
use crate::schema::TypeModel;
use crate::schema::sum_counts;
use crate::schema::type_before;
use crate::tags::TypeTag;
use crate::tags::TAG_COUNT;
use crate::tags::lemma_tag_at_index;
use crate::tags::lemma_tag_order;

verus! {

/// What a schema says of the values of one kind that a field has taken.
pub open spec fn type_of(field: FieldModel, tag: TypeTag) -> TypeModel {
    TypeModel {
        name: tag.name_spec(),
        count: field.tracker(tag).count,
        probability: Ratio { numerator: field.tracker(tag).count, denominator: field.count },
        unique: field.tracker(tag).unique(),
        approximate: field.tracker(tag).approximate(),
    }
}

/// Whether `types` are the types of a field: one for each kind of which
/// the field had a value, the most frequent first, equally frequent ones in
/// the order of their names.
pub open spec fn is_types_of(field: FieldModel, types: Seq<TypeModel>) -> bool {
    &&& forall|i: int, j: int| 0 <= i < j < types.len() ==> type_before(types[i], types[j])
    &&& forall|i: int|
        0 <= i < types.len() ==> (#[trigger] types[i]).count > 0 && exists|tag: TypeTag|
            types[i] == #[trigger] type_of(field, tag)
    &&& forall|tag: TypeTag|
        field.tracker(tag).count > 0 ==> types.contains(#[trigger] type_of(field, tag))
}

/// Whether `view` is what a schema says of the field of this name, in a
/// corpus of `total` documents.
pub open spec fn is_field_of(field: FieldModel, name: Seq<char>, total: nat, view: FieldView) -> bool {
    &&& view.name == name
    &&& view.count == field.count
    &&& view.probability == Ratio { numerator: field.count, denominator: total }
    &&& view.has_duplicates == field.has_duplicates()
    &&& view.approximate == field.approximate()
    &&& is_types_of(field, view.types)
}

/// Whether `schema` is the schema of a corpus: it counts the documents of
/// the corpus, and has the fields of the corpus, each once, in the strict
/// order of their names.
pub open spec fn is_schema_of(corpus: CorpusModel, schema: SchemaModel) -> bool {
    &&& schema.count == corpus.count
    &&& forall|i: int, j: int|
        0 <= i < j < schema.fields.len() ==> name_lt(schema.fields[i].name, schema.fields[j].name)
    &&& forall|i: int|
        0 <= i < schema.fields.len() ==> corpus.fields.contains_key(
            (#[trigger] schema.fields[i]).name,
        ) && is_field_of(
            corpus.fields[schema.fields[i].name],
            schema.fields[i].name,
            corpus.count,
            schema.fields[i],
        )
    &&& forall|name: Seq<char>| #[trigger]
        corpus.fields.contains_key(name) ==> exists|i: int|
            0 <= i < schema.fields.len() && (#[trigger] schema.fields[i]).name == name
}

/// Two sequences that hold the same elements, both in a strict order, are
/// the same sequence.
pub proof fn lemma_same_elements_same_order<A>(x: Seq<A>, y: Seq<A>, before: spec_fn(A, A) -> bool)
    requires
        forall|i: int, j: int| 0 <= i < j < x.len() ==> before(x[i], x[j]),
        forall|i: int, j: int| 0 <= i < j < y.len() ==> before(y[i], y[j]),
        forall|a: A| !#[trigger] before(a, a),
        forall|a: A, b: A, c: A| #[trigger] before(a, b) && #[trigger] before(b, c) ==> before(a, c),
        forall|i: int| 0 <= i < x.len() ==> y.contains(#[trigger] x[i]),
        forall|i: int| 0 <= i < y.len() ==> x.contains(#[trigger] y[i]),
    ensures
        x == y,
    decreases x.len(),
{
    if x.len() == 0 {
        if y.len() > 0 {
            assert(x.contains(y[0]));
        }
        assert(x =~= y);
    } else {
        assert(y.contains(x[0]));
        assert(x.contains(y[0]));
        let j = choose|j: int| 0 <= j < y.len() && y[j] == x[0];
        let i = choose|i: int| 0 <= i < x.len() && x[i] == y[0];
        if j > 0 && i > 0 {
            assert(before(y[0], y[j]));
            assert(before(x[0], x[i]));
        }
        if j > 0 && i == 0 {
            assert(before(y[0], y[j]));
        }
        if i > 0 && j == 0 {
            assert(before(x[0], x[i]));
        }
        assert(x[0] == y[0]);
        let xs = x.drop_first();
        let ys = y.drop_first();
        assert forall|k: int| 0 <= k < xs.len() implies ys.contains(#[trigger] xs[k]) by {
            assert(y.contains(x[k + 1]));
            let m = choose|m: int| 0 <= m < y.len() && y[m] == x[k + 1];
            assert(before(x[0], x[k + 1]));
            assert(m > 0);
            assert(ys[m - 1] == xs[k]);
        }
        assert forall|k: int| 0 <= k < ys.len() implies xs.contains(#[trigger] ys[k]) by {
            assert(x.contains(y[k + 1]));
            let m = choose|m: int| 0 <= m < x.len() && x[m] == y[k + 1];
            assert(before(y[0], y[k + 1]));
            assert(m > 0);
            assert(xs[m - 1] == ys[k]);
        }
        assert forall|a: int, b: int| 0 <= a < b < xs.len() implies before(xs[a], xs[b]) by {
            assert(before(x[a + 1], x[b + 1]));
        }
        assert forall|a: int, b: int| 0 <= a < b < ys.len() implies before(ys[a], ys[b]) by {
            assert(before(y[a + 1], y[b + 1]));
        }
        lemma_same_elements_same_order(xs, ys, before);
        assert(x =~= seq![x[0]] + xs);
        assert(y =~= seq![y[0]] + ys);
    }
}

/// A field has one sequence of types.
pub proof fn lemma_types_unique(field: FieldModel, a: Seq<TypeModel>, b: Seq<TypeModel>)
    requires
        is_types_of(field, a),
        is_types_of(field, b),
    ensures
        a == b,
{
    let before = |x: TypeModel, y: TypeModel| type_before(x, y);
    assert forall|x: TypeModel| !#[trigger] before(x, x) by {
        lemma_name_lt_irreflexive(x.name);
    }
    assert forall|x: TypeModel, y: TypeModel, z: TypeModel| #[trigger]
        before(x, y) && #[trigger] before(y, z) implies before(x, z) by {
        if x.count == y.count && y.count == z.count {
            lemma_name_lt_transitive(x.name, y.name, z.name);
        }
    }
    assert forall|i: int| 0 <= i < a.len() implies b.contains(#[trigger] a[i]) by {
        let tag = choose|tag: TypeTag| a[i] == #[trigger] type_of(field, tag);
        assert(b.contains(type_of(field, tag)));
    }
    assert forall|i: int| 0 <= i < b.len() implies a.contains(#[trigger] b[i]) by {
        let tag = choose|tag: TypeTag| b[i] == #[trigger] type_of(field, tag);
        assert(a.contains(type_of(field, tag)));
    }
    lemma_same_elements_same_order(a, b, before);
}

/// A corpus has one schema.
pub proof fn lemma_schema_unique(corpus: CorpusModel, a: SchemaModel, b: SchemaModel)
    requires
        is_schema_of(corpus, a),
        is_schema_of(corpus, b),
    ensures
        a == b,
{
    let before = |x: Seq<char>, y: Seq<char>| name_lt(x, y);
    let names_a = a.fields.map_values(|f: FieldView| f.name);
    let names_b = b.fields.map_values(|f: FieldView| f.name);
    assert forall|x: Seq<char>| !#[trigger] before(x, x) by {
        lemma_name_lt_irreflexive(x);
    }
    assert forall|x: Seq<char>, y: Seq<char>, z: Seq<char>| #[trigger]
        before(x, y) && #[trigger] before(y, z) implies before(x, z) by {
        lemma_name_lt_transitive(x, y, z);
    }
    assert forall|i: int| 0 <= i < names_a.len() implies names_b.contains(
        #[trigger] names_a[i],
    ) by {
        assert(corpus.fields.contains_key(a.fields[i].name));
        let j = choose|j: int|
            0 <= j < b.fields.len() && (#[trigger] b.fields[j]).name == a.fields[i].name;
        assert(names_b[j] == names_a[i]);
    }
    assert forall|i: int| 0 <= i < names_b.len() implies names_a.contains(
        #[trigger] names_b[i],
    ) by {
        assert(corpus.fields.contains_key(b.fields[i].name));
        let j = choose|j: int|
            0 <= j < a.fields.len() && (#[trigger] a.fields[j]).name == b.fields[i].name;
        assert(names_a[j] == names_b[i]);
    }
    assert forall|i: int, j: int| 0 <= i < j < names_a.len() implies before(
        names_a[i],
        names_a[j],
    ) by {
        assert(name_lt(a.fields[i].name, a.fields[j].name));
    }
    assert forall|i: int, j: int| 0 <= i < j < names_b.len() implies before(
        names_b[i],
        names_b[j],
    ) by {
        assert(name_lt(b.fields[i].name, b.fields[j].name));
    }
    lemma_same_elements_same_order(names_a, names_b, before);
    assert(a.fields.len() == b.fields.len());
    assert forall|i: int| 0 <= i < a.fields.len() implies a.fields[i] == b.fields[i] by {
        assert(names_a[i] == names_b[i]);
        let name = a.fields[i].name;
        assert(b.fields[i].name == name);
        lemma_types_unique(corpus.fields[name], a.fields[i].types, b.fields[i].types);
    }
    assert(a.fields =~= b.fields);
}

/// Putting one more type into a sequence adds its count to the sum.
proof fn lemma_sum_counts_insert(types: Seq<TypeModel>, position: int, added: TypeModel, n: int)
    requires
        0 <= position <= types.len(),
        0 <= n <= types.len(),
    ensures
        sum_counts(types.insert(position, added), n + 1) == if position <= n {
            sum_counts(types, n) + added.count
        } else {
            sum_counts(types, n + 1)
        },
    decreases n,
{
    let after = types.insert(position, added);
    if n == 0 {
        assert(sum_counts(after, 0) == 0);
        assert(sum_counts(types, 0) == 0);
        if position > 0 {
            assert(after[0] == types[0]);
        }
    } else {
        lemma_sum_counts_insert(types, position, added, n - 1);
        if position < n {
            assert(after[n] == types[n - 1]);
        } else if position == n {
            assert(after[n] == added);
        } else {
            assert(after[n] == types[n]);
        }
    }
}

/// The contents of a sequence of types.
pub open spec fn type_views(types: Seq<Type>) -> Seq<TypeModel> {
    types.map_values(|t: Type| t@)
}

/// Whether `types` are the types of a field as far as the tags below
/// `position` go, `tags[i]` being the tag of `types[i]`.
spec fn types_upto(
    field: FieldModel,
    types: Seq<TypeModel>,
    tags: Seq<TypeTag>,
    position: int,
) -> bool {
    &&& types_tagged(field, types, tags, position)
    &&& types_ordered(types)
    &&& types_cover(field, types, position)
    &&& sum_counts(types, types.len() as int) == total_count(field.trackers, position)
}

proof fn lemma_types_skip(
    field: FieldModel,
    types: Seq<TypeModel>,
    tags: Seq<TypeTag>,
    position: int,
)
    requires
        types_upto(field, types, tags, position),
        0 <= position < TAG_COUNT,
        field.trackers[position].count == 0,
    ensures
        types_upto(field, types, tags, position + 1),
{
    assert forall|tag: TypeTag|
        tag.index() < position + 1 && field.tracker(tag).count > 0 implies types.contains(
        #[trigger] type_of(field, tag),
    ) by {
        lemma_tag_at_index(tag);
    }
}

/// What holds of each type and its tag, as far as the tags below
/// `position` go.
spec fn types_tagged(
    field: FieldModel,
    types: Seq<TypeModel>,
    tags: Seq<TypeTag>,
    position: int,
) -> bool {
    &&& tags.len() == types.len()
    &&& forall|i: int|
        0 <= i < tags.len() ==> {
            &&& (#[trigger] types[i]) == type_of(field, tags[i])
            &&& tags[i].index() < position
            &&& field.tracker(tags[i]).count > 0
            &&& field.tracker(tags[i]).unique() <= field.tracker(tags[i]).count
        }
}

spec fn types_ordered(types: Seq<TypeModel>) -> bool {
    forall|i: int, j: int| 0 <= i < j < types.len() ==> type_before(types[i], types[j])
}

spec fn types_cover(field: FieldModel, types: Seq<TypeModel>, position: int) -> bool {
    forall|tag: TypeTag|
        tag.index() < position && field.tracker(tag).count > 0 ==> types.contains(
            #[trigger] type_of(field, tag),
        )
}

proof fn lemma_insert_tagged(
    field: FieldModel,
    types: Seq<TypeModel>,
    tags: Seq<TypeTag>,
    position: int,
    place: int,
)
    requires
        field.wf(),
        types_tagged(field, types, tags, position),
        0 <= position < TAG_COUNT,
        field.trackers[position].count > 0,
        0 <= place <= types.len(),
    ensures
        types_tagged(
            field,
            types.insert(place, type_of(field, TypeTag::at(position))),
            tags.insert(place, TypeTag::at(position)),
            position + 1,
        ),
{
    let tag = TypeTag::at(position);
    let after = types.insert(place, type_of(field, tag));
    let marks = tags.insert(place, tag);
    crate::tags::lemma_tag_index_at(position);
    assert(field.trackers[position].wf());
    crate::tracker_model::lemma_unique_bound(field.trackers[position]);
    assert forall|i: int| 0 <= i < marks.len() implies {
        &&& (#[trigger] after[i]) == type_of(field, marks[i])
        &&& marks[i].index() < position + 1
        &&& field.tracker(marks[i]).count > 0
        &&& field.tracker(marks[i]).unique() <= field.tracker(marks[i]).count
    } by {
        if i < place {
            assert(after[i] == types[i]);
            assert(marks[i] == tags[i]);
        } else if i > place {
            assert(after[i] == types[i - 1]);
            assert(marks[i] == tags[i - 1]);
        } else {
            assert(after[i] == type_of(field, tag));
            assert(marks[i] == tag);
        }
    }
}

proof fn lemma_insert_ordered(
    field: FieldModel,
    types: Seq<TypeModel>,
    tags: Seq<TypeTag>,
    position: int,
    place: int,
)
    requires
        types_tagged(field, types, tags, position),
        types_ordered(types),
        0 <= position < TAG_COUNT,
        0 <= place <= types.len(),
        forall|i: int|
            0 <= i < place ==> (#[trigger] types[i]).count >= field.trackers[position].count,
        place < types.len() ==> types[place].count < field.trackers[position].count,
    ensures
        types_ordered(types.insert(place, type_of(field, TypeTag::at(position)))),
{
    let tag = TypeTag::at(position);
    let added = type_of(field, tag);
    let after = types.insert(place, added);
    crate::tags::lemma_tag_index_at(position);
    assert forall|i: int, j: int| 0 <= i < j < after.len() implies type_before(
        after[i],
        after[j],
    ) by {
        if j == place {
            assert(after[i] == types[i]);
            assert(after[j] == added);
            assert(types[i] == type_of(field, tags[i]));
            lemma_tag_order(tags[i], tag);
            assert(types[i].count >= added.count);
        } else if i == place {
            assert(after[i] == added);
            assert(after[j] == types[j - 1]);
            if j - 1 > place {
                assert(type_before(types[place], types[j - 1]));
            }
            assert(types[j - 1].count < added.count);
        } else {
            let a = if i < place {
                i
            } else {
                i - 1
            };
            let b = if j < place {
                j
            } else {
                j - 1
            };
            assert(after[i] == types[a]);
            assert(after[j] == types[b]);
            assert(type_before(types[a], types[b]));
        }
    }
}

proof fn lemma_insert_cover(
    field: FieldModel,
    types: Seq<TypeModel>,
    position: int,
    place: int,
)
    requires
        types_cover(field, types, position),
        0 <= position < TAG_COUNT,
        0 <= place <= types.len(),
    ensures
        types_cover(
            field,
            types.insert(place, type_of(field, TypeTag::at(position))),
            position + 1,
        ),
{
    let tag = TypeTag::at(position);
    let added = type_of(field, tag);
    let after = types.insert(place, added);
    crate::tags::lemma_tag_index_at(position);
    assert forall|other: TypeTag|
        other.index() < position + 1 && field.tracker(other).count > 0 implies after.contains(
        #[trigger] type_of(field, other),
    ) by {
        if other.index() < position {
            assert(types.contains(type_of(field, other)));
            let k = choose|k: int| 0 <= k < types.len() && types[k] == type_of(field, other);
            let m = if k < place {
                k
            } else {
                k + 1
            };
            assert(after[m] == type_of(field, other));
        } else {
            lemma_tag_at_index(other);
            assert(other == tag);
            assert(after[place] == added);
        }
    }
}

proof fn lemma_types_insert(
    field: FieldModel,
    types: Seq<TypeModel>,
    tags: Seq<TypeTag>,
    position: int,
    place: int,
)
    requires
        field.wf(),
        types_upto(field, types, tags, position),
        0 <= position < TAG_COUNT,
        field.trackers[position].count > 0,
        0 <= place <= types.len(),
        forall|i: int|
            0 <= i < place ==> (#[trigger] types[i]).count >= field.trackers[position].count,
        place < types.len() ==> types[place].count < field.trackers[position].count,
    ensures
        types_upto(
            field,
            types.insert(place, type_of(field, TypeTag::at(position))),
            tags.insert(place, TypeTag::at(position)),
            position + 1,
        ),
{
    let added = type_of(field, TypeTag::at(position));
    crate::tags::lemma_tag_index_at(position);
    lemma_insert_tagged(field, types, tags, position, place);
    lemma_insert_ordered(field, types, tags, position, place);
    lemma_insert_cover(field, types, position, place);
    lemma_sum_counts_insert(types, place, added, types.len() as int);
}

proof fn lemma_types_done(field: FieldModel, types: Seq<TypeModel>, tags: Seq<TypeTag>)
    requires
        field.wf(),
        types_upto(field, types, tags, TAG_COUNT as int),
    ensures
        is_types_of(field, types),
        sum_counts(types, types.len() as int) == field.count,
        forall|i: int| 0 <= i < types.len() ==> (#[trigger] types[i]).unique <= types[i].count,
{
    assert forall|tag: TypeTag| field.tracker(tag).count > 0 implies types.contains(
        #[trigger] type_of(field, tag),
    ) by {
        lemma_tag_at_index(tag);
    }
    assert forall|i: int| 0 <= i < types.len() implies (#[trigger] types[i]).count > 0
        && exists|tag: TypeTag| types[i] == #[trigger] type_of(field, tag) by {
        assert(types[i] == type_of(field, tags[i]));
    }
}

/// Where a type of this count goes among types that stand in their order
/// and have names before its own: before the first that is less frequent.
spec fn place_for(types: Seq<TypeModel>, count: nat, from: int) -> int
    decreases types.len() - from,
{
    if from < 0 {
        0
    } else if from >= types.len() || types[from].count < count {
        from
    } else {
        place_for(types, count, from + 1)
    }
}

proof fn lemma_place_for(types: Seq<TypeModel>, count: nat, from: int)
    requires
        0 <= from <= types.len(),
    ensures
        from <= place_for(types, count, from) <= types.len(),
        forall|i: int|
            from <= i < place_for(types, count, from) ==> (#[trigger] types[i]).count >= count,
        place_for(types, count, from) < types.len() ==> types[place_for(types, count, from)].count
            < count,
    decreases types.len() - from,
{
    if from < types.len() && types[from].count >= count {
        lemma_place_for(types, count, from + 1);
    }
}

/// The types of a field as far as the tags below `position` go, with
/// their tags.
spec fn built(field: FieldModel, position: int) -> (Seq<TypeModel>, Seq<TypeTag>)
    decreases position,
{
    if position <= 0 {
        (Seq::empty(), Seq::empty())
    } else {
        let (types, tags) = built(field, position - 1);
        let count = field.trackers[position - 1].count;
        if count == 0 {
            (types, tags)
        } else {
            let place = place_for(types, count, 0);
            let tag = TypeTag::at(position - 1);
            (types.insert(place, type_of(field, tag)), tags.insert(place, tag))
        }
    }
}

proof fn lemma_built(field: FieldModel, position: int)
    requires
        field.wf(),
        0 <= position <= TAG_COUNT,
    ensures
        types_upto(field, built(field, position).0, built(field, position).1, position),
    decreases position,
{
    if position > 0 {
        lemma_built(field, position - 1);
        let (types, tags) = built(field, position - 1);
        let count = field.trackers[position - 1].count;
        if count == 0 {
            lemma_types_skip(field, types, tags, position - 1);
        } else {
            lemma_place_for(types, count, 0);
            lemma_types_insert(field, types, tags, position - 1, place_for(types, count, 0));
        }
    }
}

/// A well-formed field has types, and they agree with what was aggregated:
/// their counts add up to the count of the field, none has more different
/// values than occurrences, one of them has fewer exactly if the field has
/// duplicates, and one of them is estimated exactly if the field is.
pub proof fn lemma_types_of_field(field: FieldModel, types: Seq<TypeModel>)
    requires
        field.wf(),
        is_types_of(field, types),
    ensures
        sum_counts(types, types.len() as int) == field.count,
        forall|i: int| 0 <= i < types.len() ==> (#[trigger] types[i]).unique <= types[i].count,
        forall|i: int|
            0 <= i < types.len() ==> (#[trigger] types[i]).probability == (Ratio {
                numerator: types[i].count,
                denominator: field.count,
            }),
        field.has_duplicates() <==> exists|i: int|
            0 <= i < types.len() && (#[trigger] types[i]).count > types[i].unique,
        field.approximate() <==> exists|i: int|
            0 <= i < types.len() && (#[trigger] types[i]).approximate,
{
    let all = built(field, TAG_COUNT as int);
    lemma_built(field, TAG_COUNT as int);
    lemma_types_done(field, all.0, all.1);
    lemma_types_unique(field, types, all.0);
    assert forall|i: int| 0 <= i < types.len() implies (#[trigger] types[i]).probability == (
    Ratio { numerator: types[i].count, denominator: field.count }) by {
        let tag = choose|tag: TypeTag| types[i] == #[trigger] type_of(field, tag);
    }
    if field.has_duplicates() {
        let i = choose|i: int|
            0 <= i < TAG_COUNT && (#[trigger] field.trackers[i]).has_duplicates();
        let tag = TypeTag::at(i);
        crate::tags::lemma_tag_index_at(i);
        assert(field.tracker(tag).count > 0);
        assert(types.contains(type_of(field, tag)));
        let k = choose|k: int| 0 <= k < types.len() && types[k] == type_of(field, tag);
        assert(types[k].count > types[k].unique);
    }
    if field.approximate() {
        let i = choose|i: int| 0 <= i < TAG_COUNT && (#[trigger] field.trackers[i]).approximate();
        let tag = TypeTag::at(i);
        crate::tags::lemma_tag_index_at(i);
        assert(field.trackers[i].wf());
        assert(field.tracker(tag).count > 0);
        assert(types.contains(type_of(field, tag)));
        let k = choose|k: int| 0 <= k < types.len() && types[k] == type_of(field, tag);
        assert(types[k].approximate);
    }
    if exists|k: int| 0 <= k < types.len() && (#[trigger] types[k]).approximate {
        let k = choose|k: int| 0 <= k < types.len() && (#[trigger] types[k]).approximate;
        let tag = choose|tag: TypeTag| types[k] == #[trigger] type_of(field, tag);
        lemma_tag_at_index(tag);
        assert(field.trackers[tag.index() as int].approximate());
    }
    if exists|k: int| 0 <= k < types.len() && (#[trigger] types[k]).count > types[k].unique {
        let k = choose|k: int|
            0 <= k < types.len() && (#[trigger] types[k]).count > types[k].unique;
        let tag = choose|tag: TypeTag| types[k] == #[trigger] type_of(field, tag);
        lemma_tag_at_index(tag);
        assert(field.trackers[tag.index() as int].has_duplicates());
    }
}

/// What a schema says of a well-formed field is well formed.
pub proof fn lemma_field_of_wf(field: FieldModel, name: Seq<char>, total: nat, view: FieldView)
    requires
        field.wf(),
        is_field_of(field, name, total, view),
    ensures
        view.wf(),
{
    lemma_types_of_field(field, view.types);
}

/// The schema of a well-formed aggregate is well formed.
pub proof fn lemma_schema_of_wf(corpus: CorpusModel, schema: SchemaModel)
    requires
        corpus.wf(),
        is_schema_of(corpus, schema),
    ensures
        schema.wf(),
{
    assert forall|i: int| 0 <= i < schema.fields.len() implies {
        &&& (#[trigger] schema.fields[i]).wf()
        &&& 1 <= schema.fields[i].count <= schema.count
        &&& schema.fields[i].probability == Ratio {
            numerator: schema.fields[i].count,
            denominator: schema.count,
        }
    } by {
        let name = schema.fields[i].name;
        assert(corpus.fields.contains_key(name));
        lemma_field_of_wf(corpus.fields[name], name, corpus.count, schema.fields[i]);
    }
}

fn finalize_types(field: &FieldAggregator) -> (types: Vec<Type>)
    requires
        field.wf(),
    ensures
        is_types_of(field@, type_views(types@)),
{
    let mut types: Vec<Type> = Vec::new();
    let ghost mut tags: Seq<TypeTag> = Seq::empty();
    let mut position: usize = 0;
    proof {
        field.lemma_wf();
    }
    while position < TAG_COUNT
        invariant
            position <= TAG_COUNT,
            field.wf(),
            field@.wf(),
            types_upto(field@, type_views(types@), tags, position as int),
        decreases TAG_COUNT - position,
    {
        let tag = TypeTag::from_ordinal(position);
        let tracker = field.tracker(tag);
        let count = tracker.count();
        let ghost views = type_views(types@);
        if count > 0 {
            let mut place: usize = 0;
            while place < types.len() && types[place].count >= count
                invariant
                    place <= types.len(),
                    views == type_views(types@),
                    forall|i: int| 0 <= i < place ==> (#[trigger] views[i]).count >= count,
                decreases types.len() - place,
            {
                place += 1;
            }
            let made = Type {
                name: tag.name().to_owned(),
                count,
                probability: Probability::new(count, field.count()),
                unique: tracker.unique_count(),
                approximate: tracker.is_approximate(),
            };
            proof {
                assert(made@ == type_of(field@, tag));
                lemma_types_insert(field@, views, tags, position as int, place as int);
            }
            types.insert(place, made);
            proof {
                assert(type_views(types@) =~= views.insert(place as int, type_of(field@, tag)));
                tags = tags.insert(place as int, tag);
            }
        } else {
            proof {
                lemma_types_skip(field@, views, tags, position as int);
            }
        }
        position += 1;
    }
    proof {
        lemma_types_done(field@, type_views(types@), tags);
    }
    types
}

/// What a schema says of one field, in a corpus of `total` documents.
pub fn finalize_field(name: &String, field: &FieldAggregator, total: usize) -> (made: Field)
    requires
        field.wf(),
        1 <= field@.count <= total,
    ensures
        is_field_of(field@, name@, total as nat, made@),
        made@.wf(),
{
    let types = finalize_types(field);
    let duplicates = field.has_duplicates();
    let made = Field::new(
        name.clone(),
        field.count(),
        Probability::new(field.count(), total as u64),
        duplicates,
        types,
    );
    proof {
        field.lemma_wf();
        let views = made@.types;
        assert(views == type_views(types@));
        lemma_types_of_field(field@, views);
        assert(made.approximate <==> exists|k: int|
            0 <= k < views.len() && (#[trigger] views[k]).approximate) by {
            if exists|k: int| 0 <= k < types@.len() && (#[trigger] types@[k]).approximate {
                let k = choose|k: int| 0 <= k < types@.len() && (#[trigger] types@[k]).approximate;
                assert(views[k].approximate);
            }
            if exists|k: int| 0 <= k < views.len() && (#[trigger] views[k]).approximate {
                let k = choose|k: int| 0 <= k < views.len() && (#[trigger] views[k]).approximate;
                assert(types@[k].approximate);
            }
        }
        lemma_field_of_wf(field@, name@, total as nat, made@);
    }
    made
}

/// The schema of the corpus that was aggregated. The aggregator is left as
/// it is; to finalize it again gives the same schema.
pub fn finalize(aggregator: &CorpusAggregator) -> (schema: Schema)
    requires
        aggregator.wf(),
    ensures
        is_schema_of(aggregator@, schema@),
        schema@.wf(),
{
    let total = aggregator.document_count();
    let size = aggregator.field_count();
    let ghost entries = aggregator.entries();
    let ghost corpus = aggregator@;
    let mut fields: Vec<Field> = Vec::new();
    let mut i: usize = 0;
    proof {
        aggregator.lemma_wf();
        lemma_sorted_distinct(entries);
    }
    while i < size
        invariant
            i <= size,
            size == entries.len(),
            total == corpus.count,
            aggregator.wf(),
            corpus == aggregator@,
            corpus.wf(),
            entries == aggregator.entries(),
            corpus.fields == crate::corpus_model::entries_map(entries),
            crate::corpus_model::names_distinct(entries),
            fields@.len() == i,
            forall|j: int|
                0 <= j < i ==> (#[trigger] fields@[j])@.wf() && is_field_of(
                    entries[j].1,
                    entries[j].0,
                    total as nat,
                    fields@[j]@,
                ),
        decreases size - i,
    {
        proof {
            lemma_position(entries, i as int);
            assert(corpus.fields.contains_key(entries[i as int].0));
        }
        let made = finalize_field(aggregator.field_name(i), aggregator.field_at(i), total);
        fields.push(made);
        i += 1;
    }
    let schema = Schema::new(total, fields);
    proof {
        let views = schema@.fields;
        assert forall|j: int| 0 <= j < views.len() implies corpus.fields.contains_key(
            (#[trigger] views[j]).name,
        ) && is_field_of(corpus.fields[views[j].name], views[j].name, corpus.count, views[j])
            && views[j].wf() && 1 <= views[j].count <= corpus.count by {
            lemma_position(entries, j);
            assert(fields@[j]@.wf());
            assert(corpus.fields.contains_key(entries[j].0));
        }
        assert forall|a: int, b: int| 0 <= a < b < views.len() implies name_lt(
            views[a].name,
            views[b].name,
        ) by {
            assert(fields@[a]@.wf());
            assert(fields@[b]@.wf());
            assert(name_lt(entries[a].0, entries[b].0));
        }
        assert forall|name: Seq<char>| #[trigger] corpus.fields.contains_key(name) implies exists|
            j: int,
        |
            0 <= j < views.len() && (#[trigger] views[j]).name == name by {
            assert(has_name(entries, name));
            let j = position_of(entries, name);
            assert(fields@[j]@.wf());
            assert(views[j].name == name);
        }
    }
    schema
}

} // verus!
