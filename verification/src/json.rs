//! Reading JSON with `serde_json`.
//!
//! What `serde_json` does is believed, not proved. This module holds the
//! calls into it, each with what is claimed of it, over a model of JSON
//! values; and the conversion of what it hands back into [`RawValue`]s,
//! which is verified against that model.

use std::collections::BTreeMap;
use vstd::prelude::*;
use crate::names::name_lt;
use crate::scan::numbers_fit;
use crate::value::RawValue;
use crate::value::ValueModel;
use crate::value::lemma_array_model;
use crate::value::lemma_object_model;

verus! {

/// `serde_json::Value`, a JSON value. What it holds is known only as its
/// [`json_content`].
#[verifier::external_type_specification]
#[verifier::external_body]
pub struct ExJsonValue(serde_json::Value);

/// `serde_json::Error`, what `serde_json` reports when it fails. What it
/// holds is known only as its [`json_fault`].
#[verifier::external_type_specification]
#[verifier::external_body]
pub struct ExJsonError(serde_json::Error);

/// The mathematical content of a JSON value, variant by variant as
/// `serde_json::Value` has them: a number is signed, unsigned or floating
/// point, the last given by the bits of its binary64 form; an object has
/// its members in the order of its map.
pub enum JsonModel {
    Null,
    Bool(bool),
    I64(i64),
    U64(u64),
    F64(u64),
    String(Seq<char>),
    Array(Seq<JsonModel>),
    Object(Seq<(Seq<char>, JsonModel)>),
}

/// What the reader makes of a text.
pub enum Reading {
    /// The content of the value that it reads.
    Value(JsonModel),
    /// The fault that it reports: of a syntax error the line and the
    /// column.
    Fault(Option<(usize, usize)>),
}

/// What `serde_json::from_str` makes of a text: the content of the value
/// that it reads, or the fault that it reports.
pub uninterp spec fn json_read(text: Seq<char>) -> Reading;

/// What a `serde_json::Error` holds of a syntax error: its line and its
/// column; nothing of another error.
pub uninterp spec fn json_fault(error: serde_json::Error) -> Option<(usize, usize)>;

/// What a `serde_json::Value` holds.
pub uninterp spec fn json_content(json: serde_json::Value) -> JsonModel;

/// What the map of a JSON object holds: its members in the order in which
/// it is walked, each with its name and the content of its value.
pub uninterp spec fn json_members(map: BTreeMap<String, serde_json::Value>) -> Seq<
    (Seq<char>, JsonModel),
>;

/// The contents of these JSON values, in their order.
pub open spec fn item_contents(items: Seq<serde_json::Value>) -> Seq<JsonModel> {
    items.map_values(|item: serde_json::Value| json_content(item))
}

/// These members, each with its name and the content of its value.
pub open spec fn member_contents(members: Seq<(&String, &serde_json::Value)>) -> Seq<
    (Seq<char>, JsonModel),
> {
    members.map_values(|member: (&String, &serde_json::Value)| (member.0@, json_content(*member.1)))
}

/// Whether the members stand in the strict order of their names.
pub open spec fn names_rising(members: Seq<(Seq<char>, JsonModel)>) -> bool {
    forall|i: int, j: int| 0 <= i < j < members.len() ==> name_lt(members[i].0, members[j].0)
}

/// The outermost layer of a JSON value: its kind, with its content where
/// that is a plain value, and with what it holds where it is a container.
pub enum Layer<'a> {
    Null,
    Boolean(bool),
    Signed(i64),
    Unsigned(u64),
    Double(u64),
    Text(&'a String),
    Items(&'a Vec<serde_json::Value>),
    Members(&'a BTreeMap<String, serde_json::Value>),
}

impl<'a> Layer<'a> {
    /// The content of the JSON value of which this is the outermost layer.
    pub open spec fn content(self) -> JsonModel {
        match self {
            Layer::Null => JsonModel::Null,
            Layer::Boolean(b) => JsonModel::Bool(b),
            Layer::Signed(i) => JsonModel::I64(i),
            Layer::Unsigned(u) => JsonModel::U64(u),
            Layer::Double(bits) => JsonModel::F64(bits),
            Layer::Text(s) => JsonModel::String(s@),
            Layer::Items(items) => JsonModel::Array(item_contents(items@)),
            Layer::Members(map) => JsonModel::Object(json_members(*map)),
        }
    }
}

/// Calls `serde_json::from_str` for a `serde_json::Value`. Claimed: what
/// comes back, value or error, depends on the text alone; it is named
/// [`json_read`]. Texts whose numbers do not fit the reader's counters are
/// kept from it.
#[verifier::external_body]
pub(crate) fn parse_json(text: &str) -> (parsed: Result<serde_json::Value, serde_json::Error>)
    requires
        numbers_fit(text@),
    ensures
        parsed matches Ok(json) ==> json_read(text@) == Reading::Value(json_content(json)),
        parsed matches Err(error) ==> json_read(text@) == Reading::Fault(json_fault(error)),
{
    serde_json::from_str(text)
}

/// Tells the variants of `serde_json::Value` apart and hands out what the
/// variant holds: a number as it is, a floating-point number by its bits, a
/// string, an array and the map of an object by reference. Claimed: the
/// content of the value is the content of what is handed out.
#[verifier::external_body]
pub(crate) fn outer_layer<'a>(json: &'a serde_json::Value) -> (layer: Layer<'a>)
    ensures
        layer.content() == json_content(*json),
{
    match json {
        serde_json::Value::Null => Layer::Null,
        serde_json::Value::Bool(b) => Layer::Boolean(*b),
        serde_json::Value::I64(i) => Layer::Signed(*i),
        serde_json::Value::U64(u) => Layer::Unsigned(*u),
        serde_json::Value::F64(x) => Layer::Double(x.to_bits()),
        serde_json::Value::String(s) => Layer::Text(s),
        serde_json::Value::Array(items) => Layer::Items(items),
        serde_json::Value::Object(members) => Layer::Members(members),
    }
}

/// Walks the map of a JSON object with `iter`, and hands out its members
/// one by one, each by reference. Claimed: they are the members that the
/// map holds, in their order, which is the strict order of their names.
#[verifier::external_body]
pub(crate) fn members_of<'a>(map: &'a BTreeMap<String, serde_json::Value>) -> (members: Vec<
    (&'a String, &'a serde_json::Value),
>)
    ensures
        member_contents(members@) == json_members(*map),
        names_rising(member_contents(members@)),
{
    map.iter().collect()
}

/// Tells the variants of `serde_json::Error` apart and hands out the line
/// and the column of a syntax error. Claimed: that is what the error holds.
#[verifier::external_body]
pub(crate) fn syntax_position(error: &serde_json::Error) -> (position: Option<(usize, usize)>)
    ensures
        position == json_fault(*error),
{
    match error {
        serde_json::Error::Syntax(_, line, column) => Some((*line, *column)),
        serde_json::Error::Io(_) => None,
    }
}

/// The value of a whole number that is not negative: an `Int64` where it
/// fits one, a `UInt64` where it does not.
pub open spec fn unsigned_model(number: u64) -> ValueModel {
    if number <= i64::MAX {
        ValueModel::Int64(number as i64)
    } else {
        ValueModel::UInt64(number)
    }
}

/// The value that a JSON value converts to. A whole number becomes an
/// `Int64` where it fits one; everything else keeps its kind, and
/// containers keep what they hold, converted, in its order.
pub open spec fn value_of(json: JsonModel) -> ValueModel
    decreases json,
{
    match json {
        JsonModel::Null => ValueModel::Null,
        JsonModel::Bool(b) => ValueModel::Boolean(b),
        JsonModel::I64(i) => ValueModel::Int64(i),
        JsonModel::U64(u) => unsigned_model(u),
        JsonModel::F64(bits) => ValueModel::Double(bits),
        JsonModel::String(s) => ValueModel::String(s),
        JsonModel::Array(items) => ValueModel::Array(
            Seq::new(
                items.len(),
                |i: int|
                    if 0 <= i < items.len() {
                        value_of(items[i])
                    } else {
                        ValueModel::Null
                    },
            ),
        ),
        JsonModel::Object(members) => ValueModel::Object(
            Seq::new(
                members.len(),
                |i: int|
                    if 0 <= i < members.len() {
                        (members[i].0, value_of(members[i].1))
                    } else {
                        (Seq::empty(), ValueModel::Null)
                    },
            ),
        ),
    }
}

/// Whether every object in a JSON value has its members in the strict
/// order of their names.
pub open spec fn well_keyed(json: JsonModel) -> bool
    decreases json,
{
    match json {
        JsonModel::Array(items) => forall|i: int|
            0 <= i < items.len() ==> well_keyed(#[trigger] items[i]),
        JsonModel::Object(members) => names_rising(members) && forall|i: int|
            0 <= i < members.len() ==> well_keyed((#[trigger] members[i]).1),
        _ => true,
    }
}

/// An array converts to the array of what its items convert to.
pub proof fn lemma_value_of_array(items: Seq<JsonModel>)
    ensures
        value_of(JsonModel::Array(items)) is Array,
        value_of(JsonModel::Array(items))->Array_0.len() == items.len(),
        forall|i: int|
            0 <= i < items.len() ==> (#[trigger] value_of(JsonModel::Array(items))->Array_0[i])
                == value_of(items[i]),
{
}

/// An object converts to the object of its members, each with its name and
/// what its value converts to.
pub proof fn lemma_value_of_object(members: Seq<(Seq<char>, JsonModel)>)
    ensures
        value_of(JsonModel::Object(members)) is Object,
        value_of(JsonModel::Object(members))->Object_0.len() == members.len(),
        forall|i: int|
            0 <= i < members.len() ==> (#[trigger] value_of(
                JsonModel::Object(members),
            )->Object_0[i]) == (members[i].0, value_of(members[i].1)),
{
}

/// The value of a whole number that is not negative: an `Int64` where it
/// fits one, a `UInt64` where it does not.
pub fn unsigned_value(number: u64) -> (value: RawValue)
    ensures
        value@ == unsigned_model(number),
        number <= i64::MAX ==> value == RawValue::Int64(number as i64),
        number > i64::MAX ==> value == RawValue::UInt64(number),
{
    if number <= 0x7FFF_FFFF_FFFF_FFFF {
        RawValue::Int64(number as i64)
    } else {
        RawValue::UInt64(number)
    }
}

/// Converts a JSON value, and finds every object in it to have its members
/// in the strict order of their names.
pub fn value_from_json(json: &serde_json::Value) -> (value: RawValue)
    ensures
        value@ == value_of(json_content(*json)),
        well_keyed(json_content(*json)),
    decreases json_content(*json),
{
    match outer_layer(json) {
        Layer::Null => RawValue::Null,
        Layer::Boolean(b) => RawValue::Boolean(b),
        Layer::Signed(i) => RawValue::Int64(i),
        Layer::Unsigned(u) => unsigned_value(u),
        Layer::Double(bits) => RawValue::Double(bits),
        Layer::Text(s) => RawValue::String(s.clone()),
        Layer::Items(items) => {
            let ghost models = item_contents(items@);
            let mut values: Vec<RawValue> = Vec::new();
            let mut i: usize = 0;
            while i < items.len()
                invariant
                    i <= items.len(),
                    models == item_contents(items@),
                    json_content(*json) == JsonModel::Array(models),
                    values@.len() == i,
                    forall|j: int|
                        0 <= j < i ==> values@[j]@ == value_of(#[trigger] models[j]) && well_keyed(
                            models[j],
                        ),
                decreases items.len() - i,
            {
                proof {
                    assert(models[i as int] == json_content(items@[i as int]));
                    assert(decreases_to!(json_content(*json) => json_content(*json)->Array_0));
                }
                let value = value_from_json(&items[i]);
                values.push(value);
                i += 1;
            }
            proof {
                lemma_array_model(values);
                lemma_value_of_array(models);
                assert(RawValue::Array(values)@->Array_0 =~= value_of(
                    JsonModel::Array(models),
                )->Array_0);
            }
            RawValue::Array(values)
        },
        Layer::Members(map) => {
            let members = members_of(map);
            let ghost models = member_contents(members@);
            let mut values: Vec<(String, RawValue)> = Vec::new();
            let mut i: usize = 0;
            while i < members.len()
                invariant
                    i <= members.len(),
                    models == member_contents(members@),
                    json_content(*json) == JsonModel::Object(models),
                    values@.len() == i,
                    forall|j: int|
                        0 <= j < i ==> values@[j].1@ == value_of((#[trigger] models[j]).1)
                            && values@[j].0@ == models[j].0 && well_keyed(models[j].1),
                decreases members.len() - i,
            {
                proof {
                    assert(models[i as int].1 == json_content(*members@[i as int].1));
                    assert(decreases_to!(json_content(*json) => json_content(*json)->Object_0));
                }
                let value = value_from_json(members[i].1);
                values.push((members[i].0.clone(), value));
                i += 1;
            }
            proof {
                lemma_object_model(values);
                lemma_value_of_object(models);
                assert(RawValue::Object(values)@->Object_0 =~= value_of(
                    JsonModel::Object(models),
                )->Object_0);
            }
            RawValue::Object(values)
        },
    }
}

} // verus!
