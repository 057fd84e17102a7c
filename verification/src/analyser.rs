//! Analysing documents that are given as JSON text.

use vstd::prelude::*;
use vstd::pervasive::unreached;
use crate::analysis::Analysis;
use crate::analysis::aggregate;
use crate::analysis::analyse;
use crate::analysis::documents_among;
use crate::analysis::malformed;
use crate::corpus_model::is_document;
use crate::finalize::is_schema_of;
use crate::json::JsonModel;
use crate::json::Layer;
use crate::json::Reading;
use crate::json::item_contents;
use crate::json::json_content;
use crate::json::json_read;
use crate::json::outer_layer;
use crate::json::parse_json;
use crate::json::syntax_position;
use crate::json::value_from_json;
use crate::json::value_of;
use crate::json::well_keyed;
use crate::json::lemma_value_of_object;
use crate::names::lemma_name_lt_irreflexive;
use crate::scan::check_numbers;
use crate::scan::numbers_fit;
use crate::schema::Schema;
use crate::settings::Settings;
use crate::value::RawValue;
use crate::value::ValueModel;
use crate::value::contents;

verus! {

/// Why a text was not read as JSON.
#[derive(Clone, Copy, PartialEq, Eq, Structural, Debug)]
pub enum ParseError {
    /// A number in the text has more digits than the reader can count; the
    /// text was not handed to it.
    LongNumber,
    /// The text is no JSON value; the line and the column are where the
    /// reader gave up.
    Syntax { line: usize, column: usize },
    /// The reader failed otherwise.
    Other,
}

/// Why a text is not read: a number in it is too long for the reader, or
/// the reader reports a fault, with or without a place.
pub open spec fn refusal(text: Seq<char>) -> ParseError {
    if !numbers_fit(text) {
        ParseError::LongNumber
    } else {
        match json_read(text) {
            Reading::Fault(Some((line, column))) => ParseError::Syntax { line, column },
            _ => ParseError::Other,
        }
    }
}

/// What a JSON value holds for analysis: its items where it is an array,
/// else itself.
pub open spec fn items_of(json: JsonModel) -> Seq<JsonModel> {
    match json {
        JsonModel::Array(items) => items,
        _ => Seq::empty().push(json),
    }
}

/// What these JSON values convert to, in their order.
pub open spec fn converted(items: Seq<JsonModel>) -> Seq<ValueModel> {
    items.map_values(|item: JsonModel| value_of(item))
}

/// How many of these JSON values are objects.
pub open spec fn objects_among(items: Seq<JsonModel>) -> nat
    decreases items.len(),
{
    if items.len() == 0 {
        0
    } else if items.last() is Object {
        objects_among(items.drop_last()) + 1
    } else {
        objects_among(items.drop_last())
    }
}

/// A JSON value whose objects have their members in the order of their
/// names converts to a document exactly if it is an object.
pub proof fn lemma_object_is_document(json: JsonModel)
    requires
        well_keyed(json),
    ensures
        is_document(value_of(json)) <==> json is Object,
{
    if let JsonModel::Object(members) = json {
        lemma_value_of_object(members);
        let made = value_of(json)->Object_0;
        assert forall|i: int, j: int|
            0 <= i < made.len() && 0 <= j < made.len() && i != j implies made[i].0
            != made[j].0 by {
            lemma_name_lt_irreflexive(members[i].0);
            if i < j {
                assert(crate::names::name_lt(members[i].0, members[j].0));
            } else {
                assert(crate::names::name_lt(members[j].0, members[i].0));
            }
        }
    }
}

/// Among JSON values whose objects have their members in the order of
/// their names, the documents are the objects.
pub proof fn lemma_objects_are_documents(items: Seq<JsonModel>)
    requires
        forall|i: int| 0 <= i < items.len() ==> well_keyed(#[trigger] items[i]),
    ensures
        documents_among(converted(items)) == objects_among(items),
    decreases items.len(),
{
    if items.len() > 0 {
        lemma_objects_are_documents(items.drop_last());
        lemma_object_is_document(items.last());
        assert(converted(items).drop_last() =~= converted(items.drop_last()));
        assert(converted(items).last() == value_of(items.last()));
    }
}

/// Analyses the documents of a JSON text to find their schema.
pub struct Analyser {
    /// The JSON value that was read: an array of documents, or one document.
    pub documents: serde_json::Value,
}

impl Analyser {
    /// An analyser of the documents of a JSON text.
    pub fn new(documents: &str) -> (analyser: Analyser)
        requires
            numbers_fit(documents@),
            json_read(documents@) is Value,
        ensures
            json_read(documents@) == Reading::Value(json_content(analyser.documents)),
    {
        match parse_json(documents) {
            Ok(value) => Analyser { documents: value },
            Err(_) => unreached(),
        }
    }

    /// An analyser of the documents of a text, if the text is JSON whose
    /// numbers fit the reader.
    pub fn try_new(documents: &str) -> (analyser: Result<Analyser, ParseError>)
        ensures
            analyser is Ok <==> numbers_fit(documents@) && json_read(documents@) is Value,
            analyser matches Ok(made) ==> json_read(documents@) == Reading::Value(
                json_content(made.documents),
            ),
            analyser matches Err(error) ==> error == refusal(documents@),
    {
        if !check_numbers(documents) {
            return Err(ParseError::LongNumber);
        }
        match parse_json(documents) {
            Ok(_) => Ok(Analyser::new(documents)),
            Err(error) => match syntax_position(&error) {
                Some((line, column)) => Err(ParseError::Syntax { line, column }),
                None => Err(ParseError::Other),
            },
        }
    }

    /// The values that are analysed: the items of the JSON value where it
    /// is an array, else the value itself, each converted. Every object
    /// among them is found to have its members in the order of their names.
    pub fn values(&self) -> (values: Vec<RawValue>)
        ensures
            contents(values@) == converted(items_of(json_content(self.documents))),
            forall|i: int|
                0 <= i < items_of(json_content(self.documents)).len() ==> well_keyed(
                    #[trigger] items_of(json_content(self.documents))[i],
                ),
    {
        let mut values: Vec<RawValue> = Vec::new();
        match outer_layer(&self.documents) {
            Layer::Items(items) => {
                let ghost models = item_contents(items@);
                let mut i: usize = 0;
                while i < items.len()
                    invariant
                        i <= items.len(),
                        models == item_contents(items@),
                        values@.len() == i,
                        forall|j: int|
                            0 <= j < i ==> values@[j]@ == value_of(#[trigger] models[j])
                                && well_keyed(models[j]),
                    decreases items.len() - i,
                {
                    values.push(value_from_json(&items[i]));
                    proof {
                        assert(models[i as int] == json_content(items@[i as int]));
                    }
                    i += 1;
                }
                proof {
                    assert(items_of(json_content(self.documents)) == models);
                    assert(contents(values@) =~= converted(models));
                }
            },
            _ => {
                values.push(value_from_json(&self.documents));
                proof {
                    let items = items_of(json_content(self.documents));
                    assert(items =~= Seq::empty().push(json_content(self.documents)));
                    assert(contents(values@) =~= converted(items));
                }
            },
        }
        values
    }

    /// Analyses the documents under the given settings: every item that is
    /// an object is a document and is counted; the others are passed over,
    /// and their positions noted.
    pub fn analyse(&self, settings: Settings) -> (analysis: Analysis)
        ensures
            is_schema_of(
                aggregate(settings, converted(items_of(json_content(self.documents)))),
                analysis.schema@,
            ),
            analysis.schema@.wf(),
            analysis.schema@.count == objects_among(items_of(json_content(self.documents))),
            analysis.malformed@ == malformed(converted(items_of(json_content(self.documents)))),
    {
        let values = self.values();
        proof {
            lemma_objects_are_documents(items_of(json_content(self.documents)));
        }
        analyse(settings, &values)
    }

    /// Analyses the documents under the standard settings, and gives their
    /// schema: every item that is an object is a document and is counted.
    pub fn run(&self) -> (schema: Schema)
        ensures
            is_schema_of(
                aggregate(
                    Settings::standard_spec(),
                    converted(items_of(json_content(self.documents))),
                ),
                schema@,
            ),
            schema@.wf(),
            schema@.count == objects_among(items_of(json_content(self.documents))),
    {
        self.analyse(Settings::standard()).schema
    }
}

} // verus!
