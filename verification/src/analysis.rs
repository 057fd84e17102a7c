//! Analysing a sequence of documents in one go.

use vstd::prelude::*;
use crate::corpus::CorpusAggregator;
use crate::corpus_model::CorpusModel;
use crate::corpus_model::is_document;
use crate::corpus_model::lemma_observe_wf;
use crate::finalize::finalize;
use crate::finalize::is_schema_of;
use crate::schema::Schema;
use crate::settings::Settings;
use crate::value::RawValue;
use crate::value::contents;
use crate::value::ValueModel;

verus! {

/// The aggregate of a sequence of values: of those that are documents,
/// observed one after the other.
pub open spec fn aggregate(settings: Settings, values: Seq<ValueModel>) -> CorpusModel
    decreases values.len(),
{
    if values.len() == 0 {
        CorpusModel::empty(settings)
    } else if is_document(values.last()) {
        aggregate(settings, values.drop_last()).observe(values.last())
    } else {
        aggregate(settings, values.drop_last())
    }
}

/// The positions of the values that are no documents, in rising order.
pub open spec fn malformed(values: Seq<ValueModel>) -> Seq<usize>
    decreases values.len(),
{
    if values.len() == 0 {
        Seq::empty()
    } else if is_document(values.last()) {
        malformed(values.drop_last())
    } else {
        malformed(values.drop_last()).push((values.len() - 1) as usize)
    }
}

/// How many of these values are documents.
pub open spec fn documents_among(values: Seq<ValueModel>) -> nat
    decreases values.len(),
{
    if values.len() == 0 {
        0
    } else if is_document(values.last()) {
        documents_among(values.drop_last()) + 1
    } else {
        documents_among(values.drop_last())
    }
}

/// The aggregate of a sequence of values counts the documents among them.
pub proof fn lemma_aggregate_count(settings: Settings, values: Seq<ValueModel>)
    ensures
        aggregate(settings, values).count == documents_among(values),
    decreases values.len(),
{
    if values.len() > 0 {
        lemma_aggregate_count(settings, values.drop_last());
    }
}

/// The aggregate of any values is well formed, and counts no more
/// documents than there are values.
pub proof fn lemma_aggregate_wf(settings: Settings, values: Seq<ValueModel>)
    ensures
        aggregate(settings, values).wf(),
        aggregate(settings, values).settings == settings,
        aggregate(settings, values).count <= values.len(),
    decreases values.len(),
{
    if values.len() > 0 {
        lemma_aggregate_wf(settings, values.drop_last());
        if is_document(values.last()) {
            lemma_observe_wf(aggregate(settings, values.drop_last()), values.last());
        }
    }
}

/// What an analysis found: the schema of the documents, and the positions
/// of the values that were passed over because they are no documents.
pub struct Analysis {
    pub schema: Schema,
    pub malformed: Vec<usize>,
}

/// Analyses a sequence of values: observes those that are documents, notes
/// the positions of the others, and finalizes.
pub fn analyse(settings: Settings, values: &Vec<RawValue>) -> (analysis: Analysis)
    ensures
        is_schema_of(aggregate(settings, contents(values@)), analysis.schema@),
        analysis.schema@.wf(),
        analysis.schema@.count == documents_among(contents(values@)),
        analysis.malformed@ == malformed(contents(values@)),
{
    let mut aggregator = CorpusAggregator::new(settings);
    let mut passed_over: Vec<usize> = Vec::new();
    let ghost views = contents(values@);
    let mut i: usize = 0;
    while i < values.len()
        invariant
            i <= values.len(),
            views == contents(values@),
            aggregator.wf(),
            aggregator@ == aggregate(settings, views.take(i as int)),
            passed_over@ == malformed(views.take(i as int)),
        decreases values.len() - i,
    {
        proof {
            lemma_aggregate_wf(settings, views.take(i as int));
            assert(views.take(i + 1).drop_last() =~= views.take(i as int));
            assert(views.take(i + 1).last() == values@[i as int]@);
        }
        match aggregator.observe_document(&values[i]) {
            Ok(()) => {},
            Err(_) => {
                passed_over.push(i);
            },
        }
        i += 1;
    }
    proof {
        assert(views.take(values@.len() as int) =~= views);
        lemma_aggregate_count(settings, views);
    }
    Analysis { schema: finalize(&aggregator), malformed: passed_over }
}

/// Analyses a sequence of values that are all meant to be documents:
/// gives their schema, or the position of the first value that is no
/// document.
pub fn analyse_strictly(settings: Settings, values: &Vec<RawValue>) -> (found: Result<
    Schema,
    usize,
>)
    ensures
        match found {
            Ok(schema) => {
                &&& forall|i: int|
                    0 <= i < values@.len() ==> is_document(#[trigger] contents(values@)[i])
                &&& is_schema_of(aggregate(settings, contents(values@)), schema@)
                &&& schema@.wf()
            },
            Err(position) => {
                &&& position < values@.len()
                &&& !is_document(contents(values@)[position as int])
                &&& forall|i: int|
                    0 <= i < position ==> is_document(#[trigger] contents(values@)[i])
            },
        },
{
    let mut aggregator = CorpusAggregator::new(settings);
    let ghost views = contents(values@);
    let mut i: usize = 0;
    while i < values.len()
        invariant
            i <= values.len(),
            views == contents(values@),
            aggregator.wf(),
            aggregator@ == aggregate(settings, views.take(i as int)),
            forall|j: int| 0 <= j < i ==> is_document(#[trigger] views[j]),
        decreases values.len() - i,
    {
        proof {
            lemma_aggregate_wf(settings, views.take(i as int));
            assert(views.take(i + 1).drop_last() =~= views.take(i as int));
            assert(views.take(i + 1).last() == values@[i as int]@);
        }
        match aggregator.observe_document(&values[i]) {
            Ok(()) => {},
            Err(_) => {
                return Err(i);
            },
        }
        i += 1;
    }
    proof {
        assert(views.take(values@.len() as int) =~= views);
    }
    Ok(finalize(&aggregator))
}

} // verus!
