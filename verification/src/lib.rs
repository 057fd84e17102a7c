//! Statistical schema inference over semi-structured documents.
//!
//! Documents are observed one by one by a [`CorpusAggregator`], partial
//! aggregates are merged, and [`finalize`] turns an aggregate into the
//! [`Schema`] of its corpus: for every field how often it occurs, which
//! kinds of values it takes, and how often each.

pub mod names;
pub mod tags;
pub mod value;
pub mod classifier;
pub mod hashing;
pub mod value_set;
pub mod errors;
pub mod sketch_model;
pub mod sketch;
pub mod tracker_model;
pub mod snapshot;
pub mod tracker;
pub mod settings;
pub mod field;
pub mod corpus_model;
pub mod corpus;
pub mod schema;
pub mod finalize;
pub mod analysis;
pub mod scan;
pub mod json;
pub mod analyser;
pub mod laws;

pub use crate::analyser::Analyser;
pub use crate::analyser::ParseError;
pub use crate::analysis::analyse;
pub use crate::analysis::Analysis;
pub use crate::classifier::classify;
pub use crate::classifier::Classification;
pub use crate::corpus::CorpusAggregator;
pub use crate::errors::AggregationError;
pub use crate::field::FieldAggregator;
pub use crate::finalize::finalize;
pub use crate::schema::Field;
pub use crate::schema::Probability;
pub use crate::schema::Schema;
pub use crate::schema::Type;
pub use crate::settings::Settings;
pub use crate::sketch::Sketch;
pub use crate::snapshot::CorpusSnapshot;
pub use crate::snapshot::FieldSnapshot;
pub use crate::snapshot::MemorySnapshot;
pub use crate::snapshot::TrackerSnapshot;
pub use crate::tags::TypeTag;
pub use crate::tracker_model::Strategy;
pub use crate::tracker::ValueTracker;
pub use crate::value::RawValue;
