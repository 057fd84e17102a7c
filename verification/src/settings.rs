//! What is decided once, before the first document is observed.

use vstd::prelude::*;
use crate::classifier::Classification;
use crate::tracker_model::Strategy;

verus! {

/// The rules of classification and the tracking strategy of an aggregation.
/// Partial aggregates can be merged only if they were built under the same
/// settings.
#[derive(Clone, Copy, PartialEq, Eq, Structural, Debug)]
pub struct Settings {
    pub rules: Classification,
    pub strategy: Strategy,
}

impl Settings {
    /// The given rules of classification and tracking strategy.
    pub fn new(rules: Classification, strategy: Strategy) -> (settings: Settings)
        ensures
            settings == (Settings { rules, strategy }),
    {
        Settings { rules, strategy }
    }

    /// Plain classification and exact tracking.
    pub open spec fn standard_spec() -> Settings {
        Settings { rules: Classification::Plain, strategy: Strategy::Exact }
    }

    /// Plain classification and exact tracking.
    pub fn standard() -> (settings: Settings)
        ensures
            settings == Settings::standard_spec(),
    {
        Settings { rules: Classification::Plain, strategy: Strategy::Exact }
    }

    /// Whether two settings are the same.
    pub fn agrees(&self, other: &Settings) -> (same: bool)
        ensures
            same == (*self == *other),
    {
        self.rules == other.rules && self.strategy.agrees(&other.strategy)
    }
}

} // verus!
