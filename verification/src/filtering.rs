//! Metadata filters, evaluated by `iqdb-filter`.
//!
//! The library stores each node's metadata as it was given and hands a
//! search's filter and each result's metadata to `iqdb-filter`. What a filter
//! accepts is decided there; the library decides which results are asked
//! about and what is done with the verdicts.

use vstd::prelude::*;

use iqdb_filter::FilterEvaluator;
use iqdb_types::{Filter, IqdbError, Metadata};

verus! {

/// A metadata predicate (`iqdb_types::Filter`).
#[verifier::external_type_specification]
#[verifier::external_body]
pub struct ExFilter(Filter);

/// A record's metadata (`iqdb_types::Metadata`).
#[verifier::external_type_specification]
#[verifier::external_body]
pub struct ExMetadata(Metadata);

/// A validated filter (`iqdb_filter::FilterEvaluator`).
#[verifier::external_type_specification]
#[verifier::external_body]
pub struct ExFilterEvaluator(FilterEvaluator);

/// The shared error type of the iQDB crates (`iqdb_types::IqdbError`).
#[verifier::external_type_specification]
#[verifier::external_body]
pub struct ExIqdbError(IqdbError);

/// What `iqdb_filter::FilterEvaluator::new` makes of a filter: the
/// validated evaluator, or the error for a filter nested past the depth cap
/// or with an `In` list past the width cap. The validation depends on the
/// filter alone.
pub uninterp spec fn spec_new_evaluator(filter: Filter) -> Result<FilterEvaluator, IqdbError>;

/// Whether `iqdb_filter::FilterEvaluator::evaluate` accepts a record's
/// metadata (`None`: the record has none). The verdict depends on the
/// evaluator's filter and the metadata alone.
pub uninterp spec fn spec_accepts(evaluator: FilterEvaluator, metadata: Option<Metadata>) -> bool;

/// Validate `filter` with `iqdb_filter::FilterEvaluator::new` (on a copy of
/// it). The outcome is named, not spelled out: which filters the evaluator
/// refuses (nested deeper than its depth cap, or with an `In` list past its
/// width cap; its only error is then `InvalidFilter`) is decided inside the
/// filter, which the library cannot see.
#[verifier::external_body]
pub(crate) fn new_evaluator(filter: &Filter) -> (r: Result<FilterEvaluator, IqdbError>)
    ensures
        r == spec_new_evaluator(*filter),
{
    FilterEvaluator::new(filter.clone())
}

/// Whether `metadata` satisfies the evaluator's filter
/// (`iqdb_filter::FilterEvaluator::evaluate`; `None` stands for a record
/// without metadata). The verdict is named, not spelled out: the filter and
/// the metadata are opaque to the library.
#[verifier::external_body]
pub(crate) fn accepts(evaluator: &FilterEvaluator, metadata: &Option<Metadata>) -> (r: bool)
    ensures
        r == spec_accepts(*evaluator, *metadata),
{
    evaluator.evaluate(metadata.as_ref())
}

} // verus!
