//! The contract that every aggregator implements.
use crate::error::ProcessingError;
use crate::models::TaxiTrip;
use vstd::prelude::*;

verus! {

/// An aggregator turns batches of trips into accumulators, merges any number
/// of accumulators into its own consolidated state, and at last derives the
/// report `T` from that state.
pub trait BatchAggregator<T>: Sized {
    /// The intermediate state gathered from one batch.
    type Accumulator;

    /// The invariant of the consolidated state.
    spec fn well_formed(&self) -> bool;

    /// The invariant of an accumulator.
    spec fn accumulator_well_formed(accumulator: &Self::Accumulator) -> bool;

    /// Folds one batch into an accumulator. The aggregator's own state
    /// takes no part in it and is left as it was.
    fn process_batch(&mut self, batch: &[TaxiTrip]) -> (r: Result<
        Self::Accumulator,
        ProcessingError,
    >)
        ensures
            *final(self) == *old(self),
            r is Ok ==> Self::accumulator_well_formed(&r->Ok_0),
    ;

    /// Merges accumulators into the consolidated state.
    fn merge_accumulators(&mut self, accumulators: Vec<Self::Accumulator>) -> (r: Result<
        (),
        ProcessingError,
    >)
        requires
            old(self).well_formed(),
            forall|i: int|
                0 <= i < accumulators@.len() ==> Self::accumulator_well_formed(
                    #[trigger] &accumulators@[i],
                ),
        ensures
            final(self).well_formed(),
    ;

    /// Derives the report from the consolidated state.
    fn finalize(self) -> (r: Result<T, ProcessingError>)
        requires
            self.well_formed(),
    ;
}

} // verus!
