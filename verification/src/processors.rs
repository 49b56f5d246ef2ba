//! The batch source and the orchestration of a run.
//!
//! Records are validated and gathered into batches of a fixed size; each
//! full batch is folded into one accumulator and then dropped, so that no
//! more than one batch of records is held at a time. At the end all
//! accumulators are merged and the reports are derived.
use crate::error::{
    empty_directory_error, is_count_overflow, is_empty_directory_error, ProcessingError,
};
use crate::models::TaxiTrip;
use crate::sparse::lemma_sparse_concat;
use crate::tally::{
    concat_all, lemma_counted_concat, lemma_key_sums_bounded, lemma_summary_concat, single_trips,
};
use crate::transformations::batch_aggregator::BatchAggregator;
use crate::transformations::hourly_analyzer::{hourly_contribution, hourly_rule, HOURS_PER_DAY};
use crate::transformations::multi_analyzer::{
    accumulator_views, lemma_merge_totals_in_steps, lemma_rearranged, merge_totals,
    multi_report, multi_summary, MultiAccumulator, MultiAnalysisResults, MultiAnalyzer,
    MultiTotals,
};
use crate::transformations::payment_analyzer::{payment_contribution, payment_rule};
use crate::transformations::peak_zone_analyzer::{peak_contribution, peak_rule, ZONE_SLOTS};
use crate::utils::{is_valid_trip, reversed, validate_trip};
use vstd::prelude::*;

verus! {

/// The records of a feed that pass validation, in their order.
pub open spec fn valid_only(records: Seq<TaxiTrip>) -> Seq<TaxiTrip>
    decreases records.len(),
{
    if records.len() == 0 {
        Seq::empty()
    } else if is_valid_trip(records.last()) {
        valid_only(records.drop_last()).push(records.last())
    } else {
        valid_only(records.drop_last())
    }
}

/// Where the batch source stands in a feed: the batches that it has handed
/// on, and the records that wait in its buffer.
pub struct Chunking {
    pub done: Seq<Seq<TaxiTrip>>,
    pub open: Seq<TaxiTrip>,
}

/// Where the batch source stands after one more record: the record enters
/// the buffer if it is valid, and the buffer is handed on as a batch once it
/// holds `chunk_size` records or more.
pub open spec fn chunk_step(before: Chunking, record: TaxiTrip, chunk_size: nat) -> Chunking {
    let open = if is_valid_trip(record) {
        before.open.push(record)
    } else {
        before.open
    };
    if open.len() >= chunk_size {
        Chunking { done: before.done.push(open), open: Seq::empty() }
    } else {
        Chunking { done: before.done, open }
    }
}

/// Where the batch source stands after a feed.
pub open spec fn chunked(records: Seq<TaxiTrip>, chunk_size: nat) -> Chunking
    decreases records.len(),
{
    if records.len() == 0 {
        Chunking { done: Seq::empty(), open: Seq::empty() }
    } else {
        chunk_step(chunked(records.drop_last(), chunk_size), records.last(), chunk_size)
    }
}

/// The batches that a feed is cut into: those handed on while it ran, and
/// at its end what is left in the buffer, if anything.
pub open spec fn batches_of(records: Seq<TaxiTrip>, chunk_size: nat) -> Seq<Seq<TaxiTrip>> {
    let at_end = chunked(records, chunk_size);
    if at_end.open.len() > 0 {
        at_end.done.push(at_end.open)
    } else {
        at_end.done
    }
}

/// The tables of the batches of a list.
pub open spec fn summaries(batches: Seq<Seq<TaxiTrip>>) -> Seq<MultiTotals> {
    Seq::new(batches.len(), |i: int| multi_summary(batches[i]))
}

/// The records of the files of a list, each as a sequence.
pub open spec fn file_views(files: Seq<Vec<TaxiTrip>>) -> Seq<Seq<TaxiTrip>> {
    Seq::new(files.len(), |i: int| files[i]@)
}

/// The tables of the batches of every file of a list, file after file.
pub open spec fn file_summaries(files: Seq<Seq<TaxiTrip>>, chunk_size: nat) -> Seq<MultiTotals>
    decreases files.len(),
{
    if files.len() == 0 {
        Seq::empty()
    } else {
        file_summaries(files.drop_last(), chunk_size) + summaries(
            batches_of(files.last(), chunk_size),
        )
    }
}

/// The valid records of two feeds in a row are those of each, in a row.
pub proof fn lemma_valid_only_concat(a: Seq<TaxiTrip>, b: Seq<TaxiTrip>)
    ensures
        valid_only(a + b) == valid_only(a) + valid_only(b),
        valid_only(b).len() <= b.len(),
    decreases b.len(),
{
    if b.len() == 0 {
        assert(a + b =~= a);
        assert(valid_only(a) + valid_only(b) =~= valid_only(a));
    } else {
        assert((a + b).drop_last() =~= a + b.drop_last());
        assert((a + b).last() == b.last());
        lemma_valid_only_concat(a, b.drop_last());
        assert(valid_only(a + b) =~= valid_only(a) + valid_only(b));
    }
}

/// Cutting a feed into batches loses no valid record, adds none and keeps
/// their order, whatever the chunk size.
pub proof fn lemma_chunking_keeps_records(records: Seq<TaxiTrip>, chunk_size: nat)
    ensures
        concat_all(chunked(records, chunk_size).done) + chunked(records, chunk_size).open
            == valid_only(records),
        concat_all(batches_of(records, chunk_size)) == valid_only(records),
    decreases records.len(),
{
    let at_end = chunked(records, chunk_size);
    if records.len() == 0 {
        assert(concat_all(at_end.done) + at_end.open =~= valid_only(records));
    } else {
        let before = chunked(records.drop_last(), chunk_size);
        lemma_chunking_keeps_records(records.drop_last(), chunk_size);
        let open = if is_valid_trip(records.last()) {
            before.open.push(records.last())
        } else {
            before.open
        };
        assert(concat_all(before.done) + open =~= valid_only(records));
        if open.len() >= chunk_size {
            assert(before.done.push(open).drop_last() =~= before.done);
            assert(concat_all(at_end.done) + at_end.open =~= valid_only(records));
        }
    }
    if at_end.open.len() > 0 {
        assert(at_end.done.push(at_end.open).drop_last() =~= at_end.done);
    } else {
        assert(concat_all(at_end.done) + at_end.open =~= concat_all(at_end.done));
    }
}

/// With a chunk size of one or more, every batch that is handed on while
/// the feed runs holds exactly `chunk_size` records, and fewer than that
/// wait in the buffer: no more than one batch of records is held at a time.
pub proof fn lemma_batches_are_chunks(records: Seq<TaxiTrip>, chunk_size: nat)
    requires
        chunk_size >= 1,
    ensures
        chunked(records, chunk_size).open.len() < chunk_size,
        forall|i: int|
            0 <= i < chunked(records, chunk_size).done.len() ==> (#[trigger] chunked(
                records,
                chunk_size,
            ).done[i]).len() == chunk_size,
    decreases records.len(),
{
    if records.len() > 0 {
        lemma_batches_are_chunks(records.drop_last(), chunk_size);
        let before = chunked(records.drop_last(), chunk_size);
        let at_end = chunked(records, chunk_size);
        assert forall|i: int| 0 <= i < at_end.done.len() implies (#[trigger] at_end.done[i]).len()
            == chunk_size by {
            if i < before.done.len() {
                assert(at_end.done[i] == before.done[i]);
            }
        }
    }
}

/// Every trip adds exactly one bounded trip to each table that counts it.
pub proof fn lemma_rules_single(trips: Seq<TaxiTrip>)
    ensures
        single_trips(trips.map_values(peak_rule())),
        single_trips(trips.map_values(hourly_rule())),
        single_trips(trips.map_values(payment_rule())),
        forall|i: int|
            0 <= i < trips.len() ==> crate::sparse::KEY_FLOOR <= (#[trigger] trips.map_values(
                payment_rule(),
            )[i]).key < crate::sparse::KEY_CEILING,
{
    assert forall|i: int| 0 <= i < trips.len() implies (#[trigger] trips.map_values(
        peak_rule(),
    )[i]).sums.trips == 1 && trips.map_values(peak_rule())[i].sums.bounded() by {
        assert(trips.map_values(peak_rule())[i] == peak_contribution(trips[i]));
    }
    assert forall|i: int| 0 <= i < trips.len() implies (#[trigger] trips.map_values(
        hourly_rule(),
    )[i]).sums.trips == 1 && trips.map_values(hourly_rule())[i].sums.bounded() by {
        assert(trips.map_values(hourly_rule())[i] == hourly_contribution(trips[i]));
    }
    assert forall|i: int| 0 <= i < trips.len() implies (#[trigger] trips.map_values(
        payment_rule(),
    )[i]).sums.trips == 1 && trips.map_values(payment_rule())[i].sums.bounded()
        && crate::sparse::KEY_FLOOR <= trips.map_values(payment_rule())[i].key
        < crate::sparse::KEY_CEILING by {
        assert(trips.map_values(payment_rule())[i] == payment_contribution(trips[i]));
    }
}

/// The tables of two sequences of trips in a row are the tables of each,
/// added.
pub proof fn lemma_multi_concat(a: Seq<TaxiTrip>, b: Seq<TaxiTrip>)
    ensures
        multi_summary(a + b) == multi_summary(a).plus(multi_summary(b)),
{
    assert((a + b).map_values(peak_rule()) =~= a.map_values(peak_rule()) + b.map_values(
        peak_rule(),
    ));
    assert((a + b).map_values(hourly_rule()) =~= a.map_values(hourly_rule()) + b.map_values(
        hourly_rule(),
    ));
    assert((a + b).map_values(payment_rule()) =~= a.map_values(payment_rule()) + b.map_values(
        payment_rule(),
    ));
    lemma_summary_concat(
        a.map_values(peak_rule()),
        b.map_values(peak_rule()),
        ZONE_SLOTS as nat,
    );
    lemma_summary_concat(
        a.map_values(hourly_rule()),
        b.map_values(hourly_rule()),
        HOURS_PER_DAY as nat,
    );
    lemma_rules_single(a);
    lemma_rules_single(b);
    lemma_sparse_concat(a.map_values(payment_rule()), b.map_values(payment_rule()));
    lemma_counted_concat(a.map_values(payment_rule()), b.map_values(payment_rule()));
}

/// The order of the trips does not matter: two sequences that hold the same
/// trips, each as often as the other, have the same tables.
pub proof fn lemma_rearranged_trips(one: Seq<TaxiTrip>, other: Seq<TaxiTrip>)
    requires
        one.to_multiset() == other.to_multiset(),
    ensures
        multi_summary(one) == multi_summary(other),
{
    let total = |trips: Seq<TaxiTrip>| multi_summary(trips);
    assert forall|a: Seq<TaxiTrip>, b: Seq<TaxiTrip>| #[trigger]
        total(a + b) == total(a).plus(total(b)) by {
        lemma_multi_concat(a, b);
    }
    lemma_rearranged(total, one, other);
}

/// The order of the records of a feed does not matter: two feeds that hold
/// the same records, each as often as the other, have the same tables of
/// their valid records.
pub proof fn lemma_rearranged_records(one: Seq<TaxiTrip>, other: Seq<TaxiTrip>)
    requires
        one.to_multiset() == other.to_multiset(),
    ensures
        multi_summary(valid_only(one)) == multi_summary(valid_only(other)),
{
    let total = |records: Seq<TaxiTrip>| multi_summary(valid_only(records));
    assert forall|a: Seq<TaxiTrip>, b: Seq<TaxiTrip>| #[trigger]
        total(a + b) == total(a).plus(total(b)) by {
        lemma_valid_only_concat(a, b);
        lemma_multi_concat(valid_only(a), valid_only(b));
    }
    lemma_rearranged(total, one, other);
}

/// No trips give the tables of no trips.
pub proof fn lemma_multi_empty()
    ensures
        multi_summary(Seq::empty()) == MultiTotals::zero(),
{
    let none = Seq::<TaxiTrip>::empty();
    assert(multi_summary(none).peak =~= MultiTotals::zero().peak);
    assert(multi_summary(none).hourly =~= MultiTotals::zero().hourly);
    assert(multi_summary(none).payment =~= MultiTotals::zero().payment);
}

/// Merging the tables of a list of batches into the tables of some trips
/// gives the tables of those trips followed by all the batches, however the
/// batches are cut.
pub proof fn lemma_merge_batches(seen: Seq<TaxiTrip>, batches: Seq<Seq<TaxiTrip>>)
    ensures
        merge_totals(multi_summary(seen), summaries(batches)) == multi_summary(
            seen + concat_all(batches),
        ),
    decreases batches.len(),
{
    if batches.len() == 0 {
        assert(seen + concat_all(batches) =~= seen);
    } else {
        let shorter = batches.drop_last();
        lemma_merge_batches(seen, shorter);
        assert(summaries(batches).drop_last() =~= summaries(shorter));
        assert(summaries(batches).last() == multi_summary(batches.last()));
        lemma_multi_concat(seen + concat_all(shorter), batches.last());
        assert(seen + concat_all(batches) =~= (seen + concat_all(shorter)) + batches.last());
    }
}

/// Two ways of cutting the same trips into batches, of any sizes and in any
/// number, merge into the same tables and so give the same reports.
pub proof fn lemma_batching_does_not_matter(one: Seq<Seq<TaxiTrip>>, other: Seq<Seq<TaxiTrip>>)
    requires
        concat_all(one) == concat_all(other),
    ensures
        merge_totals(MultiTotals::zero(), summaries(one)) == merge_totals(
            MultiTotals::zero(),
            summaries(other),
        ),
        multi_report(merge_totals(MultiTotals::zero(), summaries(one))) == multi_report(
            merge_totals(MultiTotals::zero(), summaries(other)),
        ),
{
    lemma_multi_empty();
    lemma_merge_batches(Seq::empty(), one);
    lemma_merge_batches(Seq::empty(), other);
    assert(Seq::<TaxiTrip>::empty() + concat_all(one) =~= concat_all(one));
    assert(Seq::<TaxiTrip>::empty() + concat_all(other) =~= concat_all(other));
}

/// The valid records of all files in a row are the valid records of each
/// file, in a row.
pub proof fn lemma_files_merge(files: Seq<Seq<TaxiTrip>>, chunk_size: nat)
    ensures
        merge_totals(MultiTotals::zero(), file_summaries(files, chunk_size)) == multi_summary(
            valid_only(concat_all(files)),
        ),
    decreases files.len(),
{
    if files.len() == 0 {
        lemma_multi_empty();
    } else {
        let shorter = files.drop_last();
        lemma_files_merge(shorter, chunk_size);
        let batches = batches_of(files.last(), chunk_size);
        lemma_merge_totals_in_steps(
            MultiTotals::zero(),
            file_summaries(shorter, chunk_size),
            summaries(batches),
        );
        lemma_merge_batches(valid_only(concat_all(shorter)), batches);
        lemma_chunking_keeps_records(files.last(), chunk_size);
        lemma_valid_only_concat(concat_all(shorter), files.last());
    }
}

/// The reports do not depend on how the records are spread over files, nor
/// on the order of the files or of the records: the batches of any number
/// of files merge into the same tables, and so give the same reports, as
/// the batches of one file that holds the same records, each as often, in
/// any order and whatever the chunk sizes.
pub proof fn lemma_files_do_not_matter(
    files: Seq<Seq<TaxiTrip>>,
    chunk_size: nat,
    single: Seq<TaxiTrip>,
    single_chunk_size: nat,
)
    requires
        concat_all(files).to_multiset() == single.to_multiset(),
    ensures
        merge_totals(MultiTotals::zero(), file_summaries(files, chunk_size)) == merge_totals(
            MultiTotals::zero(),
            summaries(batches_of(single, single_chunk_size)),
        ),
        merge_totals(MultiTotals::zero(), file_summaries(files, chunk_size)) == multi_summary(
            valid_only(single),
        ),
        multi_report(merge_totals(MultiTotals::zero(), file_summaries(files, chunk_size)))
            == multi_report(
            merge_totals(MultiTotals::zero(), summaries(batches_of(single, single_chunk_size))),
        ),
{
    lemma_files_merge(files, chunk_size);
    lemma_multi_empty();
    lemma_merge_batches(Seq::empty(), batches_of(single, single_chunk_size));
    lemma_chunking_keeps_records(single, single_chunk_size);
    assert(Seq::<TaxiTrip>::empty() + valid_only(single) =~= valid_only(single));
    lemma_rearranged_records(concat_all(files), single);
}

/// The tables of trips that fit in memory hold counts that fit a machine
/// word.
pub proof fn lemma_summary_fits(trips: Seq<TaxiTrip>)
    requires
        trips.len() <= usize::MAX,
    ensures
        multi_summary(trips).fits(),
{
    lemma_rules_single(trips);
    let totals = multi_summary(trips);
    assert forall|key: int| 0 <= key < totals.peak.len() implies (#[trigger] totals.peak[key]).fits() by {
        lemma_key_sums_bounded(trips.map_values(peak_rule()), key);
    }
    assert forall|key: int| 0 <= key < totals.hourly.len() implies (
    #[trigger] totals.hourly[key]).fits() by {
        lemma_key_sums_bounded(trips.map_values(hourly_rule()), key);
    }
    assert forall|key: int| totals.payment.contains_key(key) implies (
    #[trigger] totals.payment[key]).fits() by {
        lemma_key_sums_bounded(trips.map_values(payment_rule()), key);
    }
    lemma_counted_concat(Seq::empty(), trips.map_values(payment_rule()));
}

/// Streams the records of one feed into batches and folds each batch as
/// soon as it is full.
pub struct BatchSource {
    chunk_size: usize,
    batch: Vec<TaxiTrip>,
    accumulators: Vec<MultiAccumulator>,
    fed: Ghost<Seq<TaxiTrip>>,
}

/// Folds the records of a buffer into one more accumulator and empties the
/// buffer.
fn fold_batch(batch: &mut Vec<TaxiTrip>, accumulators: &mut Vec<MultiAccumulator>)
    ensures
        final(batch)@.len() == 0,
        final(accumulators)@.len() == old(accumulators)@.len() + 1,
        forall|i: int|
            0 <= i < old(accumulators)@.len() ==> final(accumulators)@[i] == old(accumulators)@[i],
        final(accumulators)@[old(accumulators)@.len() as int]@ == multi_summary(old(batch)@),
        final(accumulators)@[old(accumulators)@.len() as int].well_formed(),
{
    let mut local = MultiAnalyzer::default();
    match local.process_batch(batch.as_slice()) {
        Ok(accumulator) => {
            accumulators.push(accumulator);
        },
        Err(_) => {},
    }
    batch.clear();
}

impl BatchSource {
    /// The records offered so far, accepted or not.
    pub closed spec fn fed(&self) -> Seq<TaxiTrip> {
        self.fed@
    }

    /// The size at which the buffer is handed on as a batch.
    pub closed spec fn chunk_size(&self) -> nat {
        self.chunk_size as nat
    }

    /// The records that wait in the buffer.
    pub closed spec fn buffered(&self) -> Seq<TaxiTrip> {
        self.batch@
    }

    /// The number of accumulators gathered so far.
    pub closed spec fn folded(&self) -> nat {
        self.accumulators@.len()
    }

    /// The buffer holds what the records offered have left in it, and one
    /// accumulator was gathered for each batch handed on.
    pub proof fn lemma_buffer(&self)
        requires
            self.well_formed(),
        ensures
            self.buffered() == chunked(self.fed(), self.chunk_size()).open,
            self.folded() == chunked(self.fed(), self.chunk_size()).done.len(),
    {
        assert(accumulator_views(self.accumulators@).len() == self.accumulators@.len());
    }

    /// The buffer and the accumulators are those of the records offered.
    pub closed spec fn well_formed(&self) -> bool {
        &&& self.batch@ == chunked(self.fed@, self.chunk_size as nat).open
        &&& accumulator_views(self.accumulators@) == summaries(
            chunked(self.fed@, self.chunk_size as nat).done,
        )
        &&& forall|i: int|
            0 <= i < self.accumulators@.len() ==> (#[trigger] self.accumulators@[i]).well_formed()
    }

    /// A source that has seen no record yet.
    pub fn new(chunk_size: usize) -> (source: BatchSource)
        ensures
            source.well_formed(),
            source.fed() == Seq::<TaxiTrip>::empty(),
            source.chunk_size() == chunk_size,
    {
        let source = BatchSource {
            chunk_size,
            batch: Vec::new(),
            accumulators: Vec::new(),
            fed: Ghost(Seq::empty()),
        };
        assert(accumulator_views(source.accumulators@) =~= summaries(Seq::empty()));
        source
    }

    /// Takes the next record of the feed. A record that fails validation is
    /// dropped. When the buffer has reached the chunk size, it is folded
    /// into an accumulator and emptied.
    pub fn accept(&mut self, trip: TaxiTrip)
        requires
            old(self).well_formed(),
        ensures
            final(self).well_formed(),
            final(self).fed() == old(self).fed().push(trip),
            final(self).chunk_size() == old(self).chunk_size(),
    {
        let ghost before = chunked(self.fed@, self.chunk_size as nat);
        let ghost after = chunk_step(before, trip, self.chunk_size as nat);
        proof {
            assert(self.fed@.push(trip).drop_last() =~= self.fed@);
            assert(accumulator_views(self.accumulators@) == summaries(before.done));
        }
        self.fed = Ghost(self.fed@.push(trip));
        match validate_trip(&trip) {
            Ok(()) => {
                self.batch.push(trip);
            },
            Err(_) => {},
        }
        if self.batch.len() >= self.chunk_size {
            let ghost gathered = self.accumulators@;
            let ghost open = self.batch@;
            fold_batch(&mut self.batch, &mut self.accumulators);
            proof {
                assert(self.batch@ =~= after.open);
                assert(after.done == before.done.push(open));
                let views = accumulator_views(self.accumulators@);
                let tables = summaries(after.done);
                assert(accumulator_views(gathered) == summaries(before.done));
                assert(accumulator_views(gathered).len() == gathered.len());
                assert(summaries(before.done).len() == before.done.len());
                assert(views.len() == tables.len());
                assert forall|i: int| 0 <= i < views.len() implies views[i] == tables[i] by {
                    if i < gathered.len() {
                        assert(self.accumulators@[i] == gathered[i]);
                        assert(accumulator_views(gathered)[i] == summaries(before.done)[i]);
                        assert(after.done[i] == before.done[i]);
                    } else {
                        assert(after.done[i] == open);
                    }
                }
                assert(views =~= tables);
            }
        }
    }

    /// Ends the feed: what is left in the buffer is folded as a last batch.
    /// Returns one accumulator for each batch, in the order of the feed.
    pub fn finish(self) -> (accumulators: Vec<MultiAccumulator>)
        requires
            self.well_formed(),
        ensures
            accumulator_views(accumulators@) == summaries(
                batches_of(self.fed(), self.chunk_size()),
            ),
            forall|i: int|
                0 <= i < accumulators@.len() ==> (#[trigger] accumulators@[i]).well_formed(),
    {
        let ghost at_end = chunked(self.fed@, self.chunk_size as nat);
        let ghost gathered = self.accumulators@;
        let mut batch = self.batch;
        let mut accumulators = self.accumulators;
        if batch.len() > 0 {
            fold_batch(&mut batch, &mut accumulators);
            proof {
                let views = accumulator_views(accumulators@);
                let tables = summaries(at_end.done.push(at_end.open));
                assert(accumulator_views(gathered) == summaries(at_end.done));
                assert(accumulator_views(gathered).len() == gathered.len());
                assert(summaries(at_end.done).len() == at_end.done.len());
                assert(views.len() == tables.len());
                assert forall|i: int| 0 <= i < views.len() implies views[i] == tables[i] by {
                    if i < gathered.len() {
                        assert(accumulators@[i] == gathered[i]);
                        assert(accumulator_views(gathered)[i] == summaries(at_end.done)[i]);
                        assert(at_end.done.push(at_end.open)[i] == at_end.done[i]);
                    } else {
                        assert(at_end.done.push(at_end.open)[i] == at_end.open);
                    }
                }
                assert(views =~= tables);
            }
        }
        accumulators
    }
}

/// Runs the batch source over feeds and derives the reports.
pub struct TaxiProcessor {
    /// Number of records at which a batch is folded.
    pub chunk_size: usize,
}

impl TaxiProcessor {
    /// A processor with batches of fifty thousand records.
    pub fn new() -> (processor: TaxiProcessor)
        ensures
            processor.chunk_size == 50_000,
    {
        TaxiProcessor { chunk_size: 50_000 }
    }

    /// A processor with batches of the given size.
    pub fn with_chunk_size(chunk_size: usize) -> (processor: TaxiProcessor)
        ensures
            processor.chunk_size == chunk_size,
    {
        TaxiProcessor { chunk_size }
    }

    /// Cuts the valid records of a feed into batches and folds each batch
    /// into an accumulator.
    pub fn process_in_batches(&self, records: Vec<TaxiTrip>) -> (accumulators: Vec<
        MultiAccumulator,
    >)
        ensures
            accumulator_views(accumulators@) == summaries(
                batches_of(records@, self.chunk_size as nat),
            ),
            forall|i: int|
                0 <= i < accumulators@.len() ==> (#[trigger] accumulators@[i]).well_formed(),
    {
        let ghost all = records@;
        let mut source = BatchSource::new(self.chunk_size);
        let mut stack = reversed(records);
        while stack.len() > 0
            invariant
                stack@.len() <= all.len(),
                forall|i: int| 0 <= i < stack@.len() ==> stack@[i] == all[all.len() - 1 - i],
                source.well_formed(),
                source.chunk_size() == self.chunk_size,
                source.fed() == all.take(all.len() - stack@.len()),
            decreases stack@.len(),
        {
            let ghost taken = all.len() - stack@.len();
            match stack.pop() {
                Some(trip) => {
                    proof {
                        assert(trip == all[taken]);
                        assert(all.take(taken).push(trip) =~= all.take(taken + 1));
                    }
                    source.accept(trip);
                },
                None => {},
            }
        }
        proof {
            assert(all.take(all.len() as int) =~= all);
        }
        source.finish()
    }

    /// Merges the accumulators of a run into fresh tables and derives the
    /// reports. Fails where a count of trips would leave the range of a
    /// machine word.
    pub fn consolidate(accumulators: Vec<MultiAccumulator>) -> (r: Result<
        MultiAnalysisResults,
        ProcessingError,
    >)
        requires
            forall|i: int|
                0 <= i < accumulators@.len() ==> (#[trigger] accumulators@[i]).well_formed(),
        ensures
            r is Ok <==> merge_totals(
                MultiTotals::zero(),
                accumulator_views(accumulators@),
            ).fits(),
            r is Ok ==> r->Ok_0@ == multi_report(
                merge_totals(MultiTotals::zero(), accumulator_views(accumulators@)),
            ),
            r is Err ==> is_count_overflow(r->Err_0),
    {
        let mut final_aggregator = MultiAnalyzer::default();
        match final_aggregator.merge_accumulators(accumulators) {
            Ok(()) => final_aggregator.finalize(),
            Err(error) => Err(error),
        }
    }

    /// The reports of the records of one feed: those of its valid records,
    /// whatever the chunk size.
    pub fn run_all_transformations(&self, records: Vec<TaxiTrip>) -> (r: Result<
        MultiAnalysisResults,
        ProcessingError,
    >)
        ensures
            r is Ok,
            r->Ok_0@ == multi_report(multi_summary(valid_only(records@))),
    {
        let count: usize = records.len();
        proof {
            let batches = batches_of(records@, self.chunk_size as nat);
            lemma_chunking_keeps_records(records@, self.chunk_size as nat);
            lemma_multi_empty();
            lemma_merge_batches(Seq::empty(), batches);
            assert(Seq::<TaxiTrip>::empty() + valid_only(records@) =~= valid_only(records@));
            // No count can leave its range: there are no more valid records
            // than records, and those fit in memory.
            lemma_valid_only_concat(Seq::empty(), records@);
            assert(valid_only(records@).len() <= count);
            lemma_summary_fits(valid_only(records@));
        }
        let accumulators = self.process_in_batches(records);
        Self::consolidate(accumulators)
    }

    /// The reports of the records of all files of a directory: those of
    /// the valid records of all files together. Fails where the directory
    /// holds no file, or where a count of trips would leave the range of a
    /// machine word.
    pub fn run_directory_all_transformations(
        &self,
        directory_path: &str,
        files: Vec<Vec<TaxiTrip>>,
    ) -> (r: Result<MultiAnalysisResults, ProcessingError>)
        ensures
            r is Ok <==> files@.len() > 0 && multi_summary(
                valid_only(concat_all(file_views(files@))),
            ).fits(),
            r is Ok ==> r->Ok_0@ == multi_report(
                multi_summary(valid_only(concat_all(file_views(files@)))),
            ),
            files@.len() == 0 ==> r is Err && is_empty_directory_error(
                r->Err_0,
                directory_path@,
            ),
            files@.len() > 0 && r is Err ==> is_count_overflow(r->Err_0),
    {
        if files.len() == 0 {
            return Err(empty_directory_error(directory_path));
        }
        let ghost all = file_views(files@);
        let ghost count = files@.len();
        let mut accumulators: Vec<MultiAccumulator> = Vec::new();
        let mut stack = reversed(files);
        proof {
            assert(all.take(0) =~= Seq::empty());
            assert(accumulator_views(accumulators@) =~= file_summaries(
                all.take(0),
                self.chunk_size as nat,
            ));
        }
        while stack.len() > 0
            invariant
                stack@.len() <= count,
                all.len() == count,
                forall|i: int| 0 <= i < stack@.len() ==> stack@[i]@ == all[count - 1 - i],
                accumulator_views(accumulators@) == file_summaries(
                    all.take(count - stack@.len()),
                    self.chunk_size as nat,
                ),
                forall|i: int|
                    0 <= i < accumulators@.len() ==> (#[trigger] accumulators@[i]).well_formed(),
            decreases stack@.len(),
        {
            let ghost taken = count - stack@.len();
            let ghost gathered = accumulators@;
            match stack.pop() {
                Some(file) => {
                    let mut more = self.process_in_batches(file);
                    let ghost added = more@;
                    accumulators.append(&mut more);
                    proof {
                        assert(all.take(taken + 1).drop_last() =~= all.take(taken));
                        assert(all.take(taken + 1).last() == file@);
                        assert(accumulator_views(accumulators@) =~= accumulator_views(gathered)
                            + accumulator_views(added));
                        assert forall|i: int| 0 <= i < accumulators@.len() implies (
                        #[trigger] accumulators@[i]).well_formed() by {
                            if i < gathered.len() {
                                assert(accumulators@[i] == gathered[i]);
                            } else {
                                assert(accumulators@[i] == added[i - gathered.len()]);
                            }
                        }
                    }
                },
                None => {},
            }
        }
        proof {
            assert(all.take(count as int) =~= all);
            lemma_files_merge(all, self.chunk_size as nat);
        }
        Self::consolidate(accumulators)
    }
}

impl Default for TaxiProcessor {
    fn default() -> (processor: TaxiProcessor)
        ensures
            processor.chunk_size == 50_000,
    {
        TaxiProcessor::new()
    }
}

} // verus!
