//! Use of the payment types: trips, amounts, and the share of each type.
use super::batch_aggregator::BatchAggregator;
use super::payment_stats::PaymentStats;
use crate::error::{count_overflow, is_count_overflow, ProcessingError};
use crate::models::TaxiTrip;
use crate::sparse::{
    lemma_key_sums_zero, lemma_merge_maps_grows, listing, map_bounded, map_fits, merge_maps,
    sparse_summary, sums_at, SparseTable, KEY_CEILING,
};
use crate::tally::{
    counted_trips, key_sums, lemma_key_sums_bounded, lemma_key_sums_push,
    lemma_nothing_counted, single_trips, Contribution, Tally, TallySums,
};
use crate::utils::{
    lemma_average_in_range, round_half_away, rounded_quotient, rounded_ratio, QUOTIENT_LIMIT,
};
use vstd::prelude::*;

verus! {

/// What a trip adds to the payment table. A trip counts where its payment
/// type and its total amount are positive; its key is the payment type.
/// The only sum is the total amount.
pub open spec fn payment_contribution(trip: TaxiTrip) -> Contribution {
    Contribution {
        counted: trip.payment_type > 0 && trip.total_amount > 0,
        key: trip.payment_type as int,
        sums: TallySums {
            trips: 1,
            points: 0,
            first: trip.total_amount as int,
            second: 0,
            third: 0,
            fourth: 0,
        },
    }
}

/// The rule by which trips enter the payment table.
pub open spec fn payment_rule() -> spec_fn(TaxiTrip) -> Contribution {
    |trip: TaxiTrip| payment_contribution(trip)
}

/// The payment table of a sequence of trips.
pub open spec fn payment_summary(trips: Seq<TaxiTrip>) -> Map<int, TallySums> {
    sparse_summary(trips.map_values(payment_rule()))
}

/// Number of trips of a sequence that the payment table counts.
pub open spec fn valid_trips(trips: Seq<TaxiTrip>) -> nat {
    counted_trips(trips.map_values(payment_rule()))
}

/// The consolidated state of the payment report.
pub struct PaymentTotals {
    /// Sums by payment type.
    pub stats: Map<int, TallySums>,
    /// Number of all trips counted.
    pub valid: nat,
}

/// The tables of a list of accumulators.
pub open spec fn payment_tables(accumulators: Seq<(SparseTable, usize)>) -> Seq<
    Map<int, TallySums>,
> {
    Seq::new(accumulators.len(), |i: int| accumulators[i].0@)
}

/// The trips counted by a list of accumulators, all together.
pub open spec fn payment_valid(accumulators: Seq<(SparseTable, usize)>) -> nat
    decreases accumulators.len(),
{
    if accumulators.len() == 0 {
        0
    } else {
        payment_valid(accumulators.drop_last()) + accumulators.last().1 as nat
    }
}

/// The share of `trips` among `valid` trips in hundredths of a percent;
/// zero where no trip was counted at all.
pub open spec fn share_of(trips: nat, valid: nat) -> int {
    if valid == 0 {
        0
    } else {
        round_half_away(10_000 * (trips as int), valid as int)
    }
}

/// The report row of a payment type with its sums.
pub open spec fn payment_row(key: int, sums: TallySums, valid: nat) -> PaymentStats {
    PaymentStats {
        payment_type: key as i32,
        trip_count: sums.trips as usize,
        total_amount: round_half_away(sums.first, 10_000) as i128,
        avg_amount: round_half_away(sums.first, 10_000 * (sums.trips as int)) as i128,
        percentage: share_of(sums.trips, valid) as i128,
    }
}

/// One row for each payment type of the table, by ascending type.
pub open spec fn payment_report(totals: PaymentTotals) -> Seq<PaymentStats> {
    listing(totals.stats, KEY_CEILING as int).map_values(
        |entry: (int, TallySums)| payment_row(entry.0, entry.1, totals.valid),
    )
}

/// Aggregator for the payment report.
#[derive(Debug)]
pub struct PaymentAnalyzer {
    payment_stats: SparseTable,
    total_valid_trips: usize,
}

impl View for PaymentAnalyzer {
    type V = PaymentTotals;

    closed spec fn view(&self) -> PaymentTotals {
        PaymentTotals { stats: self.payment_stats@, valid: self.total_valid_trips as nat }
    }
}

impl Default for PaymentAnalyzer {
    fn default() -> (analyzer: PaymentAnalyzer)
        ensures
            analyzer@.stats == Map::<int, TallySums>::empty(),
            analyzer@.valid == 0,
            analyzer.well_formed(),
    {
        PaymentAnalyzer { payment_stats: SparseTable::new(), total_valid_trips: 0 }
    }
}

impl PaymentAnalyzer {
    /// The counts of an analyzer in memory fit a machine word.
    pub proof fn lemma_fits(&self)
        requires
            self.well_formed(),
        ensures
            map_fits(self@.stats),
            self@.valid <= usize::MAX,
    {
        self.payment_stats.lemma_fits();
    }
}

/// What one trip adds to the payment table, if it counts.
pub fn payment_item(trip: &TaxiTrip) -> (item: Option<(i32, Tally)>)
    ensures
        item is Some == payment_contribution(*trip).counted,
        item is Some ==> item->Some_0.0 == payment_contribution(*trip).key && item->Some_0.1@
            == payment_contribution(*trip).sums,
        item is Some ==> item->Some_0.1@.bounded(),
{
    if trip.payment_type > 0 && trip.total_amount > 0 {
        Some(
            (
                trip.payment_type,
                Tally {
                    trips: 1,
                    points: 0,
                    first: trip.total_amount as i128,
                    second: 0,
                    third: 0,
                    fourth: 0,
                },
            ),
        )
    } else {
        None
    }
}

/// A part of a list of accumulators counts no more trips than the list.
pub proof fn lemma_valid_grows(accumulators: Seq<(SparseTable, usize)>, part: int)
    requires
        0 <= part <= accumulators.len(),
    ensures
        payment_valid(accumulators.take(part)) <= payment_valid(accumulators),
    decreases accumulators.len(),
{
    if part == accumulators.len() {
        assert(accumulators.take(part) =~= accumulators);
    } else {
        lemma_valid_grows(accumulators.drop_last(), part);
        assert(accumulators.drop_last().take(part) =~= accumulators.take(part));
    }
}

/// A batch in which every trip lacks a positive payment type or a positive
/// total amount leaves the payment table empty and counts no trip.
pub proof fn lemma_payment_filter(trips: Seq<TaxiTrip>)
    requires
        forall|i: int|
            0 <= i < trips.len() ==> (#[trigger] trips[i]).payment_type <= 0
                || trips[i].total_amount <= 0,
    ensures
        payment_summary(trips) == Map::<int, TallySums>::empty(),
        valid_trips(trips) == 0,
{
    let items = trips.map_values(payment_rule());
    assert forall|i: int| 0 <= i < items.len() implies !(#[trigger] items[i]).counted by {
        assert(items[i] == payment_contribution(trips[i]));
    }
    assert forall|key: int| !(#[trigger] payment_summary(trips).dom().contains(key)) by {
        lemma_nothing_counted(items, key);
    }
    lemma_nothing_counted(items, 0);
    assert(payment_summary(trips) =~= Map::<int, TallySums>::empty());
}

impl BatchAggregator<Vec<PaymentStats>> for PaymentAnalyzer {
    type Accumulator = (SparseTable, usize);

    closed spec fn well_formed(&self) -> bool {
        self.payment_stats.well_formed()
    }

    open spec fn accumulator_well_formed(accumulator: &(SparseTable, usize)) -> bool {
        accumulator.0.well_formed()
    }

    /// The payment table of the batch, and the number of trips that it
    /// counts.
    fn process_batch(&mut self, batch: &[TaxiTrip]) -> (r: Result<
        (SparseTable, usize),
        ProcessingError,
    >)
        ensures
            r is Ok,
            r->Ok_0.0@ == payment_summary(batch@),
            r->Ok_0.1 == valid_trips(batch@),
    {
        let mut table = SparseTable::new();
        let mut valid: usize = 0;
        let ghost items = batch@.map_values(payment_rule());
        let mut i: usize = 0;
        proof {
            assert(items.take(0) =~= Seq::empty());
            assert(table@ =~= sparse_summary(items.take(0)));
        }
        while i < batch.len()
            invariant
                i <= batch@.len(),
                items == batch@.map_values(payment_rule()),
                table.well_formed(),
                table@ == sparse_summary(items.take(i as int)),
                valid == counted_trips(items.take(i as int)),
                valid <= i,
            decreases batch@.len() - i,
        {
            let ghost seen = items.take(i as int);
            let ghost next = items.take(i + 1);
            proof {
                assert(next =~= seen.push(items[i as int]));
                assert(next.drop_last() =~= seen);
                assert(items[i as int] == payment_contribution(batch@[i as int]));
                assert(single_trips(seen)) by {
                    assert forall|j: int| 0 <= j < seen.len() implies (
                    #[trigger] seen[j]).sums.trips == 1 && seen[j].sums.bounded() by {
                        assert(seen[j] == payment_contribution(batch@[j]));
                    }
                }
            }
            match payment_item(&batch[i]) {
                Some((key, item)) => {
                    proof {
                        lemma_key_sums_bounded(seen, key as int);
                        lemma_key_sums_zero(seen, key as int);
                    }
                    table.add_at(key, &item);
                    valid += 1;
                },
                None => {},
            }
            proof {
                assert forall|key: int| #[trigger]
                    table@.dom().contains(key) == sparse_summary(next).dom().contains(key) by {
                    lemma_key_sums_push(seen, items[i as int], key);
                }
                assert forall|key: int| #[trigger]
                    table@.dom().contains(key) implies table@[key] == sparse_summary(next)[key] by {
                    lemma_key_sums_push(seen, items[i as int], key);
                    lemma_key_sums_zero(seen, key);
                }
                assert(table@.dom() =~= sparse_summary(next).dom());
                assert(table@ =~= sparse_summary(next));
            }
            i += 1;
        }
        assert(items.take(batch@.len() as int) =~= items);
        Ok((table, valid))
    }

    /// Adds the tables to the consolidated table, key by key, and the
    /// counts to the consolidated count. Fails, and changes nothing, where
    /// a count of trips would leave the range of a machine word.
    fn merge_accumulators(&mut self, accumulators: Vec<(SparseTable, usize)>) -> (r: Result<
        (),
        ProcessingError,
    >)
        ensures
            r is Ok <==> map_fits(merge_maps(old(self)@.stats, payment_tables(accumulators@)))
                && old(self)@.valid + payment_valid(accumulators@) <= usize::MAX,
            r is Ok ==> final(self)@.stats == merge_maps(
                old(self)@.stats,
                payment_tables(accumulators@),
            ),
            r is Ok ==> final(self)@.valid == old(self)@.valid + payment_valid(accumulators@),
            r is Err ==> is_count_overflow(r->Err_0) && final(self)@ == old(self)@,
    {
        let ghost tables = payment_tables(accumulators@);
        let ghost before = self@.stats;
        let mut merged = self.payment_stats.copy();
        let mut valid: usize = self.total_valid_trips;
        let mut i: usize = 0;
        proof {
            assert(tables.take(0) =~= Seq::empty());
            assert(accumulators@.take(0) =~= Seq::empty());
            assert forall|j: int| 0 <= j < tables.len() implies map_bounded(
                #[trigger] tables[j],
            ) by {
                assert(Self::accumulator_well_formed(&accumulators@[j]));
            }
        }
        while i < accumulators.len()
            invariant
                i <= accumulators@.len(),
                tables == payment_tables(accumulators@),
                before == self@.stats,
                *self == *old(self),
                self.well_formed(),
                map_bounded(before),
                crate::sparse::maps_bounded(tables),
                forall|j: int|
                    0 <= j < accumulators@.len() ==> (#[trigger] accumulators@[j]).0.well_formed(),
                merged.well_formed(),
                merged@ == merge_maps(before, tables.take(i as int)),
                valid == self@.valid + payment_valid(accumulators@.take(i as int)),
            decreases accumulators@.len() - i,
        {
            proof {
                assert(tables[i as int] == accumulators@[i as int].0@);
                assert(tables.take(i + 1).drop_last() =~= tables.take(i as int));
                assert(tables.take(i + 1).last() == tables[i as int]);
                assert(accumulators@.take(i + 1).drop_last() =~= accumulators@.take(i as int));
                assert(accumulators@.take(i + 1).last() == accumulators@[i as int]);
                lemma_valid_grows(accumulators@, i + 1);
                lemma_merge_maps_grows(before, tables, i + 1);
                assert(accumulators@[i as int].0.well_formed());
            }
            if accumulators[i].1 > usize::MAX - valid {
                return Err(count_overflow());
            }
            if !merged.absorb(&accumulators[i].0) {
                proof {
                    let part = merge_maps(before, tables.take(i + 1));
                    let key = choose|key: int|
                        part.contains_key(key) && !(#[trigger] part[key]).fits();
                    let whole = merge_maps(before, tables);
                    assert(sums_at(part, key).trips <= sums_at(whole, key).trips);
                    assert(whole.contains_key(key) && !whole[key].fits());
                }
                return Err(count_overflow());
            }
            valid = valid + accumulators[i].1;
            i += 1;
        }
        proof {
            assert(tables.take(accumulators@.len() as int) =~= tables);
            assert(accumulators@.take(accumulators@.len() as int) =~= accumulators@);
            merged.lemma_fits();
        }
        self.payment_stats = merged;
        self.total_valid_trips = valid;
        Ok(())
    }

    /// One row for each payment type, by ascending type.
    fn finalize(self) -> (r: Result<Vec<PaymentStats>, ProcessingError>)
        ensures
            r is Ok,
            r->Ok_0@ == payment_report(self@),
    {
        let ghost entries = listing(self@.stats, KEY_CEILING as int);
        let size = self.payment_stats.len();
        let mut rows: Vec<PaymentStats> = Vec::new();
        let mut i: usize = 0;
        while i < size
            invariant
                i <= size,
                size == entries.len(),
                entries == listing(self@.stats, KEY_CEILING as int),
                self.well_formed(),
                rows@.len() == i,
                forall|j: int|
                    0 <= j < i ==> (#[trigger] rows@[j]) == payment_row(
                        entries[j].0,
                        entries[j].1,
                        self@.valid,
                    ),
            decreases size - i,
        {
            let entry = self.payment_stats.entry(i);
            let tally = entry.tally;
            proof {
                lemma_average_in_range(tally@.first, tally@.trips);
            }
            let trips: u128 = tally.trips as u128;
            let percentage: i128 = if self.total_valid_trips == 0 {
                0
            } else {
                proof {
                    assert(tally.trips <= QUOTIENT_LIMIT * self.total_valid_trips)
                        by (nonlinear_arith)
                        requires
                            tally.trips <= QUOTIENT_LIMIT,
                            self.total_valid_trips >= 1,
                    ;
                }
                rounded_ratio(tally.trips as i128, 10_000, self.total_valid_trips as u128)
            };
            rows.push(
                PaymentStats {
                    payment_type: entry.key,
                    trip_count: tally.trips,
                    total_amount: rounded_quotient(tally.first, 10_000),
                    avg_amount: rounded_ratio(tally.first, 1, 10_000 * trips),
                    percentage,
                },
            );
            i += 1;
        }
        assert(rows@ =~= payment_report(self@));
        Ok(rows)
    }
}

} // verus!
