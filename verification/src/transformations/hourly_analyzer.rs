//! Ride patterns by hour of the day: trips, and average distance, fare and
//! duration.
use super::batch_aggregator::BatchAggregator;
use super::hourly_pattern::HourlyPattern;
use crate::error::{count_overflow, is_count_overflow, ProcessingError};
use crate::models::TaxiTrip;
use crate::tally::{
    dense_summary, key_sums, lemma_key_sums_bounded, lemma_key_sums_push,
    lemma_nothing_counted, merge_tables, single_trips, summary_of, table_bounded, table_fits,
    table_is_empty, table_views, zero_table, Contribution, Tally, TallySums, TallyTable,
};
use crate::utils::{
    hour_of, hour_of_day, lemma_average_in_range, minutes_between, round_half_away,
    rounded_ratio, trip_minutes,
};
use vstd::prelude::*;

verus! {

/// Number of keys of the hourly table.
pub const HOURS_PER_DAY: usize = 24;

/// What a trip adds to the hourly table. A trip counts where its total
/// amount and its distance are positive; its key is the hour of its pickup.
/// The sums are distance, fare and duration in minutes.
pub open spec fn hourly_contribution(trip: TaxiTrip) -> Contribution {
    Contribution {
        counted: trip.total_amount > 0 && trip.trip_distance > 0,
        key: hour_of(trip.pickup_datetime),
        sums: TallySums {
            trips: 1,
            points: 0,
            first: trip.trip_distance as int,
            second: trip.fare_amount as int,
            third: minutes_between(trip.pickup_datetime, trip.dropoff_datetime),
            fourth: 0,
        },
    }
}

/// The rule by which trips enter the hourly table.
pub open spec fn hourly_rule() -> spec_fn(TaxiTrip) -> Contribution {
    |trip: TaxiTrip| hourly_contribution(trip)
}

/// The hourly table of a sequence of trips.
pub open spec fn hourly_summary(trips: Seq<TaxiTrip>) -> Seq<TallySums> {
    summary_of(trips, hourly_rule(), HOURS_PER_DAY as nat)
}

/// The report row of an hour with its sums.
pub open spec fn hourly_row(hour: int, sums: TallySums) -> HourlyPattern {
    HourlyPattern {
        hour: hour as u32,
        trip_count: sums.trips as usize,
        avg_distance: round_half_away(sums.first, 10_000 * (sums.trips as int)) as i128,
        avg_fare: round_half_away(sums.second, 10_000 * (sums.trips as int)) as i128,
        avg_duration: round_half_away(100 * sums.third, sums.trips as int) as i128,
    }
}

/// The rows of the hours below `upto` in which a trip was counted, by
/// ascending hour.
pub open spec fn hourly_report(table: Seq<TallySums>, upto: int) -> Seq<HourlyPattern>
    decreases upto,
{
    if upto <= 0 {
        Seq::empty()
    } else {
        let before = hourly_report(table, upto - 1);
        if table[upto - 1].trips > 0 {
            before.push(hourly_row(upto - 1, table[upto - 1]))
        } else {
            before
        }
    }
}

/// Aggregator for the hourly report.
#[derive(Debug)]
pub struct HourlyPatternAnalyzer {
    hourly_stats: TallyTable,
}

impl View for HourlyPatternAnalyzer {
    type V = Seq<TallySums>;

    closed spec fn view(&self) -> Seq<TallySums> {
        self.hourly_stats@
    }
}

impl Default for HourlyPatternAnalyzer {
    fn default() -> (analyzer: HourlyPatternAnalyzer)
        ensures
            analyzer@ == zero_table(HOURS_PER_DAY as nat),
            analyzer.well_formed(),
    {
        HourlyPatternAnalyzer { hourly_stats: TallyTable::new(HOURS_PER_DAY) }
    }
}

impl HourlyPatternAnalyzer {
    /// The counts of an analyzer in memory fit a machine word.
    pub proof fn lemma_fits(&self)
        ensures
            table_fits(self@),
    {
        self.hourly_stats.lemma_fits();
    }

    /// An analyzer with the same consolidated state.
    pub fn snapshot(&self) -> (twin: HourlyPatternAnalyzer)
        ensures
            twin@ == self@,
    {
        HourlyPatternAnalyzer { hourly_stats: self.hourly_stats.copy() }
    }
}

/// What one trip adds to the hourly table, if it counts.
pub fn hourly_item(trip: &TaxiTrip) -> (item: Option<(usize, Tally)>)
    ensures
        item is Some == hourly_contribution(*trip).counted,
        item is Some ==> item->Some_0.0 == hourly_contribution(*trip).key
            && item->Some_0.1@ == hourly_contribution(*trip).sums,
        item is Some ==> item->Some_0.0 < HOURS_PER_DAY && item->Some_0.1@.bounded(),
{
    if trip.total_amount > 0 && trip.trip_distance > 0 {
        let hour = hour_of_day(trip.pickup_datetime);
        let minutes = trip_minutes(trip.pickup_datetime, trip.dropoff_datetime);
        Some(
            (
                hour as usize,
                Tally {
                    trips: 1,
                    points: 0,
                    first: trip.trip_distance as i128,
                    second: trip.fare_amount as i128,
                    third: minutes as i128,
                    fourth: 0,
                },
            ),
        )
    } else {
        None
    }
}

/// The report holds one row for each hour below `upto` in which a trip was
/// counted, and the hours of its rows ascend.
pub proof fn lemma_hourly_report_ascends(table: Seq<TallySums>, upto: int)
    requires
        0 <= upto <= HOURS_PER_DAY,
    ensures
        forall|i: int|
            0 <= i < hourly_report(table, upto).len() ==> (#[trigger] hourly_report(
                table,
                upto,
            )[i]).hour < upto && hourly_report(table, upto)[i] == hourly_row(
                hourly_report(table, upto)[i].hour as int,
                table[hourly_report(table, upto)[i].hour as int],
            ) && table[hourly_report(table, upto)[i].hour as int].trips > 0,
        forall|i: int, j: int|
            0 <= i < j < hourly_report(table, upto).len() ==> (#[trigger] hourly_report(
                table,
                upto,
            )[i]).hour < (#[trigger] hourly_report(table, upto)[j]).hour,
        forall|hour: int|
            0 <= hour < upto && table[hour].trips > 0 ==> hourly_report(table, upto).contains(
                #[trigger] hourly_row(hour, table[hour]),
            ),
    decreases upto,
{
    if upto > 0 {
        lemma_hourly_report_ascends(table, upto - 1);
        let before = hourly_report(table, upto - 1);
        let report = hourly_report(table, upto);
        assert forall|hour: int| 0 <= hour < upto && table[hour].trips > 0 implies report.contains(
            #[trigger] hourly_row(hour, table[hour]),
        ) by {
            if hour == upto - 1 {
                assert(report[before.len() as int] == hourly_row(hour, table[hour]));
            } else {
                let at = choose|at: int|
                    0 <= at < before.len() && before[at] == hourly_row(hour, table[hour]);
                assert(report[at] == before[at]);
            }
        }
    }
}

/// A batch in which every trip lacks a positive distance or a positive
/// total amount leaves the hourly table empty.
pub proof fn lemma_hourly_filter(trips: Seq<TaxiTrip>)
    requires
        forall|i: int|
            0 <= i < trips.len() ==> (#[trigger] trips[i]).trip_distance <= 0
                || trips[i].total_amount <= 0,
    ensures
        hourly_summary(trips) == zero_table(HOURS_PER_DAY as nat),
        table_is_empty(hourly_summary(trips)),
{
    let items = trips.map_values(hourly_rule());
    assert forall|key: int| 0 <= key < HOURS_PER_DAY implies #[trigger] key_sums(items, key)
        == TallySums::zero() by {
        assert forall|i: int| 0 <= i < items.len() implies !(#[trigger] items[i]).counted by {
            assert(items[i] == hourly_contribution(trips[i]));
        }
        lemma_nothing_counted(items, key);
    }
    assert(hourly_summary(trips) =~= zero_table(HOURS_PER_DAY as nat));
}

impl BatchAggregator<Vec<HourlyPattern>> for HourlyPatternAnalyzer {
    type Accumulator = TallyTable;

    open spec fn well_formed(&self) -> bool {
        self@.len() == HOURS_PER_DAY && table_bounded(self@)
    }

    open spec fn accumulator_well_formed(accumulator: &TallyTable) -> bool {
        accumulator@.len() == HOURS_PER_DAY && accumulator.well_formed()
    }

    /// The hourly table of the batch.
    fn process_batch(&mut self, batch: &[TaxiTrip]) -> (r: Result<TallyTable, ProcessingError>)
        ensures
            r is Ok,
            r->Ok_0@ == hourly_summary(batch@),
    {
        let mut table = TallyTable::new(HOURS_PER_DAY);
        let ghost items = batch@.map_values(hourly_rule());
        let mut i: usize = 0;
        proof {
            assert(items.take(0) =~= Seq::empty());
            assert(table@ =~= dense_summary(items.take(0), HOURS_PER_DAY as nat));
        }
        while i < batch.len()
            invariant
                i <= batch@.len(),
                items == batch@.map_values(hourly_rule()),
                table.well_formed(),
                table@ == dense_summary(items.take(i as int), HOURS_PER_DAY as nat),
            decreases batch@.len() - i,
        {
            let ghost seen = items.take(i as int);
            proof {
                assert(items.take(i + 1) =~= seen.push(items[i as int]));
                assert(items[i as int] == hourly_contribution(batch@[i as int]));
                assert forall|key: int| 0 <= key < HOURS_PER_DAY implies #[trigger] key_sums(
                    seen.push(items[i as int]),
                    key,
                ) == if items[i as int].counted && items[i as int].key == key {
                    key_sums(seen, key).plus(items[i as int].sums)
                } else {
                    key_sums(seen, key)
                } by {
                    lemma_key_sums_push(seen, items[i as int], key);
                }
            }
            match hourly_item(&batch[i]) {
                Some((hour, item)) => {
                    proof {
                        assert(single_trips(seen)) by {
                            assert forall|j: int| 0 <= j < seen.len() implies (
                            #[trigger] seen[j]).sums.trips == 1 && seen[j].sums.bounded() by {
                                assert(seen[j] == hourly_contribution(batch@[j]));
                            }
                        }
                        lemma_key_sums_bounded(seen, hour as int);
                    }
                    table.add_at(hour, &item);
                },
                None => {},
            }
            assert(table@ =~= dense_summary(items.take(i + 1), HOURS_PER_DAY as nat));
            i += 1;
        }
        assert(items.take(batch@.len() as int) =~= items);
        Ok(table)
    }

    /// Adds the tables to the consolidated table, key by key. Fails, and
    /// changes nothing, where a count of trips would leave the range of a
    /// machine word.
    fn merge_accumulators(&mut self, accumulators: Vec<TallyTable>) -> (r: Result<
        (),
        ProcessingError,
    >)
        ensures
            r is Ok <==> table_fits(merge_tables(old(self)@, table_views(accumulators@))),
            r is Ok ==> final(self)@ == merge_tables(old(self)@, table_views(accumulators@)),
            r is Err ==> is_count_overflow(r->Err_0) && final(self)@ == old(self)@,
    {
        proof {
            let views = table_views(accumulators@);
            assert forall|i: int| 0 <= i < views.len() implies (#[trigger] views[i]).len()
                == self@.len() && table_bounded(views[i]) by {
                assert(Self::accumulator_well_formed(&accumulators@[i]));
            }
        }
        if self.hourly_stats.absorb_all(&accumulators) {
            Ok(())
        } else {
            Err(count_overflow())
        }
    }

    /// One row for each hour in which a trip was counted, by ascending hour.
    fn finalize(self) -> (r: Result<Vec<HourlyPattern>, ProcessingError>)
        ensures
            r is Ok,
            r->Ok_0@ == hourly_report(self@, HOURS_PER_DAY as int),
    {
        let mut rows: Vec<HourlyPattern> = Vec::new();
        let mut hour: usize = 0;
        while hour < HOURS_PER_DAY
            invariant
                hour <= HOURS_PER_DAY,
                self.well_formed(),
                rows@ == hourly_report(self@, hour as int),
            decreases HOURS_PER_DAY - hour,
        {
            let tally = self.hourly_stats.get(hour);
            if tally.trips > 0 {
                proof {
                    assert(self@[hour as int].bounded());
                    lemma_average_in_range(tally@.first, tally@.trips);
                    lemma_average_in_range(tally@.second, tally@.trips);
                    lemma_average_in_range(tally@.third, tally@.trips);
                }
                let trips: u128 = tally.trips as u128;
                rows.push(
                    HourlyPattern {
                        hour: hour as u32,
                        trip_count: tally.trips,
                        avg_distance: rounded_ratio(tally.first, 1, 10_000 * trips),
                        avg_fare: rounded_ratio(tally.second, 1, 10_000 * trips),
                        avg_duration: rounded_ratio(tally.third, 100, trips),
                    },
                );
            }
            hour += 1;
        }
        Ok(rows)
    }
}

} // verus!
