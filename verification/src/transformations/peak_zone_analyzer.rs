//! Revenue by zone and hour of the day, and the fifty pairs that earn most.
use super::batch_aggregator::BatchAggregator;
use super::peak_zone::{PeakZone, PeakZoneRow};
use crate::error::{count_overflow, is_count_overflow, ProcessingError};
use crate::models::TaxiTrip;
use crate::tally::{
    dense_summary, key_sums, lemma_key_sums_bounded, lemma_key_sums_push,
    lemma_nothing_counted, merge_tables, single_trips, summary_of, table_bounded, table_fits,
    table_is_empty, table_views, within_limit, zero_table, Contribution, Tally, TallySums,
    TallyTable, VALUE_LIMIT,
};
use crate::utils::{
    classify_zone, hour_of, hour_of_day, lemma_average_in_range, lemma_round_within,
    round_half_away, rounded_quotient, rounded_ratio, zone_of, Zone,
};
use vstd::prelude::*;

verus! {

/// Number of keys of the zone table: one for each zone and hour of the day.
pub const ZONE_SLOTS: usize = 216;

/// Number of rows that the report keeps.
pub const TOP_ZONES: usize = 50;

/// The key of a zone and an hour in the zone table.
pub open spec fn zone_slot(zone: Zone, hour: int) -> int {
    zone.index_spec() * 24 + hour
}

/// What a trip adds to the zone table. A trip counts where neither pickup
/// coordinate is zero and its total amount is positive; its key is the zone
/// of its pickup and the hour of its pickup. The sums are revenue, fare,
/// latitude and longitude.
pub open spec fn peak_contribution(trip: TaxiTrip) -> Contribution {
    Contribution {
        counted: trip.pickup_latitude != 0 && trip.pickup_longitude != 0 && trip.total_amount > 0,
        key: zone_slot(
            zone_of(trip.pickup_latitude, trip.pickup_longitude),
            hour_of(trip.pickup_datetime),
        ),
        sums: TallySums {
            trips: 1,
            points: 1,
            first: trip.total_amount as int,
            second: trip.fare_amount as int,
            third: trip.pickup_latitude as int,
            fourth: trip.pickup_longitude as int,
        },
    }
}

/// The rule by which trips enter the zone table.
pub open spec fn peak_rule() -> spec_fn(TaxiTrip) -> Contribution {
    |trip: TaxiTrip| peak_contribution(trip)
}

/// The zone table of a sequence of trips.
pub open spec fn peak_summary(trips: Seq<TaxiTrip>) -> Seq<TallySums> {
    summary_of(trips, peak_rule(), ZONE_SLOTS as nat)
}

/// The centre of the pickups under a key can be told: where trips were
/// counted, the coordinates of at least one of them were summed, and the
/// coordinate sums are sums over as many points as were counted.
pub open spec fn located(sums: TallySums) -> bool {
    &&& sums.trips > 0 ==> sums.points >= 1
    &&& within_limit(sums.third, sums.points)
    &&& within_limit(sums.fourth, sums.points)
}

/// The centre of the pickups can be told under every key.
pub open spec fn all_located(table: Seq<TallySums>) -> bool {
    forall|slot: int| 0 <= slot < table.len() ==> located(#[trigger] table[slot])
}

/// Revenue of a key in hundredths of a dollar, by which the keys are ranked.
pub open spec fn revenue_of(table: Seq<TallySums>, slot: int) -> int {
    round_half_away(table[slot].first, 10_000)
}

/// Whether key `a` stands before key `b` in the ranking: by higher revenue,
/// and among keys of equal revenue by zone in the order of testing, then by
/// hour.
pub open spec fn outranks(table: Seq<TallySums>, a: int, b: int) -> bool {
    revenue_of(table, a) > revenue_of(table, b) || (revenue_of(table, a) == revenue_of(table, b)
        && a < b)
}

/// Where a key enters a ranking of keys smaller than itself: behind the
/// last key whose revenue is not lower.
pub open spec fn entry_point(table: Seq<TallySums>, ranked: Seq<int>, slot: int) -> int
    decreases ranked.len(),
{
    if ranked.len() == 0 {
        0
    } else if revenue_of(table, ranked.last()) >= revenue_of(table, slot) {
        ranked.len() as int
    } else {
        entry_point(table, ranked.drop_last(), slot)
    }
}

/// The keys below `upto` under which a trip was counted, best first.
pub open spec fn ranking(table: Seq<TallySums>, upto: int) -> Seq<int>
    decreases upto,
{
    if upto <= 0 {
        Seq::empty()
    } else {
        let before = ranking(table, upto - 1);
        if table[upto - 1].trips > 0 {
            before.insert(entry_point(table, before, upto - 1), upto - 1)
        } else {
            before
        }
    }
}

/// The report row of a key with its sums.
pub open spec fn peak_row(slot: int, sums: TallySums) -> PeakZoneRow {
    PeakZoneRow {
        zone_name: Zone::at_spec(slot / 24).name_spec(),
        hour: (slot % 24) as u32,
        trip_count: sums.trips as usize,
        total_revenue: round_half_away(sums.first, 10_000) as i128,
        avg_fare: round_half_away(sums.second, 10_000 * (sums.trips as int)) as i128,
        center_lat: round_half_away(sums.third, 10_000 * (sums.points as int)) as i128,
        center_lng: round_half_away(sums.fourth, 10_000 * (sums.points as int)) as i128,
    }
}

/// The rows of the best keys, at most `TOP_ZONES` of them, best first.
pub open spec fn peak_report(table: Seq<TallySums>) -> Seq<PeakZoneRow> {
    let order = ranking(table, ZONE_SLOTS as int);
    let kept = if order.len() < TOP_ZONES {
        order.len()
    } else {
        TOP_ZONES as nat
    };
    Seq::new(kept, |i: int| peak_row(order[i], table[order[i]]))
}

/// A ranking as numbers.
spec fn slots_of(order: Seq<usize>) -> Seq<int> {
    Seq::new(order.len(), |i: int| order[i] as int)
}

/// Aggregator for the peak-zone report.
#[derive(Debug)]
pub struct PeakZoneAnalyzer {
    zone_stats: TallyTable,
}

impl View for PeakZoneAnalyzer {
    type V = Seq<TallySums>;

    closed spec fn view(&self) -> Seq<TallySums> {
        self.zone_stats@
    }
}

impl Default for PeakZoneAnalyzer {
    fn default() -> (analyzer: PeakZoneAnalyzer)
        ensures
            analyzer@ == zero_table(ZONE_SLOTS as nat),
            analyzer.well_formed(),
    {
        PeakZoneAnalyzer { zone_stats: TallyTable::new(ZONE_SLOTS) }
    }
}

impl PeakZoneAnalyzer {
    /// The counts of an analyzer in memory fit a machine word.
    pub proof fn lemma_fits(&self)
        ensures
            table_fits(self@),
    {
        self.zone_stats.lemma_fits();
    }

    /// An analyzer with the same consolidated state.
    pub fn snapshot(&self) -> (twin: PeakZoneAnalyzer)
        ensures
            twin@ == self@,
    {
        PeakZoneAnalyzer { zone_stats: self.zone_stats.copy() }
    }
}

/// What one trip adds to the zone table, if it counts.
pub fn peak_item(trip: &TaxiTrip) -> (item: Option<(usize, Tally)>)
    ensures
        item is Some == peak_contribution(*trip).counted,
        item is Some ==> item->Some_0.0 == peak_contribution(*trip).key && item->Some_0.1@
            == peak_contribution(*trip).sums,
        item is Some ==> item->Some_0.0 < ZONE_SLOTS && item->Some_0.1@.bounded(),
{
    if trip.pickup_latitude != 0 && trip.pickup_longitude != 0 && trip.total_amount > 0 {
        let zone = classify_zone(trip.pickup_latitude, trip.pickup_longitude);
        let hour = hour_of_day(trip.pickup_datetime);
        Some(
            (
                zone.index() * 24 + hour as usize,
                Tally {
                    trips: 1,
                    points: 1,
                    first: trip.total_amount as i128,
                    second: trip.fare_amount as i128,
                    third: trip.pickup_latitude as i128,
                    fourth: trip.pickup_longitude as i128,
                },
            ),
        )
    } else {
        None
    }
}

/// Where the centre can be told of two tallies, it can be told of their sum.
pub proof fn lemma_plus_located(a: TallySums, b: TallySums)
    requires
        located(a),
        located(b),
    ensures
        located(a.plus(b)),
{
    assert((a.points + b.points) * VALUE_LIMIT == a.points * VALUE_LIMIT + b.points * VALUE_LIMIT)
        by (nonlinear_arith);
}

/// The centre can be told of the sums of contributions of which it can be
/// told.
pub proof fn lemma_key_sums_located(items: Seq<Contribution>, key: int)
    requires
        forall|i: int| 0 <= i < items.len() ==> located((#[trigger] items[i]).sums),
    ensures
        located(key_sums(items, key)),
    decreases items.len(),
{
    if items.len() > 0 {
        let rest = items.drop_last();
        assert forall|i: int| 0 <= i < rest.len() implies located((#[trigger] rest[i]).sums) by {
            assert(rest[i] == items[i]);
        }
        lemma_key_sums_located(rest, key);
        assert(items.last() == items[items.len() - 1]);
        lemma_plus_located(key_sums(rest, key), items.last().sums);
    }
}

/// The centre can be told under every key of the zone table of any trips.
pub proof fn lemma_summary_located(trips: Seq<TaxiTrip>)
    ensures
        all_located(peak_summary(trips)),
{
    let items = trips.map_values(peak_rule());
    assert forall|i: int| 0 <= i < items.len() implies located((#[trigger] items[i]).sums) by {
        assert(items[i] == peak_contribution(trips[i]));
    }
    assert forall|slot: int| 0 <= slot < ZONE_SLOTS implies located(
        #[trigger] peak_summary(trips)[slot],
    ) by {
        lemma_key_sums_located(items, slot);
    }
}

/// Merging tables in which the centre can be told gives such a table.
pub proof fn lemma_merge_located(base: Seq<TallySums>, more: Seq<Seq<TallySums>>)
    requires
        all_located(base),
        forall|i: int|
            0 <= i < more.len() ==> (#[trigger] more[i]).len() == base.len() && all_located(
                more[i],
            ),
    ensures
        all_located(merge_tables(base, more)),
        merge_tables(base, more).len() == base.len(),
    decreases more.len(),
{
    if more.len() > 0 {
        let shorter = more.drop_last();
        assert forall|i: int| 0 <= i < shorter.len() implies (#[trigger] shorter[i]).len()
            == base.len() && all_located(shorter[i]) by {
            assert(shorter[i] == more[i]);
        }
        lemma_merge_located(base, shorter);
        let last = more.last();
        assert(last == more[more.len() - 1]);
        let merged = merge_tables(base, shorter);
        assert forall|slot: int| 0 <= slot < base.len() implies located(
            #[trigger] merge_tables(base, more)[slot],
        ) by {
            assert(located(merged[slot]));
            assert(located(last[slot]));
            lemma_plus_located(merged[slot], last[slot]);
        }
    }
}

/// Where a key enters: every key behind that place has a lower revenue,
/// and the key just before it has not.
pub proof fn lemma_entry_point(table: Seq<TallySums>, ranked: Seq<int>, slot: int)
    ensures
        0 <= entry_point(table, ranked, slot) <= ranked.len(),
        forall|i: int|
            entry_point(table, ranked, slot) <= i < ranked.len() ==> revenue_of(
                table,
                #[trigger] ranked[i],
            ) < revenue_of(table, slot),
        entry_point(table, ranked, slot) > 0 ==> revenue_of(
            table,
            ranked[entry_point(table, ranked, slot) - 1],
        ) >= revenue_of(table, slot),
    decreases ranked.len(),
{
    if ranked.len() > 0 && revenue_of(table, ranked.last()) < revenue_of(table, slot) {
        lemma_entry_point(table, ranked.drop_last(), slot);
        let shorter = ranked.drop_last();
        assert forall|i: int| entry_point(table, ranked, slot) <= i < ranked.len() implies revenue_of(
            table,
            #[trigger] ranked[i],
        ) < revenue_of(table, slot) by {
            if i < shorter.len() {
                assert(shorter[i] == ranked[i]);
            }
        }
        if entry_point(table, ranked, slot) > 0 {
            assert(shorter[entry_point(table, ranked, slot) - 1] == ranked[entry_point(
                table,
                ranked,
                slot,
            ) - 1]);
        }
    }
}

/// The ranking holds exactly the keys below `upto` under which a trip was
/// counted, each once, and every key in it outranks the keys behind it.
pub proof fn lemma_ranking(table: Seq<TallySums>, upto: int)
    ensures
        forall|i: int|
            0 <= i < ranking(table, upto).len() ==> 0 <= (#[trigger] ranking(table, upto)[i])
                < upto && table[ranking(table, upto)[i]].trips > 0,
        forall|slot: int|
            0 <= slot < upto && table[slot].trips > 0 ==> ranking(table, upto).contains(slot),
        forall|i: int, j: int|
            0 <= i < j < ranking(table, upto).len() ==> outranks(
                table,
                #[trigger] ranking(table, upto)[i],
                #[trigger] ranking(table, upto)[j],
            ),
        ranking(table, upto).len() <= if upto < 0 { 0 } else { upto },
    decreases upto,
{
    if upto > 0 {
        lemma_ranking(table, upto - 1);
        let before = ranking(table, upto - 1);
        let slot = upto - 1;
        if table[slot].trips > 0 {
            let place = entry_point(table, before, slot);
            lemma_entry_point(table, before, slot);
            let after = before.insert(place, slot);
            assert(after == ranking(table, upto));
            assert forall|i: int| 0 <= i < after.len() implies 0 <= (#[trigger] after[i]) < upto
                && table[after[i]].trips > 0 by {
                if i < place {
                    assert(after[i] == before[i]);
                } else if i > place {
                    assert(after[i] == before[i - 1]);
                }
            }
            assert forall|other: int| 0 <= other < upto && table[other].trips > 0 implies after.contains(
                other,
            ) by {
                if other == slot {
                    assert(after[place] == slot);
                } else {
                    assert(before.contains(other));
                    let at = choose|at: int| 0 <= at < before.len() && before[at] == other;
                    if at < place {
                        assert(after[at] == other);
                    } else {
                        assert(after[at + 1] == other);
                    }
                }
            }
            assert forall|i: int, j: int| 0 <= i < j < after.len() implies outranks(
                table,
                #[trigger] after[i],
                #[trigger] after[j],
            ) by {
                if j < place {
                    assert(after[i] == before[i] && after[j] == before[j]);
                } else if j == place {
                    assert(after[i] == before[i]);
                    if i < place - 1 {
                        assert(outranks(table, before[i], before[place - 1]));
                    }
                } else if i < place {
                    assert(after[i] == before[i] && after[j] == before[j - 1]);
                    if i < j - 1 {
                        assert(outranks(table, before[i], before[j - 1]));
                    }
                } else if i == place {
                    assert(after[j] == before[j - 1]);
                } else {
                    assert(after[i] == before[i - 1] && after[j] == before[j - 1]);
                }
            }
        }
    }
}

/// A batch in which every trip lacks a pickup coordinate or a positive
/// total amount leaves the zone table empty.
pub proof fn lemma_peak_filter(trips: Seq<TaxiTrip>)
    requires
        forall|i: int|
            0 <= i < trips.len() ==> (#[trigger] trips[i]).pickup_latitude == 0
                || trips[i].pickup_longitude == 0 || trips[i].total_amount <= 0,
    ensures
        peak_summary(trips) == zero_table(ZONE_SLOTS as nat),
        table_is_empty(peak_summary(trips)),
{
    let items = trips.map_values(peak_rule());
    assert forall|key: int| 0 <= key < ZONE_SLOTS implies #[trigger] key_sums(items, key)
        == TallySums::zero() by {
        assert forall|i: int| 0 <= i < items.len() implies !(#[trigger] items[i]).counted by {
            assert(items[i] == peak_contribution(trips[i]));
        }
        lemma_nothing_counted(items, key);
    }
    assert(peak_summary(trips) =~= zero_table(ZONE_SLOTS as nat));
}

/// Number of keys below `upto` under which a trip was counted.
pub open spec fn present_keys(table: Seq<TallySums>, upto: int) -> nat
    decreases upto,
{
    if upto <= 0 {
        0
    } else if table[upto - 1].trips > 0 {
        present_keys(table, upto - 1) + 1
    } else {
        present_keys(table, upto - 1)
    }
}

/// The ranking is as long as there are keys under which a trip was counted.
pub proof fn lemma_ranking_len(table: Seq<TallySums>, upto: int)
    ensures
        ranking(table, upto).len() == present_keys(table, upto),
    decreases upto,
{
    if upto > 0 {
        lemma_ranking_len(table, upto - 1);
        lemma_entry_point(table, ranking(table, upto - 1), upto - 1);
    }
}

/// The report keeps the best keys and no others: it holds `TOP_ZONES` rows,
/// or one for every key where there are fewer; its rows are those of the
/// first keys of the ranking; their revenue never rises from one row to the
/// next; and every key that is left out ranks behind every key that is kept.
pub proof fn lemma_report_is_top(table: Seq<TallySums>)
    requires
        table.len() == ZONE_SLOTS,
        table_bounded(table),
        table_fits(table),
    ensures
        peak_report(table).len() == if present_keys(table, ZONE_SLOTS as int) < TOP_ZONES {
            present_keys(table, ZONE_SLOTS as int)
        } else {
            TOP_ZONES as nat
        },
        forall|i: int|
            0 <= i < peak_report(table).len() ==> (#[trigger] peak_report(table)[i]) == peak_row(
                ranking(table, ZONE_SLOTS as int)[i],
                table[ranking(table, ZONE_SLOTS as int)[i]],
            ),
        forall|i: int, j: int|
            0 <= i < j < peak_report(table).len() ==> (#[trigger] peak_report(
                table,
            )[i]).total_revenue >= (#[trigger] peak_report(table)[j]).total_revenue,
        forall|i: int, slot: int|
            0 <= i < peak_report(table).len() && 0 <= slot < ZONE_SLOTS && table[slot].trips > 0
                && !ranking(table, ZONE_SLOTS as int).take(
                peak_report(table).len() as int,
            ).contains(slot) ==> #[trigger] outranks(
                table,
                ranking(table, ZONE_SLOTS as int)[i],
                slot,
            ),
{
    let order = ranking(table, ZONE_SLOTS as int);
    let report = peak_report(table);
    lemma_ranking_len(table, ZONE_SLOTS as int);
    lemma_ranking(table, ZONE_SLOTS as int);
    assert forall|i: int, j: int| 0 <= i < j < report.len() implies (#[trigger] report[i]).total_revenue
        >= (#[trigger] report[j]).total_revenue by {
        assert(outranks(table, order[i], order[j]));
        lemma_revenue_in_range(table[order[i]].first, table[order[i]].trips);
        lemma_revenue_in_range(table[order[j]].first, table[order[j]].trips);
        lemma_round_within(table[order[i]].first, 10_000);
        lemma_round_within(table[order[j]].first, 10_000);
    }
    assert forall|i: int, slot: int|
        0 <= i < report.len() && 0 <= slot < ZONE_SLOTS && table[slot].trips > 0 && !order.take(
            report.len() as int,
        ).contains(slot) implies #[trigger] outranks(table, order[i], slot) by {
        assert(order.contains(slot));
        let at = choose|at: int| 0 <= at < order.len() && order[at] == slot;
        if at < report.len() {
            assert(order.take(report.len() as int)[at] == slot);
        }
        assert(outranks(table, order[i], order[at]));
    }
}

impl BatchAggregator<Vec<PeakZone>> for PeakZoneAnalyzer {
    type Accumulator = TallyTable;

    open spec fn well_formed(&self) -> bool {
        self@.len() == ZONE_SLOTS && table_bounded(self@) && all_located(self@)
    }

    open spec fn accumulator_well_formed(accumulator: &TallyTable) -> bool {
        accumulator@.len() == ZONE_SLOTS && accumulator.well_formed() && all_located(accumulator@)
    }

    /// The zone table of the batch.
    fn process_batch(&mut self, batch: &[TaxiTrip]) -> (r: Result<TallyTable, ProcessingError>)
        ensures
            r is Ok,
            r->Ok_0@ == peak_summary(batch@),
    {
        let mut table = TallyTable::new(ZONE_SLOTS);
        let ghost items = batch@.map_values(peak_rule());
        let mut i: usize = 0;
        proof {
            assert(items.take(0) =~= Seq::empty());
            assert(table@ =~= dense_summary(items.take(0), ZONE_SLOTS as nat));
        }
        while i < batch.len()
            invariant
                i <= batch@.len(),
                items == batch@.map_values(peak_rule()),
                table.well_formed(),
                table@ == dense_summary(items.take(i as int), ZONE_SLOTS as nat),
            decreases batch@.len() - i,
        {
            let ghost seen = items.take(i as int);
            proof {
                assert(items.take(i + 1) =~= seen.push(items[i as int]));
                assert(items[i as int] == peak_contribution(batch@[i as int]));
                assert forall|key: int| 0 <= key < ZONE_SLOTS implies #[trigger] key_sums(
                    seen.push(items[i as int]),
                    key,
                ) == if items[i as int].counted && items[i as int].key == key {
                    key_sums(seen, key).plus(items[i as int].sums)
                } else {
                    key_sums(seen, key)
                } by {
                    lemma_key_sums_push(seen, items[i as int], key);
                }
            }
            match peak_item(&batch[i]) {
                Some((slot, item)) => {
                    proof {
                        assert(single_trips(seen)) by {
                            assert forall|j: int| 0 <= j < seen.len() implies (
                            #[trigger] seen[j]).sums.trips == 1 && seen[j].sums.bounded() by {
                                assert(seen[j] == peak_contribution(batch@[j]));
                            }
                        }
                        lemma_key_sums_bounded(seen, slot as int);
                    }
                    table.add_at(slot, &item);
                },
                None => {},
            }
            assert(table@ =~= dense_summary(items.take(i + 1), ZONE_SLOTS as nat));
            i += 1;
        }
        proof {
            assert(items.take(batch@.len() as int) =~= items);
            lemma_summary_located(batch@);
        }
        Ok(table)
    }

    /// Adds the tables to the consolidated table, key by key. Fails, and
    /// changes nothing, where a count of trips would leave the range of a
    /// machine word.
    fn merge_accumulators(&mut self, accumulators: Vec<TallyTable>) -> (r: Result<
        (),
        ProcessingError,
    >)
        ensures
            r is Ok <==> table_fits(merge_tables(old(self)@, table_views(accumulators@))),
            r is Ok ==> final(self)@ == merge_tables(old(self)@, table_views(accumulators@)),
            r is Err ==> is_count_overflow(r->Err_0) && final(self)@ == old(self)@,
    {
        proof {
            let views = table_views(accumulators@);
            assert forall|i: int| 0 <= i < views.len() implies (#[trigger] views[i]).len()
                == self@.len() && table_bounded(views[i]) && all_located(views[i]) by {
                assert(Self::accumulator_well_formed(&accumulators@[i]));
            }
            lemma_merge_located(self@, views);
        }
        if self.zone_stats.absorb_all(&accumulators) {
            Ok(())
        } else {
            Err(count_overflow())
        }
    }

    /// One row for each of the best keys, at most `TOP_ZONES`, best first.
    fn finalize(self) -> (r: Result<Vec<PeakZone>, ProcessingError>)
        ensures
            r is Ok,
            r->Ok_0@.map_values(|row: PeakZone| row@) == peak_report(self@),
    {
        let revenues = self.revenues();
        let order = self.ranked(&revenues);
        let kept: usize = if order.len() < TOP_ZONES {
            order.len()
        } else {
            TOP_ZONES
        };
        let mut rows: Vec<PeakZone> = Vec::new();
        let mut i: usize = 0;
        proof {
            lemma_ranking(self@, ZONE_SLOTS as int);
        }
        while i < kept
            invariant
                i <= kept <= order@.len(),
                self.well_formed(),
                slots_of(order@) == ranking(self@, ZONE_SLOTS as int),
                forall|j: int|
                    0 <= j < order@.len() ==> 0 <= (#[trigger] ranking(self@, ZONE_SLOTS as int)[j])
                        < ZONE_SLOTS && self@[ranking(self@, ZONE_SLOTS as int)[j]].trips > 0,
                revenues@.len() == ZONE_SLOTS,
                forall|slot: int|
                    0 <= slot < ZONE_SLOTS ==> (#[trigger] revenues@[slot]) == revenue_of(
                        self@,
                        slot,
                    ),
                rows@.len() == i,
                forall|j: int|
                    0 <= j < i ==> (#[trigger] rows@[j])@ == peak_row(
                        order@[j] as int,
                        self@[order@[j] as int],
                    ),
            decreases kept - i,
        {
            let slot = order[i];
            proof {
                assert(slots_of(order@)[i as int] == slot);
                assert(0 <= ranking(self@, ZONE_SLOTS as int)[i as int] < ZONE_SLOTS);
            }
            let tally = self.zone_stats.get(slot);
            proof {
                assert(self@[slot as int].bounded());
                assert(located(self@[slot as int]));
                lemma_average_in_range(tally@.second, tally@.trips);
                lemma_average_in_range(tally@.third, tally@.points);
                lemma_average_in_range(tally@.fourth, tally@.points);
            }
            let trips: u128 = tally.trips as u128;
            let points: u128 = tally.points as u128;
            rows.push(
                PeakZone {
                    zone_name: Zone::at(slot / 24).name(),
                    hour: (slot % 24) as u32,
                    trip_count: tally.trips,
                    total_revenue: revenues[slot],
                    avg_fare: rounded_ratio(tally.second, 1, 10_000 * trips),
                    center_lat: rounded_ratio(tally.third, 1, 10_000 * points),
                    center_lng: rounded_ratio(tally.fourth, 1, 10_000 * points),
                },
            );
            i += 1;
        }
        proof {
            let views = rows@.map_values(|row: PeakZone| row@);
            let report = peak_report(self@);
            assert(views.len() == report.len());
            assert forall|j: int| 0 <= j < views.len() implies views[j] == report[j] by {
                assert(slots_of(order@)[j] == order@[j]);
            }
            assert(views =~= report);
        }
        Ok(rows)
    }
}

impl PeakZoneAnalyzer {
    /// The revenue of every key, in hundredths of a dollar.
    fn revenues(&self) -> (revenues: Vec<i128>)
        requires
            self.well_formed(),
        ensures
            revenues@.len() == ZONE_SLOTS,
            forall|slot: int|
                0 <= slot < ZONE_SLOTS ==> (#[trigger] revenues@[slot]) == revenue_of(self@, slot),
    {
        let mut revenues: Vec<i128> = Vec::new();
        let mut slot: usize = 0;
        while slot < ZONE_SLOTS
            invariant
                slot <= ZONE_SLOTS,
                self.well_formed(),
                revenues@.len() == slot,
                forall|j: int|
                    0 <= j < slot ==> (#[trigger] revenues@[j]) == revenue_of(self@, j),
            decreases ZONE_SLOTS - slot,
        {
            let tally = self.zone_stats.get(slot);
            let revenue = rounded_quotient(tally.first, 10_000);
            proof {
                self.zone_stats.lemma_fits();
                assert(self@[slot as int].bounded());
                lemma_revenue_in_range(self@[slot as int].first, self@[slot as int].trips);
            }
            revenues.push(revenue);
            slot += 1;
        }
        revenues
    }

    /// The keys under which a trip was counted, best first.
    fn ranked(&self, revenues: &Vec<i128>) -> (order: Vec<usize>)
        requires
            self.well_formed(),
            revenues@.len() == ZONE_SLOTS,
            forall|slot: int|
                0 <= slot < ZONE_SLOTS ==> (#[trigger] revenues@[slot]) == revenue_of(self@, slot),
        ensures
            slots_of(order@) == ranking(self@, ZONE_SLOTS as int),
    {
        let mut order: Vec<usize> = Vec::new();
        let mut slot: usize = 0;
        proof {
            assert(slots_of(order@) =~= ranking(self@, 0));
        }
        while slot < ZONE_SLOTS
            invariant
                slot <= ZONE_SLOTS,
                self.well_formed(),
                revenues@.len() == ZONE_SLOTS,
                forall|other: int|
                    0 <= other < ZONE_SLOTS ==> (#[trigger] revenues@[other]) == revenue_of(
                        self@,
                        other,
                    ),
                slots_of(order@) == ranking(self@, slot as int),
                forall|j: int| 0 <= j < order@.len() ==> (#[trigger] order@[j]) < slot,
            decreases ZONE_SLOTS - slot,
        {
            let tally = self.zone_stats.get(slot);
            if tally.trips > 0 {
                let ghost ranked = slots_of(order@);
                let mut place: usize = order.len();
                proof {
                    assert(ranked.take(place as int) =~= ranked);
                }
                while place > 0 && revenues[order[place - 1]] < revenues[slot]
                    invariant
                        place <= order@.len(),
                        ranked == slots_of(order@),
                        revenues@.len() == ZONE_SLOTS,
                        slot < ZONE_SLOTS,
                        forall|other: int|
                            0 <= other < ZONE_SLOTS ==> (#[trigger] revenues@[other])
                                == revenue_of(self@, other),
                        forall|j: int| 0 <= j < order@.len() ==> (#[trigger] order@[j]) < slot,
                        entry_point(self@, ranked, slot as int) == entry_point(
                            self@,
                            ranked.take(place as int),
                            slot as int,
                        ),
                    decreases place,
                {
                    proof {
                        let part = ranked.take(place as int);
                        assert(part.last() == order@[place - 1]);
                        assert(part.drop_last() =~= ranked.take(place - 1));
                    }
                    place -= 1;
                }
                proof {
                    let part = ranked.take(place as int);
                    if place > 0 {
                        assert(part.last() == order@[place - 1]);
                    }
                    assert(entry_point(self@, part, slot as int) == place);
                }
                order.insert(place, slot);
                proof {
                    assert(slots_of(order@) =~= ranked.insert(place as int, slot as int));
                }
            }
            slot += 1;
        }
        order
    }
}

/// A revenue sum over trips that fit a machine word rounds into range.
proof fn lemma_revenue_in_range(sum: int, trips: nat)
    requires
        crate::tally::within_limit(sum, trips),
        trips <= usize::MAX,
    ensures
        i128::MIN < sum <= i128::MAX,
{
    assert(trips * crate::tally::VALUE_LIMIT <= usize::MAX * crate::tally::VALUE_LIMIT)
        by (nonlinear_arith)
        requires
            trips <= usize::MAX,
    ;
}

} // verus!
