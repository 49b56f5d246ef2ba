//! All three reports from one pass over the batches.
use super::batch_aggregator::BatchAggregator;
use super::hourly_analyzer::{
    hourly_report, hourly_summary, HourlyPatternAnalyzer, HOURS_PER_DAY,
};
use super::hourly_pattern::HourlyPattern;
use super::payment_analyzer::{
    payment_report, payment_summary, payment_valid, valid_trips, PaymentAnalyzer, PaymentTotals,
};
use super::payment_stats::PaymentStats;
use super::peak_zone::{PeakZone, PeakZoneRow};
use super::peak_zone_analyzer::{peak_report, peak_summary, PeakZoneAnalyzer, ZONE_SLOTS};
use crate::error::{count_overflow, is_count_overflow, ProcessingError};
use crate::models::TaxiTrip;
use crate::sparse::{add_maps, map_fits, merge_maps, SparseTable};
use crate::tally::{
    add_tables, merge_tables, table_fits, table_views, zero_table, TallySums, TallyTable,
};
use crate::utils::reversed;
use vstd::prelude::*;

verus! {

/// The three reports of a run.
#[derive(Debug)]
pub struct MultiAnalysisResults {
    pub peak_zones: Vec<PeakZone>,
    pub hourly_patterns: Vec<HourlyPattern>,
    pub payment_analysis: Vec<PaymentStats>,
}

/// The three reports of a run as plain values.
pub struct MultiReport {
    pub peak_zones: Seq<PeakZoneRow>,
    pub hourly_patterns: Seq<HourlyPattern>,
    pub payment_analysis: Seq<PaymentStats>,
}

impl View for MultiAnalysisResults {
    type V = MultiReport;

    open spec fn view(&self) -> MultiReport {
        MultiReport {
            peak_zones: self.peak_zones@.map_values(|row: PeakZone| row@),
            hourly_patterns: self.hourly_patterns@,
            payment_analysis: self.payment_analysis@,
        }
    }
}

/// The tables of all three statistics, and the number of trips that the
/// payment table counts.
pub struct MultiTotals {
    pub peak: Seq<TallySums>,
    pub hourly: Seq<TallySums>,
    pub payment: Map<int, TallySums>,
    pub valid: nat,
}

impl MultiTotals {
    /// The tables of no trips.
    pub open spec fn zero() -> MultiTotals {
        MultiTotals {
            peak: zero_table(ZONE_SLOTS as nat),
            hourly: zero_table(HOURS_PER_DAY as nat),
            payment: Map::empty(),
            valid: 0,
        }
    }

    /// Table by table, key by key.
    pub open spec fn plus(self, other: MultiTotals) -> MultiTotals {
        MultiTotals {
            peak: add_tables(self.peak, other.peak),
            hourly: add_tables(self.hourly, other.hourly),
            payment: add_maps(self.payment, other.payment),
            valid: self.valid + other.valid,
        }
    }

    /// Every count can be held in a machine word.
    pub open spec fn fits(self) -> bool {
        table_fits(self.peak) && table_fits(self.hourly) && map_fits(self.payment) && self.valid
            <= usize::MAX
    }
}

/// The tables of a sequence of trips.
pub open spec fn multi_summary(trips: Seq<TaxiTrip>) -> MultiTotals {
    MultiTotals {
        peak: peak_summary(trips),
        hourly: hourly_summary(trips),
        payment: payment_summary(trips),
        valid: valid_trips(trips),
    }
}

/// Tables with a list of tables added to them, one after the other.
pub open spec fn merge_totals(base: MultiTotals, more: Seq<MultiTotals>) -> MultiTotals
    decreases more.len(),
{
    if more.len() == 0 {
        base
    } else {
        merge_totals(base, more.drop_last()).plus(more.last())
    }
}

/// Merging two lists of tables in a row is merging the first, then the
/// second: merging any number of times is the same as merging once with the
/// lists put together.
pub proof fn lemma_merge_totals_in_steps(
    base: MultiTotals,
    first: Seq<MultiTotals>,
    second: Seq<MultiTotals>,
)
    ensures
        merge_totals(base, first + second) == merge_totals(merge_totals(base, first), second),
    decreases second.len(),
{
    if second.len() == 0 {
        assert(first + second =~= first);
    } else {
        assert((first + second).drop_last() =~= first + second.drop_last());
        assert((first + second).last() == second.last());
        lemma_merge_totals_in_steps(base, first, second.drop_last());
    }
}

/// Two tables can be added in either order.
pub proof fn lemma_plus_swaps(base: MultiTotals, one: MultiTotals, other: MultiTotals)
    ensures
        base.plus(one).plus(other) == base.plus(other).plus(one),
{
    let left = base.plus(one).plus(other);
    let right = base.plus(other).plus(one);
    assert(left.peak =~= right.peak);
    assert(left.hourly =~= right.hourly);
    assert(left.payment =~= right.payment);
}

/// What is added before a merge can as well be added after it.
pub proof fn lemma_merge_shift(base: MultiTotals, one: MultiTotals, more: Seq<MultiTotals>)
    ensures
        merge_totals(base.plus(one), more) == merge_totals(base, more).plus(one),
    decreases more.len(),
{
    if more.len() > 0 {
        lemma_merge_shift(base, one, more.drop_last());
        lemma_plus_swaps(merge_totals(base, more.drop_last()), one, more.last());
    }
}

/// Tables that are summed over sequences piece by piece do not depend on
/// the order of the items: where `total` of two sequences in a row is the
/// sum of their totals, two sequences that hold the same items, each as
/// often as the other, have the same total.
pub proof fn lemma_rearranged<T>(total: spec_fn(Seq<T>) -> MultiTotals, one: Seq<T>, other: Seq<T>)
    requires
        forall|a: Seq<T>, b: Seq<T>| #[trigger] total(a + b) == total(a).plus(total(b)),
        one.to_multiset() == other.to_multiset(),
    ensures
        total(one) == total(other),
    decreases one.len(),
{
    broadcast use vstd::multiset::group_multiset_axioms;

    vstd::seq_lib::to_multiset_len(one);
    vstd::seq_lib::to_multiset_len(other);
    if one.len() == 0 {
        assert(one =~= other);
    } else {
        let item = one.last();
        let rest = one.drop_last();
        assert(one =~= rest.push(item));
        vstd::seq_lib::to_multiset_build(rest, item);
        assert(other.to_multiset().count(item) > 0);
        vstd::seq_lib::to_multiset_contains(other, item);
        let place = choose|place: int| 0 <= place < other.len() && other[place] == item;
        let shorter = other.remove(place);
        vstd::seq_lib::to_multiset_remove(other, place);
        assert(shorter.to_multiset() =~= rest.to_multiset());
        lemma_rearranged(total, rest, shorter);
        let head = other.take(place);
        let tail = other.skip(place + 1);
        assert(one =~= rest + seq![item]);
        assert(other =~= (head + seq![item]) + tail);
        assert(shorter =~= head + tail);
        assert(total(one) == total(rest).plus(total(seq![item])));
        assert(total(head + seq![item]) == total(head).plus(total(seq![item])));
        assert(total(other) == total(head).plus(total(seq![item])).plus(total(tail)));
        assert(total(shorter) == total(head).plus(total(tail)));
        lemma_plus_swaps(total(head), total(seq![item]), total(tail));
    }
}

/// The order in which accumulators arrive does not matter: two lists that
/// hold the same tables, each as often as the other, merge into the same
/// tables.
pub proof fn lemma_merge_rearranged(base: MultiTotals, one: Seq<MultiTotals>, other: Seq<MultiTotals>)
    requires
        one.to_multiset() == other.to_multiset(),
    ensures
        merge_totals(base, one) == merge_totals(base, other),
    decreases one.len(),
{
    broadcast use vstd::multiset::group_multiset_axioms;

    vstd::seq_lib::to_multiset_len(one);
    vstd::seq_lib::to_multiset_len(other);
    if one.len() == 0 {
        assert(one =~= other);
    } else {
        let item = one.last();
        let rest = one.drop_last();
        assert(one =~= rest.push(item));
        vstd::seq_lib::to_multiset_build(rest, item);
        assert(other.to_multiset().count(item) > 0);
        vstd::seq_lib::to_multiset_contains(other, item);
        let place = choose|place: int| 0 <= place < other.len() && other[place] == item;
        let shorter = other.remove(place);
        vstd::seq_lib::to_multiset_remove(other, place);
        assert(shorter.to_multiset() =~= rest.to_multiset());
        lemma_merge_rearranged(base, rest, shorter);
        let head = other.take(place);
        let tail = other.skip(place + 1);
        assert(other =~= (head + seq![item]) + tail);
        assert(shorter =~= head + tail);
        assert((head + seq![item]).drop_last() =~= head);
        lemma_merge_totals_in_steps(base, head + seq![item], tail);
        lemma_merge_totals_in_steps(base, head, tail);
        lemma_merge_shift(merge_totals(base, head), item, tail);
    }
}

/// The three reports derived from the tables.
pub open spec fn multi_report(totals: MultiTotals) -> MultiReport {
    MultiReport {
        peak_zones: peak_report(totals.peak),
        hourly_patterns: hourly_report(totals.hourly, HOURS_PER_DAY as int),
        payment_analysis: payment_report(
            PaymentTotals { stats: totals.payment, valid: totals.valid },
        ),
    }
}

/// What one batch adds to all three statistics.
#[derive(Debug)]
pub struct MultiAccumulator {
    pub peak_zones_acc: TallyTable,
    pub hourly_patterns_acc: TallyTable,
    pub payment_analysis_acc: (SparseTable, usize),
}

impl View for MultiAccumulator {
    type V = MultiTotals;

    open spec fn view(&self) -> MultiTotals {
        MultiTotals {
            peak: self.peak_zones_acc@,
            hourly: self.hourly_patterns_acc@,
            payment: self.payment_analysis_acc.0@,
            valid: self.payment_analysis_acc.1 as nat,
        }
    }
}

impl MultiAccumulator {
    /// Each part is an accumulator that its aggregator accepts.
    pub open spec fn well_formed(&self) -> bool {
        &&& PeakZoneAnalyzer::accumulator_well_formed(&self.peak_zones_acc)
        &&& HourlyPatternAnalyzer::accumulator_well_formed(&self.hourly_patterns_acc)
        &&& PaymentAnalyzer::accumulator_well_formed(&self.payment_analysis_acc)
    }
}

impl Default for MultiAccumulator {
    fn default() -> (accumulator: MultiAccumulator)
        ensures
            accumulator@ == MultiTotals::zero(),
            accumulator.well_formed(),
    {
        MultiAccumulator {
            peak_zones_acc: TallyTable::new(ZONE_SLOTS),
            hourly_patterns_acc: TallyTable::new(HOURS_PER_DAY),
            payment_analysis_acc: (SparseTable::new(), 0),
        }
    }
}

/// The views of a list of accumulators, in the same order.
pub open spec fn accumulator_views(accumulators: Seq<MultiAccumulator>) -> Seq<MultiTotals> {
    Seq::new(accumulators.len(), |i: int| accumulators[i]@)
}

/// Aggregator that runs every batch through all three statistics.
#[derive(Debug)]
pub struct MultiAnalyzer {
    peak_zone_analyzer: PeakZoneAnalyzer,
    hourly_pattern_analyzer: HourlyPatternAnalyzer,
    payment_analyzer: PaymentAnalyzer,
}

impl View for MultiAnalyzer {
    type V = MultiTotals;

    closed spec fn view(&self) -> MultiTotals {
        MultiTotals {
            peak: self.peak_zone_analyzer@,
            hourly: self.hourly_pattern_analyzer@,
            payment: self.payment_analyzer@.stats,
            valid: self.payment_analyzer@.valid,
        }
    }
}

impl MultiAnalyzer {
    /// The counts of an analyzer in memory fit a machine word.
    pub proof fn lemma_fits(&self)
        requires
            self.well_formed(),
        ensures
            self@.fits(),
    {
        self.peak_zone_analyzer.lemma_fits();
        self.hourly_pattern_analyzer.lemma_fits();
        self.payment_analyzer.lemma_fits();
    }
}

impl Default for MultiAnalyzer {
    fn default() -> (analyzer: MultiAnalyzer)
        ensures
            analyzer@ == MultiTotals::zero(),
            analyzer.well_formed(),
    {
        MultiAnalyzer {
            peak_zone_analyzer: PeakZoneAnalyzer::default(),
            hourly_pattern_analyzer: HourlyPatternAnalyzer::default(),
            payment_analyzer: PaymentAnalyzer::default(),
        }
    }
}

/// Merging whole accumulators is merging their parts, each with its own
/// kind.
pub proof fn lemma_merge_by_parts(
    base: MultiTotals,
    accumulators: Seq<MultiAccumulator>,
    peak: Seq<TallyTable>,
    hourly: Seq<TallyTable>,
    payment: Seq<(SparseTable, usize)>,
)
    requires
        peak.len() == accumulators.len(),
        hourly.len() == accumulators.len(),
        payment.len() == accumulators.len(),
        forall|i: int|
            0 <= i < accumulators.len() ==> (#[trigger] peak[i]) == accumulators[i].peak_zones_acc,
        forall|i: int|
            0 <= i < accumulators.len() ==> (#[trigger] hourly[i])
                == accumulators[i].hourly_patterns_acc,
        forall|i: int|
            0 <= i < accumulators.len() ==> (#[trigger] payment[i])
                == accumulators[i].payment_analysis_acc,
    ensures
        merge_totals(base, accumulator_views(accumulators)) == (MultiTotals {
            peak: merge_tables(base.peak, table_views(peak)),
            hourly: merge_tables(base.hourly, table_views(hourly)),
            payment: merge_maps(base.payment, super::payment_analyzer::payment_tables(payment)),
            valid: base.valid + payment_valid(payment),
        }),
    decreases accumulators.len(),
{
    let views = accumulator_views(accumulators);
    if accumulators.len() > 0 {
        let last = accumulators.len() - 1;
        lemma_merge_by_parts(
            base,
            accumulators.drop_last(),
            peak.drop_last(),
            hourly.drop_last(),
            payment.drop_last(),
        );
        assert(views.drop_last() =~= accumulator_views(accumulators.drop_last()));
        assert(table_views(peak).drop_last() =~= table_views(peak.drop_last()));
        assert(table_views(hourly).drop_last() =~= table_views(hourly.drop_last()));
        assert(super::payment_analyzer::payment_tables(payment).drop_last()
            =~= super::payment_analyzer::payment_tables(payment.drop_last()));
        assert(peak[last] == accumulators[last].peak_zones_acc);
        assert(hourly[last] == accumulators[last].hourly_patterns_acc);
        assert(payment[last] == accumulators[last].payment_analysis_acc);
    }
}

impl BatchAggregator<MultiAnalysisResults> for MultiAnalyzer {
    type Accumulator = MultiAccumulator;

    closed spec fn well_formed(&self) -> bool {
        &&& self.peak_zone_analyzer.well_formed()
        &&& self.hourly_pattern_analyzer.well_formed()
        &&& self.payment_analyzer.well_formed()
    }

    open spec fn accumulator_well_formed(accumulator: &MultiAccumulator) -> bool {
        accumulator.well_formed()
    }

    /// The tables of the batch for all three statistics.
    fn process_batch(&mut self, batch: &[TaxiTrip]) -> (r: Result<
        MultiAccumulator,
        ProcessingError,
    >)
        ensures
            r is Ok,
            r->Ok_0@ == multi_summary(batch@),
    {
        let peak_zones_acc = match self.peak_zone_analyzer.process_batch(batch) {
            Ok(accumulator) => accumulator,
            Err(error) => {
                return Err(error);
            },
        };
        let hourly_patterns_acc = match self.hourly_pattern_analyzer.process_batch(batch) {
            Ok(accumulator) => accumulator,
            Err(error) => {
                return Err(error);
            },
        };
        let payment_analysis_acc = match self.payment_analyzer.process_batch(batch) {
            Ok(accumulator) => accumulator,
            Err(error) => {
                return Err(error);
            },
        };
        Ok(MultiAccumulator { peak_zones_acc, hourly_patterns_acc, payment_analysis_acc })
    }

    /// Hands each part of the accumulators to its own aggregator. Fails,
    /// and changes nothing, where a count of trips would leave the range of
    /// a machine word in any of them.
    fn merge_accumulators(&mut self, accumulators: Vec<MultiAccumulator>) -> (r: Result<
        (),
        ProcessingError,
    >)
        ensures
            r is Ok <==> merge_totals(old(self)@, accumulator_views(accumulators@)).fits(),
            r is Ok ==> final(self)@ == merge_totals(
                old(self)@,
                accumulator_views(accumulators@),
            ),
            r is Err ==> is_count_overflow(r->Err_0) && final(self)@ == old(self)@,
    {
        let ghost all = accumulators@;
        let mut peak_zones_accs: Vec<TallyTable> = Vec::new();
        let mut hourly_patterns_accs: Vec<TallyTable> = Vec::new();
        let mut payment_analysis_accs: Vec<(SparseTable, usize)> = Vec::new();
        let mut stack = reversed(accumulators);
        while stack.len() > 0
            invariant
                stack@.len() + peak_zones_accs@.len() == all.len(),
                hourly_patterns_accs@.len() == peak_zones_accs@.len(),
                payment_analysis_accs@.len() == peak_zones_accs@.len(),
                forall|i: int| 0 <= i < stack@.len() ==> stack@[i] == all[all.len() - 1 - i],
                forall|i: int|
                    0 <= i < peak_zones_accs@.len() ==> (#[trigger] peak_zones_accs@[i])
                        == all[i].peak_zones_acc,
                forall|i: int|
                    0 <= i < peak_zones_accs@.len() ==> (#[trigger] hourly_patterns_accs@[i])
                        == all[i].hourly_patterns_acc,
                forall|i: int|
                    0 <= i < peak_zones_accs@.len() ==> (#[trigger] payment_analysis_accs@[i])
                        == all[i].payment_analysis_acc,
            decreases stack@.len(),
        {
            match stack.pop() {
                Some(accumulator) => {
                    peak_zones_accs.push(accumulator.peak_zones_acc);
                    hourly_patterns_accs.push(accumulator.hourly_patterns_acc);
                    payment_analysis_accs.push(accumulator.payment_analysis_acc);
                },
                None => {},
            }
        }
        proof {
            lemma_merge_by_parts(
                self@,
                all,
                peak_zones_accs@,
                hourly_patterns_accs@,
                payment_analysis_accs@,
            );
            assert forall|i: int| 0 <= i < all.len() implies PeakZoneAnalyzer::accumulator_well_formed(
                #[trigger] &peak_zones_accs@[i],
            ) by {
                assert(Self::accumulator_well_formed(&all[i]));
            }
            assert forall|i: int| 0 <= i < all.len() implies HourlyPatternAnalyzer::accumulator_well_formed(
                #[trigger] &hourly_patterns_accs@[i],
            ) by {
                assert(Self::accumulator_well_formed(&all[i]));
            }
            assert forall|i: int| 0 <= i < all.len() implies PaymentAnalyzer::accumulator_well_formed(
                #[trigger] &payment_analysis_accs@[i],
            ) by {
                assert(Self::accumulator_well_formed(&all[i]));
            }
        }
        let mut peak_zone_analyzer = self.peak_zone_analyzer.snapshot();
        match peak_zone_analyzer.merge_accumulators(peak_zones_accs) {
            Ok(()) => {},
            Err(error) => {
                return Err(count_overflow());
            },
        }
        let mut hourly_pattern_analyzer = self.hourly_pattern_analyzer.snapshot();
        match hourly_pattern_analyzer.merge_accumulators(hourly_patterns_accs) {
            Ok(()) => {},
            Err(error) => {
                return Err(count_overflow());
            },
        }
        match self.payment_analyzer.merge_accumulators(payment_analysis_accs) {
            Ok(()) => {},
            Err(error) => {
                return Err(count_overflow());
            },
        }
        self.peak_zone_analyzer = peak_zone_analyzer;
        self.hourly_pattern_analyzer = hourly_pattern_analyzer;
        Ok(())
    }

    /// The three reports, each from its own aggregator.
    fn finalize(self) -> (r: Result<MultiAnalysisResults, ProcessingError>)
        ensures
            r is Ok,
            r->Ok_0@ == multi_report(self@),
    {
        let peak_zones = match self.peak_zone_analyzer.finalize() {
            Ok(rows) => rows,
            Err(error) => {
                return Err(error);
            },
        };
        let hourly_patterns = match self.hourly_pattern_analyzer.finalize() {
            Ok(rows) => rows,
            Err(error) => {
                return Err(error);
            },
        };
        let payment_analysis = match self.payment_analyzer.finalize() {
            Ok(rows) => rows,
            Err(error) => {
                return Err(error);
            },
        };
        Ok(MultiAnalysisResults { peak_zones, hourly_patterns, payment_analysis })
    }
}

} // verus!
