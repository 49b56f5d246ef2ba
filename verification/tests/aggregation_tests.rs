use chrono::{Datelike, TimeZone, Timelike, Utc};
use nyc_taxi_processor::error::ProcessingError;
use nyc_taxi_processor::processors::BatchSource;
use nyc_taxi_processor::sparse::SparseTable;
use nyc_taxi_processor::tally::{Tally, TallyTable};
use nyc_taxi_processor::transformations::{MultiAccumulator, MultiAnalysisResults, MultiAnalyzer};
use nyc_taxi_processor::error::{count_overflow, empty_directory_error};
use nyc_taxi_processor::utils::{
    calculate_trip_duration, classify_zone, decimal, get_day_of_week, get_hour_of_day,
    get_zone_id, hour_of_day, magnitude, parse_datetime, reversed, round_to_2_decimals,
    rounded_quotient, rounded_ratio, trip_minutes, validate_trip, Zone,
};
use nyc_taxi_processor::{
    BatchAggregator, HourlyPatternAnalyzer, PaymentAnalyzer, PeakZoneAnalyzer, TaxiProcessor,
    TaxiTrip,
};

fn micros(value: f64) -> i64 {
    (value * 1_000_000.0).round() as i64
}

fn at(hour: u32, minute: u32) -> i64 {
    Utc.with_ymd_and_hms(2015, 1, 1, hour, minute, 0).unwrap().timestamp()
}

fn sample_trip() -> TaxiTrip {
    TaxiTrip {
        vendor_id: 1,
        pickup_datetime: at(12, 0),
        dropoff_datetime: at(12, 30),
        passenger_count: Some(1),
        trip_distance: micros(5.0),
        pickup_longitude: micros(-73.98),
        pickup_latitude: micros(40.75),
        rate_code_id: 1,
        store_and_fwd_flag: Some("N".to_string()),
        dropoff_longitude: micros(-73.95),
        dropoff_latitude: micros(40.78),
        payment_type: 1,
        fare_amount: micros(15.0),
        extra: micros(0.5),
        mta_tax: micros(0.5),
        tip_amount: micros(3.0),
        tolls_amount: 0,
        improvement_surcharge: Some(micros(0.3)),
        total_amount: micros(19.3),
    }
}

/// A mixed feed: several zones, hours and payment types, and records that
/// one or another filter drops.
fn sample_feed() -> Vec<TaxiTrip> {
    let mut feed = Vec::new();
    for i in 0..23i64 {
        let mut trip = sample_trip();
        trip.pickup_datetime = at((i % 5) as u32 + 6, (i * 7 % 60) as u32);
        trip.dropoff_datetime = trip.pickup_datetime + 60 * (5 + i);
        trip.total_amount = micros(10.0) + i * 1_230_000;
        trip.fare_amount = micros(8.0) + i * 1_010_000;
        trip.trip_distance = micros(1.0) + i * 333_333;
        trip.payment_type = (i % 3) as i32 + 1;
        if i % 4 == 1 {
            trip.pickup_latitude = micros(40.645);
            trip.pickup_longitude = micros(-73.78);
        }
        if i % 7 == 2 {
            trip.vendor_id = 3;
        }
        if i % 6 == 3 {
            trip.trip_distance = 0;
        }
        if i % 9 == 4 {
            trip.payment_type = 0;
        }
        if i % 11 == 5 {
            trip.pickup_latitude = 0;
        }
        feed.push(trip);
    }
    feed
}

fn shown(results: &MultiAnalysisResults) -> String {
    format!("{:?}", results)
}

#[test]
fn reports_do_not_depend_on_chunk_size() {
    let whole = TaxiProcessor::with_chunk_size(1000).run_all_transformations(sample_feed()).unwrap();
    assert_eq!(whole.hourly_patterns.len(), 5);
    assert_eq!(whole.payment_analysis.len(), 3);
    for chunk_size in [0usize, 1, 2, 3, 5, 7, 22, 23, 24] {
        let cut = TaxiProcessor::with_chunk_size(chunk_size)
            .run_all_transformations(sample_feed())
            .unwrap();
        assert_eq!(shown(&cut), shown(&whole), "chunk size {}", chunk_size);
    }
}

#[test]
fn reports_do_not_depend_on_the_order_of_records() {
    let processor = TaxiProcessor::with_chunk_size(6);
    let forward = processor.run_all_transformations(sample_feed()).unwrap();
    let backward = processor.run_all_transformations(reversed(sample_feed())).unwrap();
    let mut rotated = sample_feed();
    rotated.rotate_left(9);
    let rotated = processor.run_all_transformations(rotated).unwrap();
    assert_eq!(shown(&forward), shown(&backward));
    assert_eq!(shown(&forward), shown(&rotated));
}

#[test]
fn reports_do_not_depend_on_the_order_of_accumulators() {
    let processor = TaxiProcessor::with_chunk_size(4);
    let forward = processor.process_in_batches(sample_feed());
    let backward = reversed(processor.process_in_batches(sample_feed()));
    assert_eq!(forward.len(), 5);
    let one = TaxiProcessor::consolidate(forward).unwrap();
    let other = TaxiProcessor::consolidate(backward).unwrap();
    assert_eq!(shown(&one), shown(&other));
}

#[test]
fn reports_do_not_depend_on_the_split_into_files() {
    let single = TaxiProcessor::with_chunk_size(4).run_all_transformations(sample_feed()).unwrap();
    let mut files: Vec<Vec<TaxiTrip>> = vec![Vec::new(), Vec::new(), Vec::new(), Vec::new()];
    for (i, trip) in sample_feed().into_iter().enumerate() {
        let file = if i < 3 { 0 } else if i < 4 { 1 } else if i < 15 { 3 } else { 2 };
        files[file].push(trip);
    }
    let files = vec![files.remove(0), files.remove(0), files.remove(1), files.remove(0)];
    let many = TaxiProcessor::with_chunk_size(3)
        .run_directory_all_transformations("data", files)
        .unwrap();
    assert_eq!(shown(&many), shown(&single));
}

#[test]
fn reports_do_not_depend_on_the_order_of_files_and_records() {
    let mut shuffled = sample_feed();
    // A fixed rearrangement of the feed.
    for i in 0..shuffled.len() {
        let j = (i * 7 + 3) % shuffled.len();
        shuffled.swap(i, j);
    }
    let single = TaxiProcessor::with_chunk_size(5).run_all_transformations(shuffled).unwrap();
    let mut files: Vec<Vec<TaxiTrip>> = vec![Vec::new(), Vec::new(), Vec::new()];
    for (i, trip) in sample_feed().into_iter().enumerate() {
        files[(i * i + 1) % 3].push(trip);
    }
    let backward = vec![files[2].clone(), files[1].clone(), files[0].clone()];
    let forward = TaxiProcessor::with_chunk_size(2)
        .run_directory_all_transformations("data", files)
        .unwrap();
    let backward = TaxiProcessor::with_chunk_size(4)
        .run_directory_all_transformations("data", backward)
        .unwrap();
    assert_eq!(shown(&forward), shown(&single));
    assert_eq!(shown(&backward), shown(&single));
}

#[test]
fn merging_in_steps_equals_merging_at_once() {
    let processor = TaxiProcessor::with_chunk_size(5);
    let mut stepwise = MultiAnalyzer::default();
    let mut accumulators = processor.process_in_batches(sample_feed());
    let later = accumulators.split_off(2);
    stepwise.merge_accumulators(accumulators).unwrap();
    stepwise.merge_accumulators(later).unwrap();
    let mut at_once = MultiAnalyzer::default();
    at_once.merge_accumulators(processor.process_in_batches(sample_feed())).unwrap();
    assert_eq!(shown(&stepwise.finalize().unwrap()), shown(&at_once.finalize().unwrap()));
}

#[test]
fn empty_directory_is_an_error() {
    let result = TaxiProcessor::new().run_directory_all_transformations("data/in", Vec::new());
    match result {
        Err(ProcessingError::Processing { message }) => {
            assert_eq!(message, "No CSV files found in directory: data/in");
        }
        _ => panic!("an empty directory must be refused"),
    }
}

#[test]
fn directory_of_empty_files_gives_empty_reports() {
    let results = TaxiProcessor::new()
        .run_directory_all_transformations("data", vec![Vec::new(), Vec::new()])
        .unwrap();
    assert!(results.peak_zones.is_empty());
    assert!(results.hourly_patterns.is_empty());
    assert!(results.payment_analysis.is_empty());
}

#[test]
fn default_chunk_size() {
    assert_eq!(TaxiProcessor::new().chunk_size, 50_000);
    assert_eq!(TaxiProcessor::default().chunk_size, 50_000);
    assert_eq!(TaxiProcessor::with_chunk_size(7).chunk_size, 7);
}

#[test]
fn batch_source_folds_full_buffers_and_the_rest() {
    let mut source = BatchSource::new(2);
    for i in 0..6 {
        let mut trip = sample_trip();
        if i == 1 {
            trip.vendor_id = 9;
        }
        source.accept(trip);
    }
    // Five valid records in chunks of two: two full batches and one rest.
    let accumulators: Vec<MultiAccumulator> = source.finish();
    assert_eq!(accumulators.len(), 3);
    assert_eq!(accumulators[0].payment_analysis_acc.1, 2);
    assert_eq!(accumulators[1].payment_analysis_acc.1, 2);
    assert_eq!(accumulators[2].payment_analysis_acc.1, 1);
}

#[test]
fn batch_source_without_rest() {
    let mut source = BatchSource::new(2);
    for _ in 0..4 {
        source.accept(sample_trip());
    }
    assert_eq!(source.finish().len(), 2);
}

#[test]
fn batch_source_with_chunk_size_zero_folds_after_every_record() {
    let mut source = BatchSource::new(0);
    let mut rejected = sample_trip();
    rejected.total_amount = -1;
    source.accept(sample_trip());
    source.accept(rejected);
    source.accept(sample_trip());
    let accumulators = source.finish();
    assert_eq!(accumulators.len(), 3);
    assert!(accumulators[1].peak_zones_acc.is_empty());
    assert!(accumulators[1].hourly_patterns_acc.is_empty());
    assert!(accumulators[1].payment_analysis_acc.0.is_empty());
    assert!(!accumulators[2].hourly_patterns_acc.is_empty());
}

#[test]
fn batch_source_drops_invalid_records() {
    let mut source = BatchSource::new(10);
    let mut negative_distance = sample_trip();
    negative_distance.trip_distance = -1;
    let mut unknown_vendor = sample_trip();
    unknown_vendor.vendor_id = 0;
    let mut negative_total = sample_trip();
    negative_total.total_amount = -1;
    source.accept(negative_distance);
    source.accept(unknown_vendor);
    source.accept(negative_total);
    assert!(source.finish().is_empty());
}

#[test]
fn peak_zone_two_trips_in_one_key() {
    let mut analyzer = PeakZoneAnalyzer::default();
    let first = sample_trip();
    let mut second = sample_trip();
    second.total_amount = micros(25.0);
    let one = analyzer.process_batch(&[first]).unwrap();
    let other = analyzer.process_batch(&[second]).unwrap();
    analyzer.merge_accumulators(vec![one, other]).unwrap();
    let rows = analyzer.finalize().unwrap();
    assert_eq!(rows.len(), 1);
    assert_eq!(rows[0].zone_name, "Manhattan");
    assert_eq!(rows[0].hour, 12);
    assert_eq!(rows[0].trip_count, 2);
    assert_eq!(rows[0].total_revenue, 4430);
    assert_eq!(rows[0].avg_fare, 1500);
    assert_eq!(rows[0].center_lat, 4075);
    assert_eq!(rows[0].center_lng, -7398);
}

#[test]
fn peak_zone_centre_averages_over_the_points_summed() {
    // Three trips under one key, of which two gave their coordinates.
    let mut table = TallyTable::new(216);
    let tally = Tally {
        trips: 3,
        points: 2,
        first: micros(30.0) as i128,
        second: micros(24.0) as i128,
        third: micros(81.0) as i128,
        fourth: micros(-148.0) as i128,
    };
    table.add_at(2 * 24 + 7, &tally);
    let mut analyzer = PeakZoneAnalyzer::default();
    analyzer.merge_accumulators(vec![table]).unwrap();
    let rows = analyzer.finalize().unwrap();
    assert_eq!(rows.len(), 1);
    assert_eq!(rows[0].zone_name, "Manhattan");
    assert_eq!(rows[0].hour, 7);
    assert_eq!(rows[0].trip_count, 3);
    assert_eq!(rows[0].total_revenue, 3000);
    assert_eq!(rows[0].avg_fare, 800);
    assert_eq!(rows[0].center_lat, 4050);
    assert_eq!(rows[0].center_lng, -7400);
}

#[test]
fn peak_zone_drops_zero_coordinates_and_free_trips() {
    let mut analyzer = PeakZoneAnalyzer::default();
    let mut no_latitude = sample_trip();
    no_latitude.pickup_latitude = 0;
    let mut no_longitude = sample_trip();
    no_longitude.pickup_longitude = 0;
    let mut free = sample_trip();
    free.total_amount = 0;
    let accumulator = analyzer.process_batch(&[no_latitude, no_longitude, free]).unwrap();
    assert!(accumulator.is_empty());
}

#[test]
fn peak_zone_counts_trips_outside_the_city_as_unknown() {
    let mut analyzer = PeakZoneAnalyzer::default();
    let mut far = sample_trip();
    far.pickup_latitude = micros(50.0);
    far.pickup_longitude = micros(-80.0);
    let accumulator = analyzer.process_batch(&[far]).unwrap();
    analyzer.merge_accumulators(vec![accumulator]).unwrap();
    let rows = analyzer.finalize().unwrap();
    assert_eq!(rows.len(), 1);
    assert_eq!(rows[0].zone_name, "Unknown");
}

/// Sixty keys: three zones at twenty hours each, with revenue that falls
/// from the first key to the last.
fn sixty_keys() -> Vec<TaxiTrip> {
    let places = [(40.75, -73.98), (40.645, -73.78), (40.65, -73.95)];
    let mut trips = Vec::new();
    for key in 0..60i64 {
        let mut trip = sample_trip();
        let (lat, lng) = places[(key % 3) as usize];
        trip.pickup_latitude = micros(lat);
        trip.pickup_longitude = micros(lng);
        trip.pickup_datetime = at((key / 3) as u32, 0);
        trip.dropoff_datetime = trip.pickup_datetime + 600;
        trip.total_amount = micros(1000.0) - key * 1_000_000;
        trips.push(trip);
    }
    trips
}

#[test]
fn peak_zone_keeps_the_fifty_best() {
    let mut analyzer = PeakZoneAnalyzer::default();
    let mut trips = sixty_keys();
    trips.reverse();
    let accumulator = analyzer.process_batch(&trips).unwrap();
    analyzer.merge_accumulators(vec![accumulator]).unwrap();
    let rows = analyzer.finalize().unwrap();
    assert_eq!(rows.len(), 50);
    for (rank, row) in rows.iter().enumerate() {
        assert_eq!(row.total_revenue, 100_000 - 100 * rank as i128);
        assert_eq!(row.hour, (rank / 3) as u32);
        assert_eq!(row.trip_count, 1);
    }
    assert_eq!(rows[0].zone_name, "Manhattan");
    assert_eq!(rows[1].zone_name, "JFK_Airport");
    assert_eq!(rows[2].zone_name, "Brooklyn");
}

#[test]
fn peak_zone_orders_equal_revenue_by_zone_then_hour() {
    let mut analyzer = PeakZoneAnalyzer::default();
    let mut brooklyn = sample_trip();
    brooklyn.pickup_latitude = micros(40.65);
    brooklyn.pickup_longitude = micros(-73.95);
    let mut late = sample_trip();
    late.pickup_datetime = at(20, 0);
    let mut airport = sample_trip();
    airport.pickup_latitude = micros(40.645);
    airport.pickup_longitude = micros(-73.78);
    let mut best = sample_trip();
    best.pickup_datetime = at(23, 0);
    best.total_amount = micros(19.31);
    let trips = [brooklyn, late, sample_trip(), airport, best];
    let accumulator = analyzer.process_batch(&trips).unwrap();
    analyzer.merge_accumulators(vec![accumulator]).unwrap();
    let rows = analyzer.finalize().unwrap();
    let order: Vec<(String, u32)> =
        rows.iter().map(|row| (row.zone_name.clone(), row.hour)).collect();
    assert_eq!(
        order,
        vec![
            ("Manhattan".to_string(), 23),
            ("JFK_Airport".to_string(), 12),
            ("Manhattan".to_string(), 12),
            ("Manhattan".to_string(), 20),
            ("Brooklyn".to_string(), 12),
        ]
    );
}

#[test]
fn peak_zone_ranks_by_rounded_revenue() {
    // 10.004 and 10.001 both round to 10.00: the earlier key stays first.
    let mut analyzer = PeakZoneAnalyzer::default();
    let mut early = sample_trip();
    early.pickup_datetime = at(3, 0);
    early.total_amount = 10_001_000;
    let mut late = sample_trip();
    late.pickup_datetime = at(4, 0);
    late.total_amount = 10_004_000;
    let accumulator = analyzer.process_batch(&[late, early]).unwrap();
    analyzer.merge_accumulators(vec![accumulator]).unwrap();
    let rows = analyzer.finalize().unwrap();
    assert_eq!(rows[0].hour, 3);
    assert_eq!(rows[1].hour, 4);
    assert_eq!(rows[0].total_revenue, 1000);
    assert_eq!(rows[1].total_revenue, 1000);
}

#[test]
fn payment_counts_only_positive_types() {
    let mut analyzer = PaymentAnalyzer::default();
    let mut untyped = sample_trip();
    untyped.payment_type = 0;
    let (table, count) = analyzer.process_batch(&[sample_trip(), untyped]).unwrap();
    assert_eq!(count, 1);
    assert!(!table.is_empty());
    analyzer.merge_accumulators(vec![(table, count)]).unwrap();
    let rows = analyzer.finalize().unwrap();
    assert_eq!(rows.len(), 1);
    assert_eq!(rows[0].payment_type, 1);
    assert_eq!(rows[0].trip_count, 1);
    assert_eq!(rows[0].percentage, 10_000);
}

#[test]
fn payment_drops_negative_types_and_free_trips() {
    let mut analyzer = PaymentAnalyzer::default();
    let mut negative = sample_trip();
    negative.payment_type = -2;
    let mut free = sample_trip();
    free.total_amount = 0;
    let (table, count) = analyzer.process_batch(&[negative, free]).unwrap();
    assert_eq!(count, 0);
    assert!(table.is_empty());
}

#[test]
fn payment_shares_add_up() {
    let mut analyzer = PaymentAnalyzer::default();
    let mut cash = sample_trip();
    cash.payment_type = 2;
    cash.total_amount = micros(10.0);
    let accumulator = analyzer.process_batch(&[cash, sample_trip()]).unwrap();
    analyzer.merge_accumulators(vec![accumulator]).unwrap();
    let rows = analyzer.finalize().unwrap();
    assert_eq!(rows.len(), 2);
    assert_eq!(rows[0].payment_type, 1);
    assert_eq!(rows[0].total_amount, 1930);
    assert_eq!(rows[0].avg_amount, 1930);
    assert_eq!(rows[0].percentage, 5000);
    assert_eq!(rows[1].payment_type, 2);
    assert_eq!(rows[1].total_amount, 1000);
    assert_eq!(rows[1].percentage, 5000);
    assert_eq!(rows.iter().map(|row| row.percentage).sum::<i128>(), 10_000);
}

#[test]
fn payment_share_is_rounded() {
    let mut analyzer = PaymentAnalyzer::default();
    let mut cash = sample_trip();
    cash.payment_type = 2;
    let mut disputed = sample_trip();
    disputed.payment_type = 4;
    disputed.total_amount = micros(0.01);
    let trips = [sample_trip(), disputed, cash, sample_trip(), sample_trip(), sample_trip()];
    let accumulator = analyzer.process_batch(&trips).unwrap();
    analyzer.merge_accumulators(vec![accumulator]).unwrap();
    let rows = analyzer.finalize().unwrap();
    let shares: Vec<(i32, usize, i128)> =
        rows.iter().map(|row| (row.payment_type, row.trip_count, row.percentage)).collect();
    assert_eq!(shares, vec![(1, 4, 6667), (2, 1, 1667), (4, 1, 1667)]);
    assert_eq!(rows[0].total_amount, 7720);
    assert_eq!(rows[0].avg_amount, 1930);
    assert_eq!(rows[2].total_amount, 1);
    assert_eq!(rows[2].avg_amount, 1);
}

#[test]
fn payment_share_is_zero_where_nothing_was_counted() {
    let mut analyzer = PaymentAnalyzer::default();
    let (table, _) = analyzer.process_batch(&[sample_trip()]).unwrap();
    analyzer.merge_accumulators(vec![(table, 0)]).unwrap();
    let rows = analyzer.finalize().unwrap();
    assert_eq!(rows.len(), 1);
    assert_eq!(rows[0].percentage, 0);
}

#[test]
fn payment_merge_adds_tables_and_counts() {
    let mut analyzer = PaymentAnalyzer::default();
    let mut cash = sample_trip();
    cash.payment_type = 2;
    let mut voided = sample_trip();
    voided.payment_type = 6;
    let one = analyzer.process_batch(&[cash.clone(), voided, sample_trip()]).unwrap();
    let other = analyzer.process_batch(&[sample_trip(), cash]).unwrap();
    analyzer.merge_accumulators(vec![one]).unwrap();
    analyzer.merge_accumulators(vec![other]).unwrap();
    let rows = analyzer.finalize().unwrap();
    let counts: Vec<(i32, usize, i128)> =
        rows.iter().map(|row| (row.payment_type, row.trip_count, row.percentage)).collect();
    assert_eq!(counts, vec![(1, 2, 4000), (2, 2, 4000), (6, 1, 2000)]);
}

#[test]
fn hourly_average_duration() {
    let mut analyzer = HourlyPatternAnalyzer::default();
    let accumulator = analyzer.process_batch(&[sample_trip()]).unwrap();
    analyzer.merge_accumulators(vec![accumulator]).unwrap();
    let rows = analyzer.finalize().unwrap();
    assert_eq!(rows.len(), 1);
    assert_eq!(rows[0].hour, 12);
    assert_eq!(rows[0].avg_duration, 3000);
    assert_eq!(rows[0].avg_distance, 500);
    assert_eq!(rows[0].avg_fare, 1500);
}

#[test]
fn hourly_averages_are_rounded() {
    let mut analyzer = HourlyPatternAnalyzer::default();
    let mut short = sample_trip();
    short.trip_distance = micros(2.505);
    short.fare_amount = micros(7.51);
    short.dropoff_datetime = short.pickup_datetime + 10 * 60 + 59;
    let mut long = sample_trip();
    long.trip_distance = micros(5.0);
    long.dropoff_datetime = long.pickup_datetime + 21 * 60;
    let mut third = sample_trip();
    third.trip_distance = micros(1.0);
    third.dropoff_datetime = third.pickup_datetime + 60;
    let accumulator = analyzer.process_batch(&[short, long, third]).unwrap();
    analyzer.merge_accumulators(vec![accumulator]).unwrap();
    let rows = analyzer.finalize().unwrap();
    assert_eq!(rows[0].trip_count, 3);
    // 8.505 / 3 = 2.835, 37.51 / 3 = 12.5033.., 32 / 3 = 10.666..
    assert_eq!(rows[0].avg_distance, 284);
    assert_eq!(rows[0].avg_fare, 1250);
    assert_eq!(rows[0].avg_duration, 1067);
}

#[test]
fn hourly_keeps_negative_durations() {
    let mut analyzer = HourlyPatternAnalyzer::default();
    let mut backwards = sample_trip();
    backwards.dropoff_datetime = backwards.pickup_datetime - 90;
    let accumulator = analyzer.process_batch(&[backwards, sample_trip()]).unwrap();
    analyzer.merge_accumulators(vec![accumulator]).unwrap();
    let rows = analyzer.finalize().unwrap();
    assert_eq!(rows[0].trip_count, 2);
    assert_eq!(rows[0].avg_duration, 1450);
}

#[test]
fn hourly_drops_free_trips() {
    let mut analyzer = HourlyPatternAnalyzer::default();
    let mut free = sample_trip();
    free.total_amount = 0;
    let mut negative = sample_trip();
    negative.trip_distance = -5;
    assert!(analyzer.process_batch(&[free, negative]).unwrap().is_empty());
}

#[test]
fn hourly_rows_ascend_by_hour() {
    let mut analyzer = HourlyPatternAnalyzer::default();
    let mut trips = Vec::new();
    for hour in [23u32, 0, 17, 5, 12, 5] {
        let mut trip = sample_trip();
        trip.pickup_datetime = at(hour, 15);
        trip.dropoff_datetime = at(hour, 45);
        trips.push(trip);
    }
    let accumulator = analyzer.process_batch(&trips).unwrap();
    analyzer.merge_accumulators(vec![accumulator]).unwrap();
    let rows = analyzer.finalize().unwrap();
    let hours: Vec<(u32, usize)> = rows.iter().map(|row| (row.hour, row.trip_count)).collect();
    assert_eq!(hours, vec![(0, 1), (5, 2), (12, 1), (17, 1), (23, 1)]);
}

#[test]
fn process_batch_leaves_the_aggregator_empty() {
    let mut analyzer = HourlyPatternAnalyzer::default();
    let _ = analyzer.process_batch(&[sample_trip()]).unwrap();
    assert!(analyzer.finalize().unwrap().is_empty());
}

#[test]
fn multi_analyzer_gives_all_three_reports() {
    let mut analyzer = MultiAnalyzer::default();
    let accumulator = analyzer.process_batch(&[sample_trip(), sample_trip()]).unwrap();
    assert_eq!(accumulator.payment_analysis_acc.1, 2);
    analyzer.merge_accumulators(vec![accumulator, MultiAccumulator::default()]).unwrap();
    let results = analyzer.finalize().unwrap();
    assert_eq!(results.peak_zones.len(), 1);
    assert_eq!(results.peak_zones[0].total_revenue, 3860);
    assert_eq!(results.hourly_patterns.len(), 1);
    assert_eq!(results.hourly_patterns[0].trip_count, 2);
    assert_eq!(results.payment_analysis.len(), 1);
    assert_eq!(results.payment_analysis[0].percentage, 10_000);
}

/// A table whose first key has counted as many trips as a count can hold.
fn full_table(size: usize, points: usize) -> TallyTable {
    let mut table = TallyTable::new(size);
    let tally = Tally { trips: usize::MAX, points, first: 0, second: 0, third: 0, fourth: 0 };
    table.add_at(0, &tally);
    table
}

#[test]
fn merge_refuses_counts_out_of_range() {
    let mut analyzer = HourlyPatternAnalyzer::default();
    analyzer.merge_accumulators(vec![full_table(24, 0)]).unwrap();
    let one = analyzer.process_batch(&[sample_trip()]).unwrap();
    let mut midnight = sample_trip();
    midnight.pickup_datetime = at(0, 0);
    let other = analyzer.process_batch(&[midnight]).unwrap();
    match analyzer.merge_accumulators(vec![one, other]) {
        Err(ProcessingError::Processing { message }) => {
            assert_eq!(message, "Trip count out of range");
        }
        _ => panic!("the merge must fail"),
    }
    // Nothing was added, not even the table that came before the failure.
    let rows = analyzer.finalize().unwrap();
    assert_eq!(rows.len(), 1);
    assert_eq!(rows[0].hour, 0);
    assert_eq!(rows[0].trip_count, usize::MAX);
}

#[test]
fn payment_merge_refuses_counts_out_of_range() {
    let mut analyzer = PaymentAnalyzer::default();
    let (table, _) = analyzer.process_batch(&[sample_trip()]).unwrap();
    analyzer.merge_accumulators(vec![(table, usize::MAX)]).unwrap();
    let one = analyzer.process_batch(&[sample_trip()]).unwrap();
    assert!(analyzer.merge_accumulators(vec![one]).is_err());
    let rows = analyzer.finalize().unwrap();
    assert_eq!(rows[0].trip_count, 1);

    let mut analyzer = PaymentAnalyzer::default();
    let mut table = SparseTable::new();
    let full = Tally { trips: usize::MAX, points: 0, first: 0, second: 0, third: 0, fourth: 0 };
    table.add_at(3, &full);
    analyzer.merge_accumulators(vec![(table, 0)]).unwrap();
    let mut disputed = sample_trip();
    disputed.payment_type = 3;
    let one = analyzer.process_batch(&[sample_trip()]).unwrap();
    let other = analyzer.process_batch(&[disputed]).unwrap();
    assert!(analyzer.merge_accumulators(vec![one, other]).is_err());
    let rows = analyzer.finalize().unwrap();
    assert_eq!(rows.len(), 1);
    assert_eq!(rows[0].payment_type, 3);
}

#[test]
fn multi_merge_refuses_counts_out_of_range() {
    let mut analyzer = MultiAnalyzer::default();
    let mut full = MultiAccumulator::default();
    full.hourly_patterns_acc = full_table(24, 0);
    analyzer.merge_accumulators(vec![full]).unwrap();
    let mut midnight = sample_trip();
    midnight.pickup_datetime = at(0, 0);
    let more = analyzer.process_batch(&[midnight]).unwrap();
    assert!(analyzer.merge_accumulators(vec![more]).is_err());
    let results = analyzer.finalize().unwrap();
    assert!(results.peak_zones.is_empty());
    assert!(results.payment_analysis.is_empty());
    assert_eq!(results.hourly_patterns.len(), 1);
}

#[test]
fn consolidate_refuses_counts_out_of_range() {
    let mut one = MultiAccumulator::default();
    one.peak_zones_acc = full_table(216, usize::MAX);
    let mut other = MultiAccumulator::default();
    other.peak_zones_acc = full_table(216, usize::MAX);
    assert!(TaxiProcessor::consolidate(vec![one, other]).is_err());
}

#[test]
fn sparse_table_keeps_keys_in_order() {
    let mut table = SparseTable::new();
    assert!(table.is_empty());
    assert_eq!(table.len(), 0);
    let one = Tally { trips: 1, points: 0, first: 5, second: 0, third: 0, fourth: 0 };
    for key in [7, -3, 5, 7, 0, -3, 7] {
        table.add_at(key, &one);
    }
    assert_eq!(table.len(), 4);
    let listed: Vec<(i32, usize, i128)> = (0..4)
        .map(|place| {
            let entry = table.entry(place);
            (entry.key, entry.tally.trips, entry.tally.first)
        })
        .collect();
    assert_eq!(listed, vec![(-3, 2, 10), (0, 1, 5), (5, 1, 5), (7, 3, 15)]);
    assert_eq!(table.trips_at(7), 3);
    assert_eq!(table.trips_at(6), 0);
    let twin = table.copy();
    assert!(table.absorb(&twin));
    assert_eq!(table.trips_at(7), 6);
    assert_eq!(table.len(), 4);
}

#[test]
fn dense_table_adds_key_by_key() {
    let mut table = TallyTable::new(3);
    assert!(table.is_empty());
    assert_eq!(table.len(), 3);
    let tally = Tally { trips: 2, points: 1, first: -4, second: 3, third: 2, fourth: 1 };
    table.add_at(1, &tally);
    assert!(!table.is_empty());
    let mut sum = table.copy();
    assert!(sum.can_absorb(&table));
    assert!(sum.absorb(&table));
    assert!(sum.absorb_all(&vec![table.copy(), table.copy()]));
    let at_one = sum.get(1);
    assert_eq!((at_one.trips, at_one.points), (8, 4));
    assert_eq!((at_one.first, at_one.second, at_one.third, at_one.fourth), (-16, 12, 8, 4));
    assert_eq!(sum.get(0).trips, 0);
    assert_eq!(tally.plus(&Tally::zero()).first, -4);
}

#[test]
fn zone_boxes_hold_their_bounds() {
    assert_eq!(get_zone_id(40_635_000, -73_795_000), "JFK_Airport");
    assert_eq!(get_zone_id(40_655_000, -73_755_000), "JFK_Airport");
    assert_eq!(get_zone_id(40_634_999, -73_795_000), "Queens");
    assert_eq!(get_zone_id(40_400_000, -74_300_000), "NYC_Other");
    assert_eq!(get_zone_id(41_000_000, -73_700_000), "NYC_Other");
}

#[test]
fn zone_inside_the_coarse_box_is_never_unknown() {
    // Inside the coarse box around the city, but in none of the named boxes.
    assert_eq!(get_zone_id(micros(41.2), micros(-74.5)), "NYC_Other");
    assert_eq!(get_zone_id(41_000_001, -73_700_000), "NYC_Other");
    // The bounds of the coarse box belong to it.
    assert_eq!(get_zone_id(40_000_000, -75_000_000), "NYC_Other");
    assert_eq!(get_zone_id(41_500_000, -73_000_000), "NYC_Other");
    // Just outside of it.
    assert_eq!(get_zone_id(39_999_999, -75_000_000), "Unknown");
    assert_eq!(get_zone_id(40_000_000, -75_000_001), "Unknown");
    assert_eq!(get_zone_id(41_500_001, -73_000_000), "Unknown");
    assert_eq!(get_zone_id(41_500_000, -72_999_999), "Unknown");
    assert_eq!(classify_zone(micros(41.2), micros(-74.5)), Zone::NycOther);
}

#[test]
fn zone_airports_come_before_boroughs() {
    // Inside LaGuardia's box and inside the boxes of the Bronx and Queens.
    assert_eq!(get_zone_id(micros(40.785), micros(-73.86)), "LaGuardia_Airport");
    // On the common edge of LaGuardia and Manhattan.
    assert_eq!(get_zone_id(micros(40.76), micros(-73.895)), "LaGuardia_Airport");
    // Inside Manhattan's and Brooklyn's boxes.
    assert_eq!(get_zone_id(micros(40.70), micros(-74.0)), "Manhattan");
    // Inside the Bronx's and Queens's boxes.
    assert_eq!(get_zone_id(micros(40.80), micros(-73.80)), "Bronx");
    // Inside Brooklyn's and Queens's boxes.
    assert_eq!(get_zone_id(micros(40.60), micros(-73.84)), "Brooklyn");
}

#[test]
fn zone_one_zero_coordinate_is_unknown() {
    assert_eq!(get_zone_id(0, micros(-73.98)), "Unknown");
    assert_eq!(get_zone_id(micros(40.75), 0), "Unknown");
}

#[test]
fn zones_are_numbered_in_the_order_of_testing() {
    let names = [
        "JFK_Airport",
        "LaGuardia_Airport",
        "Manhattan",
        "Bronx",
        "Brooklyn",
        "Queens",
        "Staten_Island",
        "NYC_Other",
        "Unknown",
    ];
    for (index, name) in names.iter().enumerate() {
        let zone = Zone::at(index);
        assert_eq!(zone.index(), index);
        assert_eq!(zone.name(), *name);
    }
    assert_eq!(Zone::at(9), Zone::Unknown);
    assert_eq!(classify_zone(micros(40.58), micros(-74.15)), Zone::StatenIsland);
}

#[test]
fn validation_names_the_first_rule_broken() {
    let mut trip = sample_trip();
    trip.trip_distance = -1;
    trip.vendor_id = 7;
    trip.total_amount = -1;
    assert_eq!(
        validate_trip(&trip).unwrap_err().to_string(),
        "Data validation error: Trip distance cannot be negative"
    );
    trip.trip_distance = 0;
    assert_eq!(
        validate_trip(&trip).unwrap_err().to_string(),
        "Data validation error: Invalid vendor ID: 7"
    );
    trip.vendor_id = -12;
    assert_eq!(
        validate_trip(&trip).unwrap_err().to_string(),
        "Data validation error: Invalid vendor ID: -12"
    );
    trip.vendor_id = 2;
    assert_eq!(
        validate_trip(&trip).unwrap_err().to_string(),
        "Data validation error: Total amount cannot be negative"
    );
    trip.total_amount = 0;
    assert!(validate_trip(&trip).is_ok());
}

#[test]
fn errors_are_rendered_with_their_kind() {
    let detail = || "x".to_string();
    assert_eq!(ProcessingError::Io { message: detail() }.to_string(), "IO error: x");
    assert_eq!(ProcessingError::Csv { message: detail() }.to_string(), "CSV parsing error: x");
    assert_eq!(
        ProcessingError::Validation { message: detail() }.to_string(),
        "Data validation error: x"
    );
    assert_eq!(
        ProcessingError::Processing { message: detail() }.to_string(),
        "Processing error: x"
    );
    assert_eq!(ProcessingError::Json { message: detail() }.to_string(), "JSON error: x");
}

#[test]
fn parse_datetime_gives_the_utc_timestamp() {
    assert_eq!(parse_datetime("2015-01-01 12:30:00").unwrap(), at(12, 30));
    assert_eq!(parse_datetime("1970-01-01 00:00:00").unwrap(), 0);
    assert_eq!(parse_datetime("1969-12-31 23:59:59").unwrap(), -1);
}

#[test]
fn parse_datetime_names_the_text_that_it_refuses() {
    assert_eq!(
        parse_datetime("invalid-date").unwrap_err().to_string(),
        "Data validation error: Invalid datetime format: invalid-date"
    );
    assert!(parse_datetime("2015-02-30 12:30:00").is_err());
    assert!(parse_datetime("2015-01-01 24:00:00").is_err());
    assert!(parse_datetime("2015-01-01").is_err());
}

#[test]
fn hour_and_weekday_agree_with_the_calendar() {
    for timestamp in [0i64, -1, 1, 86_399, 86_400, -86_400, -86_401, at(12, 0), 4_102_444_799, -2_208_988_801] {
        let moment = Utc.timestamp_opt(timestamp, 0).unwrap();
        let mut trip = sample_trip();
        trip.pickup_datetime = timestamp;
        assert_eq!(hour_of_day(timestamp), moment.hour());
        assert_eq!(get_hour_of_day(&trip).unwrap() as u32, moment.hour());
        assert_eq!(
            get_day_of_week(&trip).unwrap() as u32,
            moment.weekday().num_days_from_monday()
        );
    }
    let mut trip = sample_trip();
    trip.pickup_datetime = at(12, 0);
    assert_eq!(get_day_of_week(&trip).unwrap(), 3);
}

#[test]
fn durations_are_whole_minutes_toward_zero() {
    assert_eq!(trip_minutes(0, 59), 0);
    assert_eq!(trip_minutes(0, 60), 1);
    assert_eq!(trip_minutes(0, 119), 1);
    assert_eq!(trip_minutes(59, 0), 0);
    assert_eq!(trip_minutes(90, 0), -1);
    assert_eq!(trip_minutes(120, 0), -2);
    assert_eq!(trip_minutes(i64::MIN, i64::MAX), 307_445_734_561_825_860);
    assert_eq!(trip_minutes(i64::MAX, i64::MIN), -307_445_734_561_825_860);
    for (pickup, dropoff) in [(0i64, 59i64), (100, 10), (10, 100), (-500, 700)] {
        let from = Utc.timestamp_opt(pickup, 0).unwrap();
        let to = Utc.timestamp_opt(dropoff, 0).unwrap();
        assert_eq!(trip_minutes(pickup, dropoff), (to - from).num_minutes());
    }
    let mut trip = sample_trip();
    trip.dropoff_datetime = trip.pickup_datetime - 61;
    assert_eq!(calculate_trip_duration(&trip).unwrap(), -1);
}

#[test]
fn rounding_goes_to_the_nearest_and_halves_away_from_zero() {
    assert_eq!(round_to_2_decimals(0), 0);
    assert_eq!(round_to_2_decimals(4_999), 0);
    assert_eq!(round_to_2_decimals(5_000), 1);
    assert_eq!(round_to_2_decimals(-4_999), 0);
    assert_eq!(round_to_2_decimals(-5_000), -1);
    assert_eq!(round_to_2_decimals(5_555_000), 556);
    assert_eq!(round_to_2_decimals(-5_555_000), -556);
    assert_eq!(round_to_2_decimals(5_554_999), 555);
    assert_eq!(round_to_2_decimals(i64::MAX), 922_337_203_685_478);
    assert_eq!(round_to_2_decimals(i64::MIN), -922_337_203_685_478);
    assert_eq!(rounded_quotient(15, 10), 2);
    assert_eq!(rounded_quotient(-15, 10), -2);
    assert_eq!(rounded_quotient(14, 10), 1);
    assert_eq!(rounded_quotient(7, 1), 7);
    assert_eq!(rounded_quotient(i128::MIN, 1), i128::MIN);
    assert_eq!(rounded_quotient(i128::MAX, 2), 1 << 126);
    assert_eq!(rounded_ratio(1, 10_000, 3), 3333);
    assert_eq!(rounded_ratio(2, 10_000, 3), 6667);
    assert_eq!(rounded_ratio(-2, 10_000, 3), -6667);
    assert_eq!(rounded_ratio(1, 100, 8), 13);
    assert_eq!(rounded_ratio(-1, 100, 8), -13);
    assert_eq!(rounded_ratio(32, 100, 3), 1067);
    assert_eq!(magnitude(i128::MIN), 1u128 << 127);
    assert_eq!(magnitude(-3), 3);
    assert_eq!(magnitude(3), 3);
}

#[test]
fn reversed_turns_the_order() {
    assert_eq!(reversed(vec![1, 2, 3]), vec![3, 2, 1]);
    assert_eq!(reversed(Vec::<u8>::new()), Vec::<u8>::new());
}

#[test]
fn numbers_are_written_in_decimal() {
    assert_eq!(decimal(0), "0");
    assert_eq!(decimal(7), "7");
    assert_eq!(decimal(10), "10");
    assert_eq!(decimal(-1), "-1");
    assert_eq!(decimal(1_203_405), "1203405");
    assert_eq!(decimal(i32::MAX), "2147483647");
    assert_eq!(decimal(i32::MIN), "-2147483648");
    for value in [-987_654_321, -100, -9, 9, 99, 100, 101, 65_536] {
        assert_eq!(decimal(value), value.to_string());
    }
}

#[test]
fn named_errors() {
    assert_eq!(count_overflow().to_string(), "Processing error: Trip count out of range");
    assert_eq!(
        empty_directory_error("in").to_string(),
        "Processing error: No CSV files found in directory: in"
    );
}
