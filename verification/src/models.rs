//! Data model for a taxi trip record.
use vstd::prelude::*;

verus! {

/// One trip as read from a record feed.
///
/// Times are whole seconds since 1970-01-01 00:00:00 UTC. Distances (miles),
/// coordinates (degrees) and money (dollars) are stored in millionths of
/// their unit, so `19_300_000` is 19.30.
#[derive(Debug, Clone)]
pub struct TaxiTrip {
    /// Provider of the record: Creative Mobile Technologies (1) or VeriFone Inc. (2).
    pub vendor_id: i32,
    /// When the meter was engaged.
    pub pickup_datetime: i64,
    /// When the meter was disengaged.
    pub dropoff_datetime: i64,
    /// Number of passengers in the taxi.
    pub passenger_count: Option<i32>,
    /// Elapsed trip distance reported by the taximeter.
    pub trip_distance: i64,
    /// Longitude where the meter was engaged.
    pub pickup_longitude: i64,
    /// Latitude where the meter was engaged.
    pub pickup_latitude: i64,
    /// Final rate code in effect at the end of the trip.
    pub rate_code_id: i32,
    /// Whether the record was held in vehicle memory before it was sent.
    pub store_and_fwd_flag: Option<String>,
    /// Longitude where the meter was disengaged.
    pub dropoff_longitude: i64,
    /// Latitude where the meter was disengaged.
    pub dropoff_latitude: i64,
    /// Payment method: 1 credit card, 2 cash, 3 no charge, 4 dispute,
    /// 5 unknown, 6 voided trip.
    pub payment_type: i32,
    /// Time-and-distance fare calculated by the meter.
    pub fare_amount: i64,
    /// Rush hour and overnight charges.
    pub extra: i64,
    /// MTA tax triggered by the metered rate in use.
    pub mta_tax: i64,
    /// Tip, populated for credit card trips.
    pub tip_amount: i64,
    /// Total of all tolls paid in the trip.
    pub tolls_amount: i64,
    /// Improvement surcharge assessed at the flag drop.
    pub improvement_surcharge: Option<i64>,
    /// Total amount charged to passengers, cash tips excluded.
    pub total_amount: i64,
}

} // verus!
