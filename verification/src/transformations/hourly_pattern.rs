//! One row of the hourly report.
use vstd::prelude::*;

verus! {

/// What the trips picked up in one hour of the day look like on average.
/// The averages are in hundredths: of a mile, of a dollar, of a minute.
#[derive(Debug, Clone, Copy, PartialEq, Eq, Structural)]
pub struct HourlyPattern {
    /// Hour of the day, 0 to 23.
    pub hour: u32,
    /// Number of trips picked up in that hour.
    pub trip_count: usize,
    pub avg_distance: i128,
    pub avg_fare: i128,
    pub avg_duration: i128,
}

} // verus!
