//! One row of the peak-zone report.
use vstd::prelude::*;

verus! {

/// Revenue of one zone in one hour of the day. Money is in hundredths of a
/// dollar, the centre in hundredths of a degree.
#[derive(Debug)]
pub struct PeakZone {
    /// Name of the zone.
    pub zone_name: String,
    /// Hour of the day, 0 to 23.
    pub hour: u32,
    /// Number of trips picked up in the zone in that hour.
    pub trip_count: usize,
    /// Total revenue generated.
    pub total_revenue: i128,
    /// Average fare amount.
    pub avg_fare: i128,
    /// Latitude of the centre of the pickups.
    pub center_lat: i128,
    /// Longitude of the centre of the pickups.
    pub center_lng: i128,
}

/// A row of the peak-zone report as a plain value.
pub struct PeakZoneRow {
    pub zone_name: Seq<char>,
    pub hour: u32,
    pub trip_count: usize,
    pub total_revenue: i128,
    pub avg_fare: i128,
    pub center_lat: i128,
    pub center_lng: i128,
}

impl View for PeakZone {
    type V = PeakZoneRow;

    open spec fn view(&self) -> PeakZoneRow {
        PeakZoneRow {
            zone_name: self.zone_name@,
            hour: self.hour,
            trip_count: self.trip_count,
            total_revenue: self.total_revenue,
            avg_fare: self.avg_fare,
            center_lat: self.center_lat,
            center_lng: self.center_lng,
        }
    }
}

} // verus!
