//! One row of the payment report.
use vstd::prelude::*;

verus! {

/// How one payment type was used. Money is in hundredths of a dollar, the
/// share in hundredths of a percent.
#[derive(Debug, Clone, Copy, PartialEq, Eq, Structural)]
pub struct PaymentStats {
    /// Payment type: 1 credit card, 2 cash, 3 no charge, 4 dispute,
    /// 5 unknown, 6 voided trip.
    pub payment_type: i32,
    /// Number of trips paid this way.
    pub trip_count: usize,
    /// Total amount charged.
    pub total_amount: i128,
    /// Average amount charged per trip.
    pub avg_amount: i128,
    /// Share of the trips paid this way among all trips counted.
    pub percentage: i128,
}

} // verus!
