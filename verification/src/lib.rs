//! Streaming aggregation of taxi trip records.
//!
//! Decimal quantities are carried as integers: dollars, miles and degrees in
//! millionths on the way in, report values in hundredths on the way out.
//! Trip records are folded batch by batch into small keyed tables of running
//! sums; tables are merged by pointwise addition and turned into report rows
//! only at the very end.
pub mod error;
pub mod models;
pub mod processors;
pub mod sparse;
pub mod tally;
pub mod transformations;
pub mod utils;

pub use models::TaxiTrip;
pub use processors::TaxiProcessor;
pub use transformations::{
    BatchAggregator, HourlyPattern, HourlyPatternAnalyzer, PaymentAnalyzer, PaymentStats, PeakZone,
    PeakZoneAnalyzer,
};
