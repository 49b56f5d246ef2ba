//! The aggregators that turn batches of trips into reports.
pub mod batch_aggregator;
pub mod hourly_analyzer;
pub mod hourly_pattern;
pub mod multi_analyzer;
pub mod payment_analyzer;
pub mod payment_stats;
pub mod peak_zone;
pub mod peak_zone_analyzer;

pub use batch_aggregator::BatchAggregator;
pub use hourly_analyzer::HourlyPatternAnalyzer;
pub use hourly_pattern::HourlyPattern;
pub use multi_analyzer::{MultiAccumulator, MultiAnalysisResults, MultiAnalyzer};
pub use payment_analyzer::PaymentAnalyzer;
pub use payment_stats::PaymentStats;
pub use peak_zone::PeakZone;
pub use peak_zone_analyzer::PeakZoneAnalyzer;
