//! Temperature threshold monitor core: decoding of a sensor telemetry tree,
//! extraction of named temperature metrics, threshold storage with a
//! persisted on-disk form, and the per-cycle alerting decision.
//!
//! Temperatures and thresholds are exact decimal numbers (`Decimal`), so all
//! comparisons and the persisted form are free of rounding.

pub mod decimal;
pub mod json;
pub mod monitor;
pub mod parse;
pub mod source;
pub mod store;
pub mod thresholds;
pub mod tree;
