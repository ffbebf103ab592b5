//! Evaluation tuning data: decoding training records, label counts of
//! aggregated placements, and the stable hash that splits them between
//! training and validation.

pub mod data;
pub mod dataset;
pub mod optimize;

pub use optimize::{TuneError, validate_config};
