//! The decisions behind a machine-pressure verdict.
use vstd::prelude::*;

pub mod census;
pub mod kept;
pub mod number;
pub mod outside;
pub mod pressure;
pub mod rates;
pub mod sample;
pub mod sorting;
pub mod sys;
pub mod text;
pub mod time;

verus! {

/// Seconds between two samples.
pub const DEFAULT_SAMPLE_INTERVAL_SECS: u64 = 15;

/// Seconds between two censuses.
pub const DEFAULT_CENSUS_INTERVAL_SECS: u64 = 300;

} // verus!
