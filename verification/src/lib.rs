//! Round-based earliest-arrival search over a fixed public-transit timetable.
//!
//! The timetable is an arena of entities addressed by stable integer
//! indices: a stop is referred to by its index into the stop table, a
//! route by its index into the route table.  The search engine computes,
//! for every reachable stop, the minimum arrival time achievable using at
//! most `k` vehicle boardings, for increasing `k`, through repeated
//! rounds of route scanning and footpath relaxation.

#![verifier::loop_isolation(false)]

pub mod data;
pub mod error;
pub mod journey;
pub mod raptor;

pub use error::ProcessingError;
