//! Failures the search can report.
//!
//! A timetable handed to the engine is supposed to be internally
//! consistent: every trip of a route visits exactly the stops of the
//! route's pattern.  When a lookup contradicts that, the search aborts
//! with one of these values instead of returning a partial answer.

use vstd::prelude::*;

verus! {

/// An internal-consistency violation discovered while searching.
///
/// Stops are identified by their index in the timetable's stop table;
/// trips and routes by the identifier string they carry.
#[derive(Debug, Clone)]
pub enum ProcessingError {
    /// A stop that was expected on a trip (because it lies on the trip's
    /// route) could not be found among the trip's stop times.
    NoStopOnTrip { stop_id: usize, trip_id: String },
    /// A stop that was expected on a route could not be found in the
    /// route's stop sequence.  The route is identified fully: by its
    /// parent feed route id together with its pattern fingerprint,
    /// since several logical routes can share one parent.
    NoStopOnRoute { stop_id: usize, route_id: String, group_id: Vec<usize> },
    /// Two queue items were claimed related but share no common route.
    /// Declared for that diagnostic class; no present code path relates
    /// two queue items, so nothing constructs it today.
    UnrelatedQueueItems,
}

} // verus!
