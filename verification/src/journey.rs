//! What it means for an arrival to be achievable: journeys exactly as
//! the timetable permits them, counted by vehicle boardings.
//!
//! A journey is a sequence of legs from the source: each `Ride` boards
//! a trip at one of its stops — reached by the departure time — and
//! alights at a later position; each `Walk` follows a transfer from the
//! stop reached so far.  `achievable` is the ground truth the search is
//! proved sound against.

use vstd::prelude::*;

verus! {

use crate::data::{route_pattern, Time, Timetable};

/// One leg of a journey, named by timetable indices.
pub enum Leg {
    /// Board trip `trip` of route `route` at position `board` and ride
    /// to position `alight`.
    Ride { route: int, trip: int, board: int, alight: int },
    /// Follow transfer `transfer`.
    Walk { transfer: int },
}

/// The stop a journey stands at after its legs; the source for an empty
/// journey.
pub open spec fn journey_end_stop(tt: Timetable, src: usize, legs: Seq<Leg>) -> usize
    decreases legs.len(),
{
    if legs.len() == 0 {
        src
    } else {
        match legs.last() {
            Leg::Ride { route, trip, board, alight } => tt.routes@[route].trips@[trip].stop_times@[
                alight
            ].stop,
            Leg::Walk { transfer } => tt.transfers@[transfer].to,
        }
    }
}

/// The earliest time the journey is done, as an unbounded integer.
pub open spec fn journey_end_time(tt: Timetable, src: usize, t0: Time, legs: Seq<Leg>) -> int
    decreases legs.len(),
{
    if legs.len() == 0 {
        t0 as int
    } else {
        match legs.last() {
            Leg::Ride { route, trip, board, alight } => tt.routes@[route].trips@[trip].stop_times@[
                alight
            ].arrival_time as int,
            Leg::Walk { transfer } => journey_end_time(tt, src, t0, legs.drop_last())
                + tt.transfers@[transfer].time,
        }
    }
}

/// How many vehicle boardings the journey uses.
pub open spec fn journey_boardings(legs: Seq<Leg>) -> nat
    decreases legs.len(),
{
    if legs.len() == 0 {
        0
    } else {
        match legs.last() {
            Leg::Ride { route, trip, board, alight } => journey_boardings(legs.drop_last()) + 1,
            Leg::Walk { transfer } => journey_boardings(legs.drop_last()),
        }
    }
}

/// Whether the legs form a journey the timetable permits, from `src`
/// starting at `t0`.
pub open spec fn journey_ok(tt: Timetable, src: usize, t0: Time, legs: Seq<Leg>) -> bool
    decreases legs.len(),
{
    if legs.len() == 0 {
        true
    } else {
        &&& journey_ok(tt, src, t0, legs.drop_last())
        &&& match legs.last() {
            Leg::Ride { route, trip, board, alight } => {
                &&& 0 <= route < tt.routes@.len()
                &&& 0 <= trip < tt.routes@[route].trips@.len()
                &&& 0 <= board < alight < tt.routes@[route].trips@[trip].stop_times@.len()
                &&& journey_end_stop(tt, src, legs.drop_last()) == tt.routes@[route].trips@[
                    trip
                ].stop_times@[board].stop
                &&& journey_end_time(tt, src, t0, legs.drop_last()) <= tt.routes@[route].trips@[
                    trip
                ].stop_times@[board].departure_time as int
            },
            Leg::Walk { transfer } => {
                &&& 0 <= transfer < tt.transfers@.len()
                &&& journey_end_stop(tt, src, legs.drop_last()) == tt.transfers@[transfer].from
            },
        }
    }
}

/// Stop `s` can be reached by time `t` from `src` at `t0` using at most
/// `k` vehicle boardings.
pub open spec fn achievable(tt: Timetable, src: usize, t0: Time, k: nat, s: usize, t: Time) -> bool {
    exists|legs: Seq<Leg>|
        {
            &&& #[trigger] journey_ok(tt, src, t0, legs)
            &&& journey_boardings(legs) <= k
            &&& journey_end_stop(tt, src, legs) == s
            &&& journey_end_time(tt, src, t0, legs) <= t
        }
}

/// The source is achievable with no boardings at any time from the
/// start onward.
pub proof fn lemma_achievable_source(tt: Timetable, src: usize, t0: Time, k: nat, t: Time)
    requires
        t0 <= t,
    ensures
        achievable(tt, src, t0, k, src, t),
{
    let legs = Seq::<Leg>::empty();
    assert(journey_ok(tt, src, t0, legs));
    assert(journey_boardings(legs) == 0);
}

/// Extending a journey by a ride: boarding trip `trip` of `route` at
/// position `board` — reached by its departure — and alighting at the
/// later position `alight` achieves that stop time's arrival with one
/// more boarding.
pub proof fn lemma_achievable_ride(
    tt: Timetable,
    src: usize,
    t0: Time,
    k: nat,
    route: int,
    trip: int,
    board: int,
    alight: int,
)
    requires
        0 <= route < tt.routes@.len(),
        0 <= trip < tt.routes@[route].trips@.len(),
        0 <= board < alight < tt.routes@[route].trips@[trip].stop_times@.len(),
        achievable(
            tt,
            src,
            t0,
            k,
            tt.routes@[route].trips@[trip].stop_times@[board].stop,
            tt.routes@[route].trips@[trip].stop_times@[board].departure_time,
        ),
    ensures
        achievable(
            tt,
            src,
            t0,
            k + 1,
            tt.routes@[route].trips@[trip].stop_times@[alight].stop,
            tt.routes@[route].trips@[trip].stop_times@[alight].arrival_time,
        ),
{
    let legs0 = choose|legs: Seq<Leg>|
        {
            &&& #[trigger] journey_ok(tt, src, t0, legs)
            &&& journey_boardings(legs) <= k
            &&& journey_end_stop(tt, src, legs) == tt.routes@[route].trips@[trip].stop_times@[
                board
            ].stop
            &&& journey_end_time(tt, src, t0, legs) <= tt.routes@[route].trips@[trip].stop_times@[
                board
            ].departure_time
        };
    let legs = legs0.push(Leg::Ride { route, trip, board, alight });
    assert(legs.drop_last() =~= legs0);
    assert(legs.last() == Leg::Ride { route, trip, board, alight });
    assert(journey_ok(tt, src, t0, legs));
    assert(journey_boardings(legs) <= k + 1);
}

/// Extending a journey by a footpath: being at the transfer's origin by
/// `t1` puts the traveller at its destination by `t1` plus its
/// duration, with no further boarding.
pub proof fn lemma_achievable_walk(
    tt: Timetable,
    src: usize,
    t0: Time,
    k: nat,
    transfer: int,
    t1: Time,
    t2: Time,
)
    requires
        0 <= transfer < tt.transfers@.len(),
        achievable(tt, src, t0, k, tt.transfers@[transfer].from, t1),
        t1 + tt.transfers@[transfer].time <= t2,
    ensures
        achievable(tt, src, t0, k, tt.transfers@[transfer].to, t2),
{
    let legs0 = choose|legs: Seq<Leg>|
        {
            &&& #[trigger] journey_ok(tt, src, t0, legs)
            &&& journey_boardings(legs) <= k
            &&& journey_end_stop(tt, src, legs) == tt.transfers@[transfer].from
            &&& journey_end_time(tt, src, t0, legs) <= t1
        };
    let legs = legs0.push(Leg::Walk { transfer });
    assert(legs.drop_last() =~= legs0);
    assert(legs.last() == Leg::Walk { transfer });
    assert(journey_ok(tt, src, t0, legs));
    assert(journey_boardings(legs) == journey_boardings(legs0));
}

/// Arriving earlier only helps, and the boarding allowance is only an
/// upper bound.
pub proof fn lemma_achievable_relax(
    tt: Timetable,
    src: usize,
    t0: Time,
    k: nat,
    k2: nat,
    s: usize,
    t: Time,
    t2: Time,
)
    requires
        achievable(tt, src, t0, k, s, t),
        k <= k2,
        t <= t2,
    ensures
        achievable(tt, src, t0, k2, s, t2),
{
    let legs0 = choose|legs: Seq<Leg>|
        {
            &&& #[trigger] journey_ok(tt, src, t0, legs)
            &&& journey_boardings(legs) <= k
            &&& journey_end_stop(tt, src, legs) == s
            &&& journey_end_time(tt, src, t0, legs) <= t
        };
    assert(journey_ok(tt, src, t0, legs0));
}

/// A pattern that visits no stop twice.
pub open spec fn pattern_no_dups(p: Seq<usize>) -> bool {
    forall|i: int, j: int| #![trigger p[i], p[j]] 0 <= i < j < p.len() ==> p[i] != p[j]
}

/// No route of the timetable visits a stop twice.
pub open spec fn no_repeated_stops(tt: Timetable) -> bool {
    forall|r: int| 0 <= r < tt.routes@.len()
        ==> pattern_no_dups(route_pattern(#[trigger] tt.routes@[r]))
}

/// In a duplicate-free pattern, every position is the first occurrence
/// of its stop.
pub proof fn lemma_first_pos_no_dups(p: Seq<usize>, q: int)
    requires
        pattern_no_dups(p),
        0 <= q < p.len(),
    ensures
        crate::data::first_pos(p, p[q]) == q,
{
    crate::data::lemma_first_pos(p, p[q]);
    let fp = crate::data::first_pos(p, p[q]);
    if fp < q {
        assert(p[fp] == p[q]);
        assert(false);
    }
    if fp > q {
        assert(p[q] != p[q]);
    }
}

} // verus!
