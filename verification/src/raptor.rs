//! The round-based search engine.
//!
//! Each round bounds journeys to one more vehicle boarding: the scan
//! queue is built from the stops improved in the previous round, every
//! queued route is walked once while a current trip is carried, and the
//! improvements are finally extended one footpath hop.

use vstd::prelude::*;

verus! {

use crate::data::{
    first_pos, on_pattern, route_consistent, route_pattern, stop_on_some_route, stop_touchable,
    trip_arr, trip_dep, trip_has_stop, trip_pattern, Queue, QueueItem, Route, Time, Timetable,
};
use crate::error::ProcessingError;
use crate::journey::{
    achievable, lemma_achievable_ride, lemma_achievable_relax, lemma_achievable_source,
    lemma_achievable_walk, lemma_first_pos_no_dups, no_repeated_stops, pattern_no_dups,
};

/// The premises under which the search's answers are proved achievable:
/// the timetable is pattern-homogeneous, and no route visits a stop
/// twice.
///
/// The duplicate-free premise is flagged deliberately: on a loop route
/// such as one visiting A, B, then A again, the scan's lookups go to a
/// stop's first visit, so alighting at the second visit of A records
/// the first visit's arrival — a value no journey boarded later
/// achieves.  Soundness is therefore proved only for timetables whose
/// routes visit each stop once.
pub open spec fn sound_premises(tt: Timetable) -> bool {
    tt.consistent() && no_repeated_stops(tt)
}

/// The diagnostic names a real inconsistency of the timetable: some
/// trip, named by its id, fails to visit a stop that lies on its own
/// route's stop sequence.
pub open spec fn diagnosed_inconsistency(tt: Timetable, e: ProcessingError) -> bool {
    e matches ProcessingError::NoStopOnTrip { stop_id, trip_id } && (exists|ri: int, j: int|
        0 <= ri < tt.routes@.len() && 0 <= j < tt.routes@[ri].trips@.len() && (
        #[trigger] tt.routes@[ri].trips@[j]).id == trip_id && on_pattern(
            route_pattern(tt.routes@[ri]),
            stop_id,
        ) && !trip_has_stop(tt.routes@[ri].trips@[j], stop_id))
}

/// A scan arrival is witnessed by a concrete alighting: a trip of the
/// timetable whose recorded arrival it is, boarded earlier on the same
/// trip at a stop reached in the previous round by the departure.
pub open spec fn scan_entry_witnessed(
    tt: Timetable,
    prev: Seq<Option<Time>>,
    scan: Seq<Option<Time>>,
    s: int,
) -> bool {
    match scan[s] {
        Some(v) => exists|ri: int, j: int, b: int, a: int|
            #![trigger tt.routes@[ri].trips@[j].stop_times@[b], tt.routes@[ri].trips@[j].stop_times@[a]]
            {
                &&& 0 <= ri < tt.routes@.len()
                &&& 0 <= j < tt.routes@[ri].trips@.len()
                &&& 0 <= b < a < tt.routes@[ri].trips@[j].stop_times@.len()
                &&& tt.routes@[ri].trips@[j].stop_times@[a].stop == s
                &&& tt.routes@[ri].trips@[j].stop_times@[a].arrival_time == v
                &&& (match prev[tt.routes@[ri].trips@[j].stop_times@[b].stop as int] {
                    Some(pv) => tt.routes@[ri].trips@[j].stop_times@[b].departure_time >= pv,
                    None => false,
                })
            },
        None => true,
    }
}

/// Best-known arrival times: one optional entry per stop index.
#[derive(Debug)]
pub struct Tau {
    /// `times[s]` is the best known arrival at stop `s`, if any.
    pub times: Vec<Option<Time>>,
}

impl Tau {
    /// Sized to a stop table of `n` stops.
    pub open spec fn wf(self, n: nat) -> bool {
        self.times@.len() == n
    }

    /// The entry for stop `s`.
    #[verifier::inline]
    pub open spec fn at(self, s: int) -> Option<Time> {
        self.times@[s]
    }

    /// A table with no entry for any of `n` stops.
    pub fn new(n: usize) -> (t: Tau)
        ensures
            t.wf(n as nat),
            forall|s: int| 0 <= s < n ==> t.at(s) is None,
    {
        let mut times: Vec<Option<Time>> = Vec::new();
        let mut i: usize = 0;
        while i < n
            invariant
                i <= n,
                times@.len() == i,
                forall|s: int| 0 <= s < i ==> times@[s] is None,
            decreases n - i,
        {
            times.push(None);
            i = i + 1;
        }
        Tau { times }
    }

    /// The entry for stop `s`.
    pub fn get(&self, s: usize) -> (r: Option<Time>)
        requires
            s < self.times@.len(),
        ensures
            r == self.at(s as int),
    {
        self.times[s]
    }

    /// Records arrival `v` at stop `s`, replacing any earlier entry.
    pub fn set(&mut self, s: usize, v: Time)
        requires
            s < old(self).times@.len(),
        ensures
            final(self).times@ == old(self).times@.update(s as int, Some(v)),
    {
        self.times[s] = Some(v);
    }

    /// An independent copy.
    pub fn snapshot(&self) -> (t: Tau)
        ensures
            t.times@ == self.times@,
    {
        let mut times: Vec<Option<Time>> = Vec::new();
        let mut i: usize = 0;
        while i < self.times.len()
            invariant
                i <= self.times@.len(),
                times@ == self.times@.take(i as int),
            decreases self.times@.len() - i,
        {
            times.push(self.times[i]);
            proof {
                assert(self.times@.take(i + 1 as int)
                    =~= self.times@.take(i as int).push(self.times@[i as int]));
            }
            i = i + 1;
        }
        proof {
            assert(self.times@.take(self.times@.len() as int) =~= self.times@);
        }
        Tau { times }
    }
}

/// Pointwise improvement: every stop known in `b` is known in `a`, with
/// an arrival no later than in `b`.
pub open spec fn tau_le(a: Tau, b: Tau) -> bool {
    &&& a.times@.len() == b.times@.len()
    &&& forall|s: int| 0 <= s < b.times@.len() ==> match #[trigger] b.times@[s] {
            Some(v) => a.times@[s] matches Some(w) && w <= v,
            None => true,
        }
}

/// `tau_le` is transitive.
pub proof fn lemma_tau_le_trans(a: Tau, b: Tau, c: Tau)
    requires
        tau_le(a, b),
        tau_le(b, c),
    ensures
        tau_le(a, c),
{
}

/// Weight of one entry: an unknown arrival counts as later than any
/// representable one.
pub open spec fn slot_weight(o: Option<Time>) -> int {
    match o {
        Some(v) => v as int,
        None => 0x1_0000_0000,
    }
}

/// Sum of the weights of the first `i` entries.
pub open spec fn tau_weight_prefix(t: Seq<Option<Time>>, i: int) -> int
    decreases i,
{
    if i <= 0 {
        0
    } else {
        tau_weight_prefix(t, i - 1) + slot_weight(t[i - 1])
    }
}

/// Total weight of a table: the search's termination measure.
pub open spec fn tau_potential(t: Tau) -> int {
    tau_weight_prefix(t.times@, t.times@.len() as int)
}

pub proof fn lemma_tau_weight_nonneg(t: Seq<Option<Time>>, i: int)
    ensures
        tau_weight_prefix(t, i) >= 0,
    decreases i,
{
    if i > 0 {
        lemma_tau_weight_nonneg(t, i - 1);
    }
}

pub proof fn lemma_tau_weight_le(a: Seq<Option<Time>>, b: Seq<Option<Time>>, i: int)
    requires
        forall|s: int| 0 <= s < i ==> slot_weight(#[trigger] a[s]) <= slot_weight(b[s]),
    ensures
        tau_weight_prefix(a, i) <= tau_weight_prefix(b, i),
    decreases i,
{
    if i > 0 {
        lemma_tau_weight_le(a, b, i - 1);
    }
}

pub proof fn lemma_tau_weight_lt(a: Seq<Option<Time>>, b: Seq<Option<Time>>, i: int, k: int)
    requires
        forall|s: int| 0 <= s < i ==> slot_weight(#[trigger] a[s]) <= slot_weight(b[s]),
        0 <= k < i,
        slot_weight(a[k]) < slot_weight(b[k]),
    ensures
        tau_weight_prefix(a, i) < tau_weight_prefix(b, i),
    decreases i,
{
    if k == i - 1 {
        lemma_tau_weight_le(a, b, i - 1);
    } else {
        lemma_tau_weight_lt(a, b, i - 1, k);
    }
}

/// The smaller of two optional arrivals, an absent one counting as
/// later than any present one.
pub open spec fn opt_min(a: Option<Time>, b: Option<Time>) -> Option<Time> {
    match (a, b) {
        (Some(x), Some(y)) => Some(
            if x < y {
                x
            } else {
                y
            },
        ),
        (Some(x), None) => a,
        (None, _) => b,
    }
}

/// The footpath relaxation over the first `i` transfers: each transfer
/// whose origin the round's scan marked lowers its destination's entry
/// to the origin's scan arrival plus the walk, when that sum is
/// representable, keeping the minimum with anything already there.
/// Origins are read from the frozen scan snapshot `base`, never from
/// the evolving result, so footpaths cannot chain within a round and
/// the outcome does not depend on the transfers' order.
pub open spec fn relax_prefix(
    tt: Timetable,
    marked: Seq<usize>,
    base: Seq<Option<Time>>,
    i: int,
) -> Seq<Option<Time>>
    decreases i,
{
    if i <= 0 {
        base
    } else {
        let prev = relax_prefix(tt, marked, base, i - 1);
        let f = tt.transfers@[i - 1];
        if marked.contains(f.from) && base[f.from as int] is Some && base[
            f.from as int
        ].unwrap() + f.time <= u32::MAX {
            let cand = (base[f.from as int].unwrap() + f.time) as u32;
            let merged = (match prev[f.to as int] {
                Some(x) => if x < cand {
                    x
                } else {
                    cand
                },
                None => cand,
            });
            prev.update(f.to as int, Some(merged))
        } else {
            prev
        }
    }
}

/// The best arrival the accumulated rounds ever recorded at `s`.
pub open spec fn rounds_min(rounds: Seq<Round>, s: int) -> Option<Time>
    decreases rounds.len(),
{
    if rounds.len() == 0 {
        None
    } else {
        opt_min(rounds_min(rounds.drop_last(), s), rounds.last().tau.times@[s])
    }
}

/// With nothing marked, relaxation changes nothing.
pub proof fn lemma_relax_prefix_unmarked(
    tt: Timetable,
    marked: Seq<usize>,
    base: Seq<Option<Time>>,
    i: int,
)
    requires
        marked.len() == 0,
    ensures
        relax_prefix(tt, marked, base, i) == base,
    decreases i,
{
    if i > 0 {
        lemma_relax_prefix_unmarked(tt, marked, base, i - 1);
    }
}

/// Whether `v` holds `x`.
fn contains_stop(v: &Vec<usize>, x: usize) -> (r: bool)
    ensures
        r == v@.contains(x),
{
    let mut i: usize = 0;
    while i < v.len()
        invariant
            i <= v@.len(),
            forall|j: int| 0 <= j < i ==> v@[j] != x,
        decreases v@.len() - i,
    {
        if v[i] == x {
            return true;
        }
        i = i + 1;
    }
    false
}

/// The boarding rule of the scan: trip `j` of `rt` is boarded at
/// `stop` for a previous-round arrival `v` when it is the first trip
/// with the minimum departure from `stop` at or after `v`.
pub open spec fn boards(rt: Route, j: int, stop: usize, v: Time) -> bool {
    &&& 0 <= j < rt.trips@.len()
    &&& trip_has_stop(rt.trips@[j], stop)
    &&& trip_dep(rt.trips@[j], stop) >= v
    &&& forall|j2: int|
            0 <= j2 < rt.trips@.len() && trip_has_stop(#[trigger] rt.trips@[j2], stop)
                && trip_dep(rt.trips@[j2], stop) >= v
            ==> trip_dep(rt.trips@[j], stop) <= trip_dep(rt.trips@[j2], stop)
    &&& forall|j2: int|
            0 <= j2 < j && trip_has_stop(#[trigger] rt.trips@[j2], stop)
                && trip_dep(rt.trips@[j2], stop) >= v
            ==> trip_dep(rt.trips@[j2], stop) > trip_dep(rt.trips@[j], stop)
}

/// The trip the scan boards at `stop` for a previous-round arrival
/// `earliest`, if any; trips that do not visit `stop` are passed over,
/// and ties keep the first such trip.
fn best_boarding(route: &Route, stop: usize, earliest: Time) -> (r: Option<usize>)
    ensures
        match r {
            Some(j) => boards(*route, j as int, stop, earliest),
            None => forall|j2: int|
                0 <= j2 < route.trips@.len() && trip_has_stop(#[trigger] route.trips@[j2], stop)
                ==> trip_dep(route.trips@[j2], stop) < earliest,
        },
{
    let mut best: Option<usize> = None;
    let mut best_dep: Time = 0;
    let mut j: usize = 0;
    while j < route.trips.len()
        invariant
            j <= route.trips@.len(),
            match best {
                Some(b) => b < j && trip_has_stop(route.trips@[b as int], stop)
                    && trip_dep(route.trips@[b as int], stop) == best_dep && best_dep >= earliest
                    && (forall|j2: int|
                        0 <= j2 < j && trip_has_stop(#[trigger] route.trips@[j2], stop)
                            && trip_dep(route.trips@[j2], stop) >= earliest
                        ==> best_dep <= trip_dep(route.trips@[j2], stop))
                    && (forall|j2: int|
                        0 <= j2 < b && trip_has_stop(#[trigger] route.trips@[j2], stop)
                            && trip_dep(route.trips@[j2], stop) >= earliest
                        ==> trip_dep(route.trips@[j2], stop) > best_dep),
                None => forall|j2: int|
                    0 <= j2 < j && trip_has_stop(#[trigger] route.trips@[j2], stop)
                    ==> trip_dep(route.trips@[j2], stop) < earliest,
            },
        decreases route.trips@.len() - j,
    {
        match route.trips[j].dep(stop) {
            Ok(d) => {
                if d >= earliest {
                    match best {
                        Some(b) => {
                            if d < best_dep {
                                best = Some(j);
                                best_dep = d;
                            }
                        },
                        None => {
                            best = Some(j);
                            best_dep = d;
                        },
                    }
                }
            },
            Err(e) => {},
        }
        j = j + 1;
    }
    best
}

/// One-step completeness at a queued route's hop stop: whatever trip
/// the boarding rule picks there, riding it one stop bounds the best
/// arrivals — either the next stop's best is no later than that trip's
/// arrival, or a target's best already was.
pub open spec fn hop_step_bound(
    tt: Timetable,
    route: usize,
    hop: usize,
    prev: Seq<Option<Time>>,
    target: Option<usize>,
    tau: Seq<Option<Time>>,
) -> bool {
    forall|j: int, v: Time|
        #![trigger boards(tt.routes@[route as int], j, hop, v)]
        ({
            let p = route_pattern(tt.routes@[route as int]);
            let fp = crate::data::first_pos(p, hop);
            on_pattern(p, hop) && fp + 1 < p.len() && prev[hop as int] == Some(v) && boards(
                tt.routes@[route as int],
                j,
                hop,
                v,
            )
        }) ==> ({
            let p = route_pattern(tt.routes@[route as int]);
            let fp = crate::data::first_pos(p, hop);
            &&& trip_has_stop(tt.routes@[route as int].trips@[j], p[fp + 1])
            &&& ((tau[p[fp + 1] as int] matches Some(w)
                && w <= trip_arr(tt.routes@[route as int].trips@[j], p[fp + 1])) || (target
                matches Some(t) && tau[t as int] matches Some(w2)
                && w2 <= trip_arr(tt.routes@[route as int].trips@[j], p[fp + 1])))
        })
}

/// The one-step bound only firms up as best arrivals fall.
pub proof fn lemma_hop_step_bound_mono(
    tt: Timetable,
    route: usize,
    hop: usize,
    prev: Seq<Option<Time>>,
    target: Option<usize>,
    a: Seq<Option<Time>>,
    b: Seq<Option<Time>>,
)
    requires
        tt.wf(),
        route < tt.routes@.len(),
        target matches Some(t) ==> t < tt.stops@.len(),
        a.len() == tt.stops@.len(),
        b.len() == tt.stops@.len(),
        hop_step_bound(tt, route, hop, prev, target, b),
        forall|s: int| 0 <= s < b.len() ==> match #[trigger] b[s] {
            Some(v) => a[s] matches Some(w) && w <= v,
            None => true,
        },
    ensures
        hop_step_bound(tt, route, hop, prev, target, a),
{
    let p = route_pattern(tt.routes@[route as int]);
    crate::data::lemma_route_pattern_bounds(tt.routes@[route as int], tt.stops@.len());
    assert forall|j: int, v: Time|
        #![trigger boards(tt.routes@[route as int], j, hop, v)]
        ({
            let fp = crate::data::first_pos(p, hop);
            on_pattern(p, hop) && fp + 1 < p.len() && prev[hop as int] == Some(v) && boards(
                tt.routes@[route as int],
                j,
                hop,
                v,
            )
        }) implies ({
            let fp = crate::data::first_pos(p, hop);
            &&& trip_has_stop(tt.routes@[route as int].trips@[j], p[fp + 1])
            &&& ((a[p[fp + 1] as int] matches Some(w)
                && w <= trip_arr(tt.routes@[route as int].trips@[j], p[fp + 1])) || (target
                matches Some(t) && a[t as int] matches Some(w2)
                && w2 <= trip_arr(tt.routes@[route as int].trips@[j], p[fp + 1])))
        }) by {
        let fp = crate::data::first_pos(p, hop);
        crate::data::lemma_first_pos(p, hop);
        assert(p[fp + 1] < tt.stops@.len());
        assert(boards(tt.routes@[route as int], j, hop, v));
    }
}

/// One route scan: walks the route's stops from the hop stop onward,
/// carrying a current trip; alighting improvements are recorded into
/// the running round, the global best, and the marked list.
#[verifier::rlimit(100)]
#[verifier::spinoff_prover]
fn scan_route(
    tt: &Timetable,
    item: QueueItem,
    prev: &Tau,
    target: Option<usize>,
    curr: &mut Tau,
    tau_min: &mut Tau,
    marked: &mut Vec<usize>,
    gsrc: Ghost<usize>,
    gt0: Ghost<Time>,
    gk: Ghost<nat>,
) -> (r: Result<(), ProcessingError>)
    requires
        tt.wf(),
        item.route < tt.routes@.len(),
        prev.wf(tt.stops@.len()),
        old(curr).wf(tt.stops@.len()),
        old(tau_min).wf(tt.stops@.len()),
        target matches Some(t) ==> t < tt.stops@.len(),
        gk@ >= 1,
        sound_premises(*tt) ==> forall|s: int| 0 <= s < tt.stops@.len()
            ==> match #[trigger] prev.times@[s] {
                Some(v) => achievable(*tt, gsrc@, gt0@, (gk@ - 1) as nat, s as usize, v),
                None => true,
            },
        sound_premises(*tt) ==> forall|s: int| 0 <= s < tt.stops@.len()
            ==> match #[trigger] old(curr).times@[s] {
                Some(v) => achievable(*tt, gsrc@, gt0@, gk@, s as usize, v),
                None => true,
            },
        sound_premises(*tt) ==> forall|s: int| 0 <= s < tt.stops@.len()
            ==> match #[trigger] old(tau_min).times@[s] {
                Some(v) => achievable(*tt, gsrc@, gt0@, gk@, s as usize, v),
                None => true,
            },
        forall|i: int, j: int|
            #![trigger old(marked)@[i], old(marked)@[j]]
            0 <= i < j < old(marked)@.len() ==> old(marked)@[i] != old(marked)@[j],
        sound_premises(*tt) ==> forall|s: int| 0 <= s < tt.stops@.len()
            ==> scan_entry_witnessed(*tt, prev.times@, old(curr).times@, s),
    ensures
        sound_premises(*tt) ==> forall|s: int| 0 <= s < tt.stops@.len()
            ==> scan_entry_witnessed(*tt, prev.times@, final(curr).times@, s),
        sound_premises(*tt) ==> forall|s: int| 0 <= s < tt.stops@.len()
            ==> match #[trigger] final(curr).times@[s] {
                Some(v) => achievable(*tt, gsrc@, gt0@, gk@, s as usize, v),
                None => true,
            },
        sound_premises(*tt) ==> forall|s: int| 0 <= s < tt.stops@.len()
            ==> match #[trigger] final(tau_min).times@[s] {
                Some(v) => achievable(*tt, gsrc@, gt0@, gk@, s as usize, v),
                None => true,
            },
        final(curr).wf(tt.stops@.len()),
        final(tau_min).wf(tt.stops@.len()),
        tau_le(*final(tau_min), *old(tau_min)),
        old(marked)@.is_prefix_of(final(marked)@),
        forall|i: int, j: int|
            #![trigger final(marked)@[i], final(marked)@[j]]
            0 <= i < j < final(marked)@.len() ==> final(marked)@[i] != final(marked)@[j],
        forall|i: int| old(marked)@.len() <= i < final(marked)@.len() ==> {
            let m = #[trigger] final(marked)@[i];
            &&& m < tt.stops@.len()
            &&& (match old(tau_min).at(m as int) {
                Some(v) => final(tau_min).at(m as int) matches Some(w) && w < v,
                None => true,
            })
            &&& final(tau_min).at(m as int) is Some
            &&& final(curr).at(m as int) is Some
            &&& on_pattern(route_pattern(tt.routes@[item.route as int]), m)
        },
        forall|s: int| 0 <= s < tt.stops@.len() && (#[trigger] old(curr).times@[s]) is Some
            ==> final(curr).at(s) is Some,
        forall|s: int| 0 <= s < tt.stops@.len() && (#[trigger] final(curr).times@[s]) is Some
            && old(curr).at(s) is None
            ==> on_pattern(route_pattern(tt.routes@[item.route as int]), s as usize),
        forall|s: int| 0 <= s < tt.stops@.len() && (#[trigger] final(tau_min).times@[s]) is Some
            && old(tau_min).at(s) is None
            ==> on_pattern(route_pattern(tt.routes@[item.route as int]), s as usize),
        forall|s: int|
            #![trigger final(tau_min).times@[s]]
            0 <= s < tt.stops@.len() ==> ((final(tau_min).times@[s] == old(tau_min).times@[s]
                && final(curr).times@[s] == old(curr).times@[s]) || (final(tau_min).times@[s]
                != old(tau_min).times@[s] && final(curr).times@[s] == final(tau_min).times@[s])),
        forall|s: int|
            #![trigger final(tau_min).times@[s]]
            0 <= s < tt.stops@.len() && final(tau_min).times@[s] != old(tau_min).times@[s]
            ==> final(marked)@.contains(s as usize),
        r matches Ok(u) ==> hop_step_bound(
            *tt,
            item.route,
            item.hop_stop,
            prev.times@,
            target,
            final(tau_min).times@,
        ),
        (route_consistent(tt.routes@[item.route as int])
            && on_pattern(route_pattern(tt.routes@[item.route as int]), item.hop_stop))
            ==> r matches Ok(u),
        r matches Err(e) ==> ((!route_consistent(tt.routes@[item.route as int])
            && e is NoStopOnTrip && diagnosed_inconsistency(*tt, e)) || (!on_pattern(
            route_pattern(tt.routes@[item.route as int]),
            item.hop_stop,
        ) && e is NoStopOnRoute)),
{
    let ghost n = tt.stops@.len();
    let ghost p = route_pattern(tt.routes@[item.route as int]);
    let ghost fp = crate::data::first_pos(p, item.hop_stop);
    let stops = match item.stops(&tt.routes) {
        Ok(v) => v,
        Err(e) => {
            return Err(e);
        },
    };
    proof {
        crate::data::lemma_route_pattern_bounds(tt.routes@[item.route as int], n);
        crate::data::lemma_first_pos(p, item.hop_stop);
        assert forall|k: int| 0 <= k < stops@.len() implies (#[trigger] stops@[k]) < n
            && on_pattern(p, stops@[k]) && stops@[k] == p[fp + k] && fp + k < p.len() by {
            assert(stops@[k] == p[fp + k]);
            crate::data::lemma_on_pattern_contains(p, stops@[k]);
            assert(p.contains(stops@[k]));
        }
    }
    let route = &tt.routes[item.route];
    let mut current_trip: Option<usize> = None;
    let ghost mut board_pos: int = 0;
    let mut si: usize = 0;
    while si < stops.len()
        invariant
            curr.wf(n),
            tau_min.wf(n),
            tau_le(*tau_min, *old(tau_min)),
            old(marked)@.is_prefix_of(marked@),
            forall|i: int, j: int|
                #![trigger marked@[i], marked@[j]]
                0 <= i < j < marked@.len() ==> marked@[i] != marked@[j],
            forall|i: int| old(marked)@.len() <= i < marked@.len() ==> {
                let m = #[trigger] marked@[i];
                &&& m < n
                &&& (match old(tau_min).at(m as int) {
                    Some(v) => tau_min.at(m as int) matches Some(w) && w < v,
                    None => true,
                })
                &&& tau_min.at(m as int) is Some
                &&& curr.at(m as int) is Some
                &&& on_pattern(p, m)
            },
            forall|s: int| 0 <= s < n && (#[trigger] old(curr).times@[s]) is Some
                ==> curr.at(s) is Some,
            forall|s: int| 0 <= s < n && (#[trigger] curr.times@[s]) is Some
                && old(curr).at(s) is None ==> on_pattern(p, s as usize),
            forall|s: int| 0 <= s < n && (#[trigger] tau_min.times@[s]) is Some
                && old(tau_min).at(s) is None ==> on_pattern(p, s as usize),
            forall|s: int|
                #![trigger tau_min.times@[s]]
                0 <= s < n ==> ((tau_min.times@[s] == old(tau_min).times@[s]
                    && curr.times@[s] == old(curr).times@[s]) || (tau_min.times@[s]
                    != old(tau_min).times@[s] && curr.times@[s] == tau_min.times@[s])),
            forall|s: int|
                #![trigger tau_min.times@[s]]
                0 <= s < n && tau_min.times@[s] != old(tau_min).times@[s]
                ==> marked@.contains(s as usize),
            current_trip matches Some(j) ==> j < route.trips@.len(),
            si <= stops@.len(),
            si == 0 ==> current_trip is None,
            si == 1 ==> (match prev.times@[item.hop_stop as int] {
                Some(v0) => match current_trip {
                    Some(tj) => boards(
                        tt.routes@[item.route as int],
                        tj as int,
                        item.hop_stop,
                        v0,
                    ),
                    None => forall|j2: int|
                        0 <= j2 < route.trips@.len() && trip_has_stop(
                            #[trigger] route.trips@[j2],
                            item.hop_stop,
                        ) ==> trip_dep(route.trips@[j2], item.hop_stop) < v0,
                },
                None => true,
            }),
            si >= 2 ==> hop_step_bound(
                *tt,
                item.route,
                item.hop_stop,
                prev.times@,
                target,
                tau_min.times@,
            ),
            sound_premises(*tt) ==> {
                &&& forall|s2: int| 0 <= s2 < n ==> match #[trigger] curr.times@[s2] {
                    Some(v) => achievable(*tt, gsrc@, gt0@, gk@, s2 as usize, v),
                    None => true,
                }
                &&& forall|s2: int| 0 <= s2 < n ==> match #[trigger] tau_min.times@[s2] {
                    Some(v) => achievable(*tt, gsrc@, gt0@, gk@, s2 as usize, v),
                    None => true,
                }
                &&& forall|s2: int| 0 <= s2 < n
                    ==> scan_entry_witnessed(*tt, prev.times@, curr.times@, s2)
                &&& (current_trip matches Some(tj) ==> {
                    &&& 0 <= board_pos < p.len()
                    &&& board_pos < fp + si
                    &&& (match prev.times@[p[board_pos] as int] {
                        Some(tpv) => tt.routes@[item.route as int].trips@[
                            tj as int
                        ].stop_times@[board_pos].departure_time >= tpv,
                        None => false,
                    })
                })
            },
        decreases stops@.len() - si,
    {
        let stop = stops[si];
        proof {
            if si == 0 {
                assert(stop == p[fp + 0]);
                assert(stop == item.hop_stop);
            }
        }
        if let Some(tj) = current_trip {
            match route.trips[tj].arr(stop) {
                Err(e) => {
                    proof {
                        assert(!trip_has_stop(route.trips@[tj as int], stop));
                        assert(!route_consistent(tt.routes@[item.route as int]));
                        assert(tt.routes@[item.route as int].trips@[tj as int].id
                            == e->NoStopOnTrip_trip_id);
                        assert(on_pattern(route_pattern(tt.routes@[item.route as int]), stop));
                        assert(diagnosed_inconsistency(*tt, e));
                    }
                    return Err(e);
                },
                Ok(arrv) => {
                    let tgt_bound: Option<Time> = match target {
                        Some(t) => tau_min.get(t),
                        None => None,
                    };
                    let improves: bool = match (tau_min.get(stop), tgt_bound) {
                        (Some(pi), Some(pt)) => arrv < (if pi < pt { pi } else { pt }),
                        (Some(pi), None) => arrv < pi,
                        (None, Some(pt)) => arrv < pt,
                        (None, None) => true,
                    };
                    if improves {
                        proof {
                            if sound_premises(*tt) {
                                let rt = tt.routes@[item.route as int];
                                let a = fp + si as int;
                                assert(route_consistent(rt));
                                assert(trip_pattern(rt.trips@[tj as int]) == p);
                                assert(pattern_no_dups(p));
                                assert(stop == p[a]);
                                lemma_first_pos_no_dups(p, a);
                                assert(rt.trips@[tj as int].stop_times@[a].stop == p[a]);
                                assert(arrv == rt.trips@[tj as int].stop_times@[a].arrival_time);
                                let b = board_pos;
                                let bstop = p[b];
                                assert(rt.trips@[tj as int].stop_times@[b].stop == bstop);
                                assert(prev.times@[bstop as int] is Some);
                                let tpv = prev.times@[bstop as int].unwrap();
                                assert(achievable(*tt, gsrc@, gt0@, (gk@ - 1) as nat, bstop, tpv));
                                lemma_achievable_relax(
                                    *tt,
                                    gsrc@,
                                    gt0@,
                                    (gk@ - 1) as nat,
                                    (gk@ - 1) as nat,
                                    bstop,
                                    tpv,
                                    rt.trips@[tj as int].stop_times@[b].departure_time,
                                );
                                lemma_achievable_ride(
                                    *tt,
                                    gsrc@,
                                    gt0@,
                                    (gk@ - 1) as nat,
                                    item.route as int,
                                    tj as int,
                                    b,
                                    a,
                                );
                                assert(achievable(*tt, gsrc@, gt0@, gk@, stop, arrv));
                            }
                        }
                        let ghost tau_min0 = *tau_min;
                        let ghost marked0 = marked@;
                        let ghost curr_pre = curr.times@;
                        curr.set(stop, arrv);
                        tau_min.set(stop, arrv);
                        if !contains_stop(&*marked, stop) {
                            marked.push(stop);
                        }
                        proof {
                            assert(tau_le(*tau_min, tau_min0));
                            lemma_tau_le_trans(*tau_min, tau_min0, *old(tau_min));
                            assert forall|s2: int|
                                0 <= s2 < n && tau_min.times@[s2] != old(tau_min).times@[s2]
                                implies marked@.contains(s2 as usize) by {
                                if s2 == stop {
                                    if !marked0.contains(stop) {
                                        assert(marked@[marked@.len() - 1] == s2 as usize);
                                    } else {
                                        let w = choose|w: int|
                                            0 <= w < marked0.len() && marked0[w] == stop;
                                        assert(marked@[w] == s2 as usize);
                                    }
                                } else {
                                    let w = choose|w: int|
                                        0 <= w < marked0.len() && marked0[w] == s2 as usize;
                                    assert(marked@[w] == s2 as usize);
                                }
                            }
                            if si >= 2 {
                                lemma_hop_step_bound_mono(
                                    *tt,
                                    item.route,
                                    item.hop_stop,
                                    prev.times@,
                                    target,
                                    tau_min.times@,
                                    tau_min0.times@,
                                );
                            }
                            if sound_premises(*tt) {
                                let a = fp + si as int;
                                let b = board_pos;
                                assert(trip_pattern(
                                    tt.routes@[item.route as int].trips@[tj as int],
                                ) == p);
                                assert(tt.routes@[item.route as int].trips@[
                                    tj as int
                                ].stop_times@.len() == p.len());
                                assert(a < p.len());
                                assert(tt.routes@[item.route as int].trips@[
                                    tj as int
                                ].stop_times@[a].stop == stop);
                                assert(tt.routes@[item.route as int].trips@[
                                    tj as int
                                ].stop_times@[a].arrival_time == arrv);
                                assert(0 <= b < a);
                                assert(prev.times@[tt.routes@[item.route as int].trips@[
                                    tj as int
                                ].stop_times@[b].stop as int] is Some);
                                assert(tt.routes@[item.route as int].trips@[
                                    tj as int
                                ].stop_times@[b].departure_time >= prev.times@[tt.routes@[
                                    item.route as int
                                ].trips@[tj as int].stop_times@[b].stop as int].unwrap());
                                assert(curr.times@[stop as int] == Some(arrv));
                                assert(scan_entry_witnessed(
                                    *tt,
                                    prev.times@,
                                    curr.times@,
                                    stop as int,
                                ));
                                assert forall|s2: int| 0 <= s2 < n implies
                                    scan_entry_witnessed(*tt, prev.times@, curr.times@, s2) by {
                                    if s2 != stop {
                                        assert(scan_entry_witnessed(
                                            *tt,
                                            prev.times@,
                                            curr_pre,
                                            s2,
                                        ));
                                        assert(curr.times@[s2] == curr_pre[s2]);
                                    }
                                }
                            }
                        }
                    }
                    proof {
                        if si == 1 && prev.times@[item.hop_stop as int] is Some {
                            let v0 = prev.times@[item.hop_stop as int].unwrap();
                            let rt = tt.routes@[item.route as int];
                            assert(boards(rt, tj as int, item.hop_stop, v0));
                            assert(stop == p[fp + 1]);
                            assert forall|j: int, v: Time|
                                #![trigger boards(rt, j, item.hop_stop, v)]
                                ({
                                    let fp2 = crate::data::first_pos(p, item.hop_stop);
                                    on_pattern(p, item.hop_stop) && fp2 + 1 < p.len()
                                        && prev.times@[item.hop_stop as int] == Some(v)
                                        && boards(rt, j, item.hop_stop, v)
                                }) implies ({
                                let fp2 = crate::data::first_pos(p, item.hop_stop);
                                &&& trip_has_stop(rt.trips@[j], p[fp2 + 1])
                                &&& ((tau_min.times@[p[fp2 + 1] as int] matches Some(w)
                                    && w <= trip_arr(rt.trips@[j], p[fp2 + 1])) || (target
                                    matches Some(t) && tau_min.times@[t as int] matches Some(
                                    w2,
                                ) && w2 <= trip_arr(rt.trips@[j], p[fp2 + 1])))
                            }) by {
                                assert(v == v0);
                                if j != tj as int {
                                    if j < tj as int {
                                        assert(trip_dep(rt.trips@[j], item.hop_stop)
                                            > trip_dep(rt.trips@[tj as int], item.hop_stop));
                                        assert(trip_dep(rt.trips@[j], item.hop_stop)
                                            <= trip_dep(rt.trips@[tj as int], item.hop_stop));
                                    } else {
                                        assert(trip_dep(rt.trips@[tj as int], item.hop_stop)
                                            > trip_dep(rt.trips@[j], item.hop_stop));
                                        assert(trip_dep(rt.trips@[tj as int], item.hop_stop)
                                            <= trip_dep(rt.trips@[j], item.hop_stop));
                                    }
                                    assert(false);
                                }
                                assert(trip_has_stop(rt.trips@[j], stop));
                                assert(arrv == trip_arr(rt.trips@[j], stop));
                                if improves {
                                    assert(tau_min.times@[stop as int] == Some(arrv));
                                } else {
                                }
                            }
                            assert(hop_step_bound(
                                *tt,
                                item.route,
                                item.hop_stop,
                                prev.times@,
                                target,
                                tau_min.times@,
                            ));
                        }
                    }
                },
            }
        }
        if let Some(tau_prev) = prev.get(stop) {
            let mut skip_switch = false;
            if let Some(tj) = current_trip {
                match route.trips[tj].dep(stop) {
                    Err(e) => {
                        proof {
                            assert(!trip_has_stop(route.trips@[tj as int], stop));
                            assert(!route_consistent(tt.routes@[item.route as int]));
                            assert(tt.routes@[item.route as int].trips@[tj as int].id
                                == e->NoStopOnTrip_trip_id);
                            assert(on_pattern(
                                route_pattern(tt.routes@[item.route as int]),
                                stop,
                            ));
                            assert(diagnosed_inconsistency(*tt, e));
                        }
                        return Err(e);
                    },
                    Ok(d) => {
                        if d < tau_prev {
                            skip_switch = true;
                        }
                    },
                }
            }
            if !skip_switch {
                current_trip = best_boarding(route, stop, tau_prev);
                proof {
                    if si == 0 {
                        assert(stop == p[fp + 0]);
                        assert(stop == item.hop_stop);
                        assert(prev.times@[item.hop_stop as int] == Some(tau_prev));
                        if current_trip is Some {
                            let tj0 = current_trip.unwrap();
                            assert(boards(
                                tt.routes@[item.route as int],
                                tj0 as int,
                                item.hop_stop,
                                tau_prev,
                            ));
                        }
                    }
                    if current_trip is Some {
                        board_pos = fp + si as int;
                        if sound_premises(*tt) {
                            let tj2 = current_trip.unwrap();
                            let rt = tt.routes@[item.route as int];
                            assert(route_consistent(rt));
                            assert(trip_pattern(rt.trips@[tj2 as int]) == p);
                            assert(pattern_no_dups(p));
                            assert(stop == p[board_pos]);
                            lemma_first_pos_no_dups(p, board_pos);
                            assert(trip_dep(rt.trips@[tj2 as int], stop)
                                == rt.trips@[tj2 as int].stop_times@[board_pos].departure_time);
                            assert(prev.times@[p[board_pos] as int] == Some(tau_prev));
                        }
                    }
                }
            }
        }
        si = si + 1;
    }
    Ok(())
}

/// One round's snapshot of per-stop arrival improvements; never mutated
/// after being pushed.
pub struct Round {
    /// The arrival times recorded during the round: the scan's
    /// improvements, extended one footpath hop.
    pub tau: Tau,
    /// Ghost history: the scan phase's arrivals alone, before footpath
    /// relaxation.  Kept so the contract can state the footpath phase
    /// exactly as a function of it.
    pub scan: Ghost<Seq<Option<Time>>>,
    /// Ghost history: the stops the scan phase marked, the only origins
    /// footpaths relax from.
    pub scan_marked: Ghost<Seq<usize>>,
}

/// The round-based search state for one query.
pub struct Raptor {
    /// The network searched; never mutated.
    pub timetable: Timetable,
    /// Index of the stop the journey starts at.
    pub source: usize,
    /// Departure time at the source.
    pub start_time: Time,
    /// Per-round snapshots; `rounds[k]` holds arrivals achievable with
    /// at most `k` vehicle boardings.
    pub rounds: Vec<Round>,
    /// The best arrival ever seen per stop, by vehicle or footpath:
    /// the pointwise minimum of every accumulated round's arrivals.
    /// Query results are read from here.
    pub tau_min: Tau,
    /// Stops improved in the previous round, due for rescanning.
    pub marked_stops: Vec<usize>,
    /// Optional target stop, enabling pruning.
    pub target: Option<usize>,
    /// How many route scans were performed over all rounds, saturating.
    pub route_scans: u64,
    /// How many stops each executed round marked.
    pub marked_per_round: Vec<usize>,
}

impl Raptor {
    /// Internal consistency of the search state: the timetable is
    /// structurally valid, at least one round exists, every table is
    /// sized to the stop table, and every recorded arrival sits at the
    /// source, on some route, or behind some transfer.
    pub open spec fn wf(self) -> bool {
        let n = self.timetable.stops@.len();
        &&& self.timetable.wf()
        &&& self.rounds@.len() >= 1
        &&& forall|k: int| 0 <= k < self.rounds@.len() ==> (#[trigger] self.rounds@[k]).tau.wf(n)
        &&& self.tau_min.wf(n)
        &&& self.source < n
        &&& forall|i: int| 0 <= i < self.marked_stops@.len()
                ==> (#[trigger] self.marked_stops@[i]) < n
        &&& (self.target matches Some(t) ==> t < n)
        &&& forall|k: int, s: int|
                #![trigger self.rounds@[k].tau.times@[s]]
                0 <= k < self.rounds@.len() && 0 <= s < n && self.rounds@[k].tau.at(s) is Some
                ==> s == self.source || stop_touchable(self.timetable, s as usize)
        &&& forall|s: int| 0 <= s < n && (#[trigger] self.tau_min.times@[s]) is Some
                ==> s == self.source || stop_touchable(self.timetable, s as usize)
        &&& forall|s: int| 0 <= s < n
                ==> #[trigger] self.tau_min.times@[s] == rounds_min(self.rounds@, s)
    }

    /// Conditional soundness: whenever the timetable is
    /// pattern-homogeneous and no route visits a stop twice, every
    /// recorded arrival is justified by a journey using at most as many
    /// boardings as its round index.
    #[verifier::opaque]
    pub open spec fn sound(self) -> bool {
        sound_premises(self.timetable) ==> {
            &&& forall|k: int, s: int|
                    #![trigger self.rounds@[k].tau.times@[s]]
                    0 <= k < self.rounds@.len() && 0 <= s < self.timetable.stops@.len()
                    ==> match self.rounds@[k].tau.times@[s] {
                        Some(v) => achievable(
                            self.timetable,
                            self.source,
                            self.start_time,
                            k as nat,
                            s as usize,
                            v,
                        ),
                        None => true,
                    }
            &&& forall|s: int| 0 <= s < self.timetable.stops@.len()
                ==> match #[trigger] self.tau_min.times@[s] {
                    Some(v) => achievable(
                        self.timetable,
                        self.source,
                        self.start_time,
                        (self.rounds@.len() - 1) as nat,
                        s as usize,
                        v,
                    ),
                    None => true,
                }
        }
    }

    /// Starts a query at `starting_stop` and `starting_time`: round 0
    /// knows only the source, which is marked.
    pub fn new(
        timetable: Timetable,
        starting_stop: usize,
        starting_time: Time,
        target: Option<usize>,
    ) -> (r: Raptor)
        requires
            timetable.wf(),
            starting_stop < timetable.stops@.len(),
            target matches Some(t) ==> t < timetable.stops@.len(),
        ensures
            r.wf(),
            r.sound(),
            r.timetable == timetable,
            r.source == starting_stop,
            r.start_time == starting_time,
            r.target == target,
            r.rounds@.len() == 1,
            forall|s: int| 0 <= s < timetable.stops@.len()
                ==> r.rounds@[0].tau.at(s) == (if s == starting_stop {
                    Some(starting_time)
                } else {
                    None::<Time>
                }),
            forall|s: int| 0 <= s < timetable.stops@.len()
                ==> r.tau_min.at(s) == (if s == starting_stop {
                    Some(starting_time)
                } else {
                    None::<Time>
                }),
            r.marked_stops@ == seq![starting_stop],
            r.route_scans == 0,
            r.marked_per_round@ == Seq::<usize>::empty(),
    {
        let n = timetable.stops.len();
        let mut tau0 = Tau::new(n);
        tau0.set(starting_stop, starting_time);
        let tau_min = tau0.snapshot();
        let ghost seed_times = tau0.times@;
        let ghost seed_marked = seq![starting_stop];
        let mut rounds: Vec<Round> = Vec::new();
        rounds.push(Round {
            tau: tau0,
            scan: Ghost(seed_times),
            scan_marked: Ghost(seed_marked),
        });
        let mut marked_stops: Vec<usize> = Vec::new();
        marked_stops.push(starting_stop);
        proof {
            assert(marked_stops@ =~= seq![starting_stop]);
            assert forall|s: int| 0 <= s < timetable.stops@.len() implies
                tau_min.times@[s] == rounds_min(rounds@, s) by {
                assert(rounds@.drop_last() =~= Seq::<Round>::empty());
                assert(rounds_min(Seq::<Round>::empty(), s) == None::<Time>);
                assert(rounds_min(rounds@, s) == opt_min(None, rounds@.last().tau.times@[s]));
            }
        }
        let built = Raptor {
            timetable,
            source: starting_stop,
            start_time: starting_time,
            rounds,
            tau_min,
            marked_stops,
            target,
            route_scans: 0,
            marked_per_round: Vec::new(),
        };
        proof {
            lemma_new_sound(built);
        }
        built
    }

    /// One round: builds the scan queue from the marked stops, scans
    /// each queued route carrying a current trip, relaxes one footpath
    /// hop from the scan's improvements, and appends the round.  On an
    /// inconsistent timetable the search aborts with a diagnostic and
    /// the state is left exactly as it was.
    ///
    /// A footpath improvement is bookkept like any other: it lowers the
    /// stop's global best and marks the stop for the next round's scan
    /// queue.  Footpaths still never chain within a round: relaxation
    /// reads its origins from the scan's frozen snapshot, so a stop
    /// reached only by footpath relaxes nothing until the next round.
    #[verifier::rlimit(100)]
    #[verifier::spinoff_prover]
    pub fn round(&mut self) -> (r: Result<(), ProcessingError>)
        requires
            old(self).wf(),
            old(self).sound(),
        ensures
            final(self).wf(),
            final(self).sound(),
            final(self).timetable == old(self).timetable,
            final(self).source == old(self).source,
            final(self).start_time == old(self).start_time,
            final(self).target == old(self).target,
            tau_le(final(self).tau_min, old(self).tau_min),
            r matches Ok(u) ==> {
                &&& final(self).rounds@.len() == old(self).rounds@.len() + 1
                &&& old(self).rounds@.is_prefix_of(final(self).rounds@)
                &&& forall|i: int| 0 <= i < final(self).marked_stops@.len() ==> {
                    let m = #[trigger] final(self).marked_stops@[i];
                    &&& (match old(self).tau_min.at(m as int) {
                        Some(v) => final(self).tau_min.at(m as int) matches Some(w) && w < v,
                        None => true,
                    })
                    &&& final(self).tau_min.at(m as int) is Some
                    &&& final(self).rounds@.last().tau.at(m as int) is Some
                }
                &&& final(self).marked_per_round@ == old(self).marked_per_round@.push(
                    final(self).marked_stops@.len() as usize,
                )
                &&& final(self).route_scans >= old(self).route_scans
                &&& forall|s: int|
                        #![trigger final(self).tau_min.times@[s]]
                        0 <= s < old(self).timetable.stops@.len()
                        ==> (final(self).marked_stops@.contains(s as usize)
                            <==> final(self).tau_min.times@[s] != old(self).tau_min.times@[s])
                &&& forall|i: int, j: int|
                        #![trigger final(self).marked_stops@[i], final(self).marked_stops@[j]]
                        0 <= i < j < final(self).marked_stops@.len()
                        ==> final(self).marked_stops@[i] != final(self).marked_stops@[j]
                &&& forall|s: int|
                        #![trigger final(self).tau_min.times@[s]]
                        0 <= s < old(self).timetable.stops@.len()
                        ==> final(self).tau_min.times@[s] == opt_min(
                            old(self).tau_min.times@[s],
                            final(self).rounds@.last().tau.times@[s],
                        )
                &&& final(self).rounds@.last().tau.times@ == relax_prefix(
                    old(self).timetable,
                    final(self).rounds@.last().scan_marked@,
                    final(self).rounds@.last().scan@,
                    old(self).timetable.transfers@.len() as int,
                )
                &&& forall|s: int| 0 <= s < old(self).timetable.stops@.len()
                        ==> (final(self).rounds@.last().scan_marked@.contains(s as usize)
                            <==> (#[trigger] final(self).rounds@.last().scan@[s]) is Some)
                &&& forall|s: int|
                        #![trigger final(self).rounds@.last().scan@[s]]
                        0 <= s < old(self).timetable.stops@.len()
                        ==> match final(self).rounds@.last().scan@[s] {
                            Some(v) => (match old(self).tau_min.times@[s] {
                                Some(o) => v < o,
                                None => true,
                            }) && stop_on_some_route(old(self).timetable, s as usize),
                            None => true,
                        }
                &&& sound_premises(old(self).timetable) ==> forall|s: int|
                        0 <= s < old(self).timetable.stops@.len()
                        ==> scan_entry_witnessed(
                            old(self).timetable,
                            old(self).rounds@.last().tau.times@,
                            final(self).rounds@.last().scan@,
                            s,
                        )
                &&& final(self).marked_stops@.len() == 0
                        ==> forall|s: int| 0 <= s < old(self).timetable.stops@.len()
                            ==> final(self).rounds@.last().tau.at(s) is None
                &&& forall|ri: usize, h: usize|
                        #![trigger first_pos(route_pattern(old(self).timetable.routes@[ri as int]), h)]
                        (ri < old(self).timetable.routes@.len() && old(
                            self,
                        ).marked_stops@.contains(h) && on_pattern(
                            route_pattern(old(self).timetable.routes@[ri as int]),
                            h,
                        ) && (forall|j2: int|
                            0 <= j2 < old(self).marked_stops@.len() && on_pattern(
                                route_pattern(old(self).timetable.routes@[ri as int]),
                                #[trigger] old(self).marked_stops@[j2],
                            ) ==> first_pos(
                                route_pattern(old(self).timetable.routes@[ri as int]),
                                h,
                            ) <= first_pos(
                                route_pattern(old(self).timetable.routes@[ri as int]),
                                old(self).marked_stops@[j2],
                            ))) ==> hop_step_bound(
                            old(self).timetable,
                            ri,
                            h,
                            old(self).rounds@.last().tau.times@,
                            old(self).target,
                            final(self).tau_min.times@,
                        )
            },
            r matches Err(e) ==> *final(self) == *old(self) && !old(self).timetable.consistent()
                && e is NoStopOnTrip && diagnosed_inconsistency(old(self).timetable, e),
            old(self).timetable.consistent() ==> r matches Ok(u),
    {
        let ghost n = self.timetable.stops@.len();
        let ghost tt = self.timetable;
        let ghost gk = self.rounds@.len() as nat;
        let ghost srcv = self.source;
        let ghost t0v = self.start_time;
        let n_stops = self.timetable.stops.len();
        let q = Queue::enqueue(&self.marked_stops, &self.timetable.routes);
        let queue = q.as_vec();
        let mut curr = Tau::new(n_stops);
        let mut tau_min = self.tau_min.snapshot();
        let mut marked: Vec<usize> = Vec::new();
        let prev_idx = self.rounds.len() - 1;
        proof {
            reveal(Raptor::sound);
            if sound_premises(tt) {
                assert forall|s2: int| 0 <= s2 < n implies match #[trigger] tau_min.times@[s2] {
                    Some(v) => achievable(tt, srcv, t0v, gk, s2 as usize, v),
                    None => true,
                } by {
                    if tau_min.times@[s2] is Some {
                        let v = tau_min.times@[s2].unwrap();
                        assert(self.tau_min.times@[s2] == Some(v));
                        lemma_achievable_relax(
                            tt,
                            srcv,
                            t0v,
                            (gk - 1) as nat,
                            gk,
                            s2 as usize,
                            v,
                            v,
                        );
                    }
                }
            }
        }

        let mut qi: usize = 0;
        while qi < queue.len()
            invariant
                qi <= queue@.len(),
                curr.wf(n),
                tau_min.wf(n),
                tau_le(tau_min, self.tau_min),
                forall|i: int| 0 <= i < marked@.len() ==> {
                    let m = #[trigger] marked@[i];
                    &&& m < n
                    &&& (match self.tau_min.at(m as int) {
                        Some(v) => tau_min.at(m as int) matches Some(w) && w < v,
                        None => true,
                    })
                    &&& tau_min.at(m as int) is Some
                    &&& curr.at(m as int) is Some
                    &&& stop_on_some_route(tt, m)
                },
                forall|s: int| 0 <= s < n && (#[trigger] curr.times@[s]) is Some
                    ==> stop_on_some_route(tt, s as usize),
                forall|s: int| 0 <= s < n && (#[trigger] tau_min.times@[s]) is Some
                    && self.tau_min.at(s) is None ==> stop_on_some_route(tt, s as usize),
                forall|s: int|
                    #![trigger tau_min.times@[s]]
                    0 <= s < n ==> ((tau_min.times@[s] == self.tau_min.times@[s]
                        && curr.times@[s] is None) || (tau_min.times@[s]
                        != self.tau_min.times@[s] && curr.times@[s] == tau_min.times@[s])),
                forall|s: int|
                    #![trigger tau_min.times@[s]]
                    0 <= s < n && tau_min.times@[s] != self.tau_min.times@[s]
                    ==> marked@.contains(s as usize),
                forall|i: int, j: int|
                    #![trigger marked@[i], marked@[j]]
                    0 <= i < j < marked@.len() ==> marked@[i] != marked@[j],
                forall|i: int| 0 <= i < qi ==> hop_step_bound(
                    tt,
                    (#[trigger] queue@[i]).route,
                    queue@[i].hop_stop,
                    self.rounds@[prev_idx as int].tau.times@,
                    self.target,
                    tau_min.times@,
                ),
                sound_premises(tt) ==> {
                    &&& forall|s2: int| 0 <= s2 < n ==> match #[trigger] curr.times@[s2] {
                        Some(v) => achievable(tt, srcv, t0v, gk, s2 as usize, v),
                        None => true,
                    }
                    &&& forall|s2: int| 0 <= s2 < n ==> match #[trigger] tau_min.times@[s2] {
                        Some(v) => achievable(tt, srcv, t0v, gk, s2 as usize, v),
                        None => true,
                    }
                    &&& forall|s2: int| 0 <= s2 < n ==> scan_entry_witnessed(
                        tt,
                        self.rounds@[prev_idx as int].tau.times@,
                        curr.times@,
                        s2,
                    )
                },
            decreases queue@.len() - qi,
        {
            let item = queue[qi];
            proof {
                assert(q.items@[qi as int].route < self.timetable.routes@.len());
            }
            let ghost tm0 = tau_min;
            let ghost curr0 = curr;
            let ghost marked0 = marked@;
            proof {
                reveal(Raptor::sound);
                if sound_premises(tt) {
                    assert forall|s2: int| 0 <= s2 < n implies
                        match #[trigger] self.rounds@[prev_idx as int].tau.times@[s2] {
                            Some(v) => achievable(
                                tt,
                                srcv,
                                t0v,
                                (gk - 1) as nat,
                                s2 as usize,
                                v,
                            ),
                            None => true,
                        } by {
                        assert(0 <= prev_idx < self.rounds@.len());
                    }
                }
            }
            let res = scan_route(
                &self.timetable,
                item,
                &self.rounds[prev_idx].tau,
                self.target,
                &mut curr,
                &mut tau_min,
                &mut marked,
                Ghost(srcv),
                Ghost(t0v),
                Ghost(gk),
            );
            match res {
                Ok(u) => {},
                Err(e) => {
                    proof {
                        assert(!route_consistent(tt.routes@[item.route as int]));
                        assert(!tt.consistent());
                    }
                    return Err(e);
                },
            }
            proof {
                lemma_tau_le_trans(tau_min, tm0, self.tau_min);
                assert forall|i: int| 0 <= i < marked@.len() implies {
                    let m = #[trigger] marked@[i];
                    &&& m < n
                    &&& (match self.tau_min.at(m as int) {
                        Some(v) => tau_min.at(m as int) matches Some(w) && w < v,
                        None => true,
                    })
                    &&& tau_min.at(m as int) is Some
                    &&& curr.at(m as int) is Some
                    &&& stop_on_some_route(tt, m)
                } by {
                    if i < marked0.len() {
                        assert(marked@[i] == marked0[i]);
                    } else {
                        assert(on_pattern(
                            route_pattern(tt.routes@[item.route as int]),
                            marked@[i],
                        ));
                    }
                }
                assert forall|s: int| 0 <= s < n && (#[trigger] curr.times@[s]) is Some implies
                    stop_on_some_route(tt, s as usize) by {
                    if curr0.at(s) is None {
                        assert(on_pattern(
                            route_pattern(tt.routes@[item.route as int]),
                            s as usize,
                        ));
                    }
                }
                assert forall|s: int| 0 <= s < n && (#[trigger] tau_min.times@[s]) is Some
                    && self.tau_min.at(s) is None implies stop_on_some_route(tt, s as usize) by {
                    if tm0.at(s) is Some {
                    } else {
                        assert(on_pattern(
                            route_pattern(tt.routes@[item.route as int]),
                            s as usize,
                        ));
                    }
                }
                assert forall|s: int|
                    #![trigger tau_min.times@[s]]
                    0 <= s < n implies ((tau_min.times@[s] == self.tau_min.times@[s]
                    && curr.times@[s] is None) || (tau_min.times@[s] != self.tau_min.times@[s]
                    && curr.times@[s] == tau_min.times@[s])) by {
                    if tau_min.times@[s] == tm0.times@[s] {
                        assert(curr.times@[s] == curr0.times@[s]);
                    } else {
                        // this scan recorded s: both tables now hold the same value,
                        // strictly below the round-start best
                        assert(curr.times@[s] == tau_min.times@[s]);
                        if tau_min.times@[s] == self.tau_min.times@[s] {
                            // values only fall: equal to the start forces no change
                            assert(tau_le(tau_min, tm0));
                            assert(tau_le(tm0, self.tau_min));
                            if self.tau_min.times@[s] is Some {
                                assert(tm0.times@[s] is Some);
                                assert(false);
                            } else {
                                assert(tau_min.times@[s] is None);
                                assert(tm0.times@[s] is None);
                                assert(false);
                            }
                        }
                    }
                }
                assert forall|s: int|
                    #![trigger tau_min.times@[s]]
                    0 <= s < n && tau_min.times@[s] != self.tau_min.times@[s]
                    implies marked@.contains(s as usize) by {
                    if tau_min.times@[s] != tm0.times@[s] {
                    } else {
                        let w = choose|w: int|
                            0 <= w < marked0.len() && marked0[w] == s as usize;
                        assert(marked@[w] == s as usize);
                    }
                }
                assert forall|i: int| 0 <= i < qi + 1 implies hop_step_bound(
                    tt,
                    (#[trigger] queue@[i]).route,
                    queue@[i].hop_stop,
                    self.rounds@[prev_idx as int].tau.times@,
                    self.target,
                    tau_min.times@,
                ) by {
                    assert(q.items@[i].route < tt.routes@.len());
                    if i < qi {
                        lemma_hop_step_bound_mono(
                            tt,
                            queue@[i].route,
                            queue@[i].hop_stop,
                            self.rounds@[prev_idx as int].tau.times@,
                            self.target,
                            tau_min.times@,
                            tm0.times@,
                        );
                    }
                }
            }
            qi = qi + 1;
        }

        // the footpath phase reads from a frozen snapshot of the scan's
        // results: origins are the scan-marked stops at their scan
        // arrivals, so footpaths cannot chain within the round
        let scan_part = curr.snapshot();
        let scan_marked = crate::data::copy_indices(&marked);
        let ghost tm_scan = tau_min;
        proof {
            assert(scan_marked@.is_prefix_of(marked@)) by {
                assert(scan_marked@ =~= marked@.subrange(0, scan_marked@.len() as int));
            }
            assert forall|s: int| 0 <= s < n implies #[trigger] tau_min.times@[s] == opt_min(
                tm_scan.times@[s],
                curr.times@[s],
            ) by {}
        }
        let mut ti: usize = 0;
        while ti < self.timetable.transfers.len()
            invariant
                ti <= self.timetable.transfers@.len(),
                curr.wf(n),
                tau_min.wf(n),
                curr.times@ == relax_prefix(tt, scan_marked@, scan_part.times@, ti as int),
                forall|s: int| 0 <= s < n ==> #[trigger] tau_min.times@[s] == opt_min(
                    tm_scan.times@[s],
                    curr.times@[s],
                ),
                forall|s: int| 0 <= s < n ==> match #[trigger] scan_part.times@[s] {
                    Some(x) => curr.times@[s] matches Some(y) && y <= x,
                    None => true,
                },
                forall|s: int| 0 <= s < n && (#[trigger] curr.times@[s]) is Some
                    ==> scan_part.times@[s] is Some
                        || exists|f: int| 0 <= f < tt.transfers@.len()
                            && (#[trigger] tt.transfers@[f]).to == s
                            && stop_on_some_route(tt, tt.transfers@[f].from),
                tau_le(tau_min, self.tau_min),
                scan_marked@.is_prefix_of(marked@),
                forall|i: int, j: int|
                    #![trigger marked@[i], marked@[j]]
                    0 <= i < j < marked@.len() ==> marked@[i] != marked@[j],
                forall|i: int| 0 <= i < marked@.len() ==> {
                    let m = #[trigger] marked@[i];
                    &&& m < n
                    &&& (match self.tau_min.at(m as int) {
                        Some(v) => tau_min.at(m as int) matches Some(w) && w < v,
                        None => true,
                    })
                    &&& tau_min.at(m as int) is Some
                    &&& curr.at(m as int) is Some
                    &&& stop_touchable(tt, m)
                },
                forall|s: int|
                    #![trigger tau_min.times@[s]]
                    0 <= s < n && tau_min.times@[s] != self.tau_min.times@[s]
                    ==> marked@.contains(s as usize),
                sound_premises(tt) ==> {
                    &&& forall|s2: int| 0 <= s2 < n ==> match #[trigger] curr.times@[s2] {
                        Some(v) => achievable(tt, srcv, t0v, gk, s2 as usize, v),
                        None => true,
                    }
                    &&& forall|s2: int| 0 <= s2 < n ==> match #[trigger] tau_min.times@[s2] {
                        Some(v) => achievable(tt, srcv, t0v, gk, s2 as usize, v),
                        None => true,
                    }
                },
                forall|i: int| 0 <= i < queue@.len() ==> hop_step_bound(
                    tt,
                    (#[trigger] queue@[i]).route,
                    queue@[i].hop_stop,
                    self.rounds@[prev_idx as int].tau.times@,
                    self.target,
                    tau_min.times@,
                ),
            decreases self.timetable.transfers@.len() - ti,
        {
            let tf = self.timetable.transfers[ti];
            if contains_stop(&scan_marked, tf.from) {
                proof {
                    assert(stop_on_some_route(tt, tf.from)) by {
                        let w = choose|w: int|
                            0 <= w < scan_marked@.len() && scan_marked@[w] == tf.from;
                        assert(marked@[w] == tf.from);
                    }
                }
                match scan_part.get(tf.from) {
                    Some(base) => {
                        let cand: u64 = base as u64 + tf.time as u64;
                        if cand <= 0xFFFF_FFFFu64 {
                            let candv: Time = cand as u32;
                            let newv: Time = match curr.get(tf.to) {
                                Some(x) => if candv < x {
                                    candv
                                } else {
                                    x
                                },
                                None => candv,
                            };
                            proof {
                                assert(tt.transfers@[ti as int].to == tf.to);
                                if sound_premises(tt) {
                                    assert(achievable(tt, srcv, t0v, gk, tf.from, base));
                                    lemma_achievable_walk(
                                        tt,
                                        srcv,
                                        t0v,
                                        gk,
                                        ti as int,
                                        base,
                                        candv,
                                    );
                                    assert(achievable(tt, srcv, t0v, gk, tf.to, candv));
                                }
                            }
                            curr.set(tf.to, newv);
                            // a footpath improvement is an improvement like any
                            // other: it lowers the global best and marks its
                            // destination for the next round's scan queue
                            let improve: bool = match tau_min.get(tf.to) {
                                Some(x) => newv < x,
                                None => true,
                            };
                            let ghost marked0 = marked@;
                            let ghost tau_min0 = tau_min;
                            if improve {
                                tau_min.set(tf.to, newv);
                                if !contains_stop(&marked, tf.to) {
                                    marked.push(tf.to);
                                }
                            }
                            proof {
                                assert(curr.times@ =~= relax_prefix(
                                    tt,
                                    scan_marked@,
                                    scan_part.times@,
                                    ti + 1 as int,
                                ));
                                assert(stop_on_some_route(tt, tt.transfers@[ti as int].from));
                                assert(stop_touchable(tt, tf.to));
                                assert forall|s: int|
                                    #![trigger tau_min.times@[s]]
                                    0 <= s < n && tau_min.times@[s] != self.tau_min.times@[s]
                                    implies marked@.contains(s as usize) by {
                                    if tau_min.times@[s] == tau_min0.times@[s] {
                                        let w = choose|w: int|
                                            0 <= w < marked0.len() && marked0[w] == s as usize;
                                        assert(marked@[w] == s as usize);
                                    } else {
                                        if marked0.contains(tf.to) {
                                            let w = choose|w: int|
                                                0 <= w < marked0.len() && marked0[w] == tf.to;
                                            assert(marked@[w] == s as usize);
                                        } else {
                                            assert(marked@[marked@.len() - 1] == s as usize);
                                        }
                                    }
                                }
                                if improve {
                                    assert(tau_le(tau_min, tau_min0));
                                    lemma_tau_le_trans(tau_min, tau_min0, self.tau_min);
                                    assert forall|i: int| 0 <= i < queue@.len() implies
                                        hop_step_bound(
                                        tt,
                                        (#[trigger] queue@[i]).route,
                                        queue@[i].hop_stop,
                                        self.rounds@[prev_idx as int].tau.times@,
                                        self.target,
                                        tau_min.times@,
                                    ) by {
                                        assert(q.items@[i].route < tt.routes@.len());
                                        lemma_hop_step_bound_mono(
                                            tt,
                                            queue@[i].route,
                                            queue@[i].hop_stop,
                                            self.rounds@[prev_idx as int].tau.times@,
                                            self.target,
                                            tau_min.times@,
                                            tau_min0.times@,
                                        );
                                    }
                                }
                            }
                        } else {
                            proof {
                                assert(curr.times@ == relax_prefix(
                                    tt,
                                    scan_marked@,
                                    scan_part.times@,
                                    ti + 1 as int,
                                ));
                            }
                        }
                    },
                    None => {
                        proof {
                            let w = choose|w: int|
                                0 <= w < scan_marked@.len() && scan_marked@[w] == tf.from;
                            assert(curr.at(marked@[w] as int) is Some);
                            assert(false);
                        }
                    },
                }
            } else {
                proof {
                    assert(curr.times@ == relax_prefix(
                        tt,
                        scan_marked@,
                        scan_part.times@,
                        ti + 1 as int,
                    ));
                }
            }
            ti = ti + 1;
        }

        let marked_count = marked.len();
        let q_len = queue.len();
        self.tau_min = tau_min;
        self.marked_stops = marked;
        self.rounds.push(Round {
            tau: curr,
            scan: Ghost(scan_part.times@),
            scan_marked: Ghost(scan_marked@),
        });
        if self.route_scans <= u64::MAX - q_len as u64 {
            self.route_scans = self.route_scans + q_len as u64;
        } else {
            self.route_scans = u64::MAX;
        }
        self.marked_per_round.push(marked_count);
        proof {
            reveal(Raptor::sound);
            assert(self.rounds@.len() == old(self).rounds@.len() + 1);
            assert(old(self).rounds@.is_prefix_of(self.rounds@)) by {
                assert(old(self).rounds@ =~= self.rounds@.subrange(
                    0,
                    old(self).rounds@.len() as int,
                ));
            }
            // the scan snapshot relates to the round-start best pointwise
            assert forall|s: int| 0 <= s < n implies #[trigger] tm_scan.times@[s] == opt_min(
                old(self).tau_min.times@[s],
                scan_part.times@[s],
            ) by {}
            // relaxation only lowers, so the final best is the minimum of
            // the round-start best and the appended round
            assert forall|s: int|
                #![trigger self.tau_min.times@[s]]
                0 <= s < n implies self.tau_min.times@[s] == opt_min(
                old(self).tau_min.times@[s],
                self.rounds@.last().tau.times@[s],
            ) by {
                assert(self.rounds@.last().tau == curr);
            }
            assert forall|k: int, s: int|
                #![trigger self.rounds@[k].tau.times@[s]]
                0 <= k < self.rounds@.len() && 0 <= s < n && self.rounds@[k].tau.at(s) is Some
                implies s == self.source || stop_touchable(self.timetable, s as usize) by {
                if k < old(self).rounds@.len() {
                    assert(self.rounds@[k] == old(self).rounds@[k]);
                    assert(old(self).rounds@[k].tau.times@[s] is Some);
                } else {
                    assert(self.rounds@[k].tau == curr);
                    if scan_part.times@[s] is Some {
                        assert(stop_on_some_route(tt, s as usize));
                    }
                }
            }
            assert forall|s: int| 0 <= s < n && (#[trigger] self.tau_min.times@[s]) is Some
                implies s == self.source || stop_touchable(self.timetable, s as usize) by {
                if old(self).tau_min.times@[s] is Some {
                } else {
                    assert(self.tau_min.times@[s] != old(self).tau_min.times@[s]);
                    let w = choose|w: int|
                        0 <= w < self.marked_stops@.len()
                            && self.marked_stops@[w] == s as usize;
                    assert(stop_touchable(tt, self.marked_stops@[w]));
                }
            }
            assert forall|s: int| 0 <= s < n implies #[trigger] self.tau_min.times@[s]
                == rounds_min(self.rounds@, s) by {
                assert(self.rounds@.drop_last() =~= old(self).rounds@);
                assert(rounds_min(self.rounds@, s) == opt_min(
                    rounds_min(old(self).rounds@, s),
                    self.rounds@.last().tau.times@[s],
                ));
                assert(rounds_min(old(self).rounds@, s) == old(self).tau_min.times@[s]);
            }
            if sound_premises(tt) {
                assert forall|k2: int, s2: int|
                    #![trigger self.rounds@[k2].tau.times@[s2]]
                    0 <= k2 < self.rounds@.len() && 0 <= s2 < n implies
                    match self.rounds@[k2].tau.times@[s2] {
                        Some(v) => achievable(tt, srcv, t0v, k2 as nat, s2 as usize, v),
                        None => true,
                    } by {
                    if k2 < old(self).rounds@.len() {
                        assert(self.rounds@[k2] == old(self).rounds@[k2]);
                        assert(old(self).rounds@[k2].tau.times@[s2]
                            == self.rounds@[k2].tau.times@[s2]);
                    } else {
                        assert(self.rounds@[k2].tau == curr);
                        assert(k2 == gk);
                    }
                }
            }
            assert forall|s: int|
                #![trigger self.tau_min.times@[s]]
                0 <= s < n implies (self.marked_stops@.contains(s as usize)
                <==> self.tau_min.times@[s] != old(self).tau_min.times@[s]) by {
                if self.marked_stops@.contains(s as usize) {
                    let w = choose|w: int|
                        0 <= w < self.marked_stops@.len()
                            && self.marked_stops@[w] == s as usize;
                    assert(self.marked_stops@[w] == s as usize);
                }
            }
            // the scan history is written exactly at the scan-marked stops,
            // strictly below the round-start best and on scanned routes
            assert forall|s: int| 0 <= s < n implies (self.rounds@.last().scan_marked@.contains(
                s as usize,
            ) <==> (#[trigger] self.rounds@.last().scan@[s]) is Some) by {
                assert(self.rounds@.last().scan@ == scan_part.times@);
                if scan_marked@.contains(s as usize) {
                    let w = choose|w: int|
                        0 <= w < scan_marked@.len() && scan_marked@[w] == s as usize;
                    assert(scan_part.times@[scan_marked@[w] as int] is Some);
                }
                if scan_part.times@[s] is Some {
                    assert(tm_scan.times@[s] != old(self).tau_min.times@[s]);
                }
            }
            assert forall|s: int|
                #![trigger self.rounds@.last().scan@[s]]
                0 <= s < n implies match self.rounds@.last().scan@[s] {
                Some(v) => (match old(self).tau_min.times@[s] {
                    Some(o) => v < o,
                    None => true,
                }) && stop_on_some_route(old(self).timetable, s as usize),
                None => true,
            } by {
                assert(self.rounds@.last().scan@ == scan_part.times@);
                if scan_part.times@[s] is Some {
                    assert(tm_scan.times@[s] == scan_part.times@[s]);
                    assert(tau_le(tm_scan, old(self).tau_min));
                }
            }
            assert(self.rounds@.last().tau.times@ == relax_prefix(
                tt,
                self.rounds@.last().scan_marked@,
                self.rounds@.last().scan@,
                tt.transfers@.len() as int,
            ));
            if sound_premises(tt) {
                assert forall|s: int| 0 <= s < n implies scan_entry_witnessed(
                    tt,
                    old(self).rounds@.last().tau.times@,
                    self.rounds@.last().scan@,
                    s,
                ) by {
                    assert(self.rounds@.last().scan@ == scan_part.times@);
                    assert(scan_entry_witnessed(
                        tt,
                        old(self).rounds@.last().tau.times@,
                        scan_part.times@,
                        s,
                    ));
                }
            }
            if self.marked_stops@.len() == 0 {
                assert(scan_marked@.len() == 0);
                lemma_relax_prefix_unmarked(
                    tt,
                    scan_marked@,
                    scan_part.times@,
                    tt.transfers@.len() as int,
                );
                assert forall|s: int| 0 <= s < n implies
                    self.rounds@.last().tau.at(s) is None by {
                    if scan_part.times@[s] is Some {
                        assert(self.rounds@.last().scan_marked@.contains(s as usize));
                    }
                    assert(self.rounds@.last().tau.times@[s] == scan_part.times@[s]);
                }
            }
            assert forall|ri: usize, h: usize|
                #![trigger first_pos(route_pattern(old(self).timetable.routes@[ri as int]), h)]
                (ri < old(self).timetable.routes@.len() && old(self).marked_stops@.contains(h)
                    && on_pattern(route_pattern(old(self).timetable.routes@[ri as int]), h) && (
                forall|j2: int|
                    0 <= j2 < old(self).marked_stops@.len() && on_pattern(
                        route_pattern(old(self).timetable.routes@[ri as int]),
                        #[trigger] old(self).marked_stops@[j2],
                    ) ==> first_pos(route_pattern(old(self).timetable.routes@[ri as int]), h)
                        <= first_pos(
                            route_pattern(old(self).timetable.routes@[ri as int]),
                            old(self).marked_stops@[j2],
                        ))) implies hop_step_bound(
                old(self).timetable,
                ri,
                h,
                old(self).rounds@.last().tau.times@,
                old(self).target,
                self.tau_min.times@,
            ) by {
                let pat = route_pattern(tt.routes@[ri as int]);
                let jh = choose|jh: int|
                    0 <= jh < old(self).marked_stops@.len() && old(self).marked_stops@[jh] == h;
                assert(on_pattern(pat, old(self).marked_stops@[jh]));
                assert(q.has_route(ri));
                let i = choose|i: int|
                    0 <= i < q.items@.len() && (#[trigger] q.items@[i]).route == ri;
                assert(queue@[i] == q.items@[i]);
                let hop = q.items@[i].hop_stop;
                assert(first_pos(pat, hop) <= first_pos(pat, h));
                assert(first_pos(pat, h) <= first_pos(pat, hop)) by {
                    let jm = choose|jm: int|
                        0 <= jm < old(self).marked_stops@.len()
                            && old(self).marked_stops@[jm] == hop;
                    assert(on_pattern(pat, old(self).marked_stops@[jm]));
                }
                crate::data::lemma_first_pos(pat, h);
                crate::data::lemma_first_pos(pat, hop);
                assert(h == hop);
                assert(hop_step_bound(
                    tt,
                    queue@[i].route,
                    queue@[i].hop_stop,
                    old(self).rounds@.last().tau.times@,
                    old(self).target,
                    self.tau_min.times@,
                ));
            }
        }
        Ok(())
    }

    /// Whether the search has converged: at least one round was taken
    /// and no stop is marked.
    pub fn is_finished(&self) -> (r: bool)
        ensures
            r == (self.rounds@.len() > 0 && self.marked_stops@.len() == 0),
    {
        !self.rounds.is_empty() && self.marked_stops.is_empty()
    }

    /// Runs rounds until no stop is marked.  This terminates for every
    /// timetable: a round either strictly improves some stop's best
    /// arrival — and the total weight of `tau_min` is a strictly
    /// decreasing, non-negative measure — or marks nothing, which ends
    /// the loop.
    pub fn run(&mut self) -> (r: Result<(), ProcessingError>)
        requires
            old(self).wf(),
            old(self).sound(),
        ensures
            final(self).wf(),
            final(self).sound(),
            final(self).timetable == old(self).timetable,
            final(self).source == old(self).source,
            final(self).start_time == old(self).start_time,
            final(self).target == old(self).target,
            tau_le(final(self).tau_min, old(self).tau_min),
            r matches Ok(u) ==> final(self).rounds@.len() >= 1
                && final(self).marked_stops@.len() == 0,
            r matches Ok(u) ==> (final(self).rounds@.len() == old(self).rounds@.len()
                || forall|s: int| 0 <= s < old(self).timetable.stops@.len()
                    ==> final(self).rounds@.last().tau.at(s) is None),
            r matches Ok(u) ==> (final(self).rounds@.len() == old(self).rounds@.len()
                || forall|ri: usize, h: usize|
                    #![trigger first_pos(route_pattern(old(self).timetable.routes@[ri as int]), h)]
                    (ri < old(self).timetable.routes@.len() && old(self).marked_stops@.contains(
                        h,
                    ) && on_pattern(route_pattern(old(self).timetable.routes@[ri as int]), h) && (
                    forall|j2: int|
                        0 <= j2 < old(self).marked_stops@.len() && on_pattern(
                            route_pattern(old(self).timetable.routes@[ri as int]),
                            #[trigger] old(self).marked_stops@[j2],
                        ) ==> first_pos(
                            route_pattern(old(self).timetable.routes@[ri as int]),
                            h,
                        ) <= first_pos(
                            route_pattern(old(self).timetable.routes@[ri as int]),
                            old(self).marked_stops@[j2],
                        ))) ==> hop_step_bound(
                        old(self).timetable,
                        ri,
                        h,
                        old(self).rounds@.last().tau.times@,
                        old(self).target,
                        final(self).tau_min.times@,
                    )),
            r matches Err(e) ==> !old(self).timetable.consistent() && e is NoStopOnTrip
                && diagnosed_inconsistency(old(self).timetable, e),
            old(self).timetable.consistent() ==> r matches Ok(u),
    {
        let ghost n = self.timetable.stops@.len() as int;
        while !self.is_finished()
            invariant
                self.wf(),
                self.sound(),
                self.rounds@.len() >= old(self).rounds@.len(),
                self.rounds@.len() == old(self).rounds@.len() ==> *self == *old(self),
                self.rounds@.len() > old(self).rounds@.len()
                    ==> (self.marked_stops@.len() == 0 ==> forall|s: int|
                        0 <= s < old(self).timetable.stops@.len()
                        ==> self.rounds@.last().tau.at(s) is None),
                self.rounds@.len() > old(self).rounds@.len() ==> forall|ri: usize, h: usize|
                    #![trigger first_pos(route_pattern(old(self).timetable.routes@[ri as int]), h)]
                    (ri < old(self).timetable.routes@.len() && old(self).marked_stops@.contains(
                        h,
                    ) && on_pattern(route_pattern(old(self).timetable.routes@[ri as int]), h) && (
                    forall|j2: int|
                        0 <= j2 < old(self).marked_stops@.len() && on_pattern(
                            route_pattern(old(self).timetable.routes@[ri as int]),
                            #[trigger] old(self).marked_stops@[j2],
                        ) ==> first_pos(
                            route_pattern(old(self).timetable.routes@[ri as int]),
                            h,
                        ) <= first_pos(
                            route_pattern(old(self).timetable.routes@[ri as int]),
                            old(self).marked_stops@[j2],
                        ))) ==> hop_step_bound(
                        old(self).timetable,
                        ri,
                        h,
                        old(self).rounds@.last().tau.times@,
                        old(self).target,
                        self.tau_min.times@,
                    ),
                self.timetable == old(self).timetable,
                self.source == old(self).source,
                self.start_time == old(self).start_time,
                self.target == old(self).target,
                tau_le(self.tau_min, old(self).tau_min),
            decreases 2 * tau_potential(self.tau_min) + (if self.marked_stops@.len() > 0 {
                1int
            } else {
                0int
            }),
        {
            let ghost pre = *self;
            proof {
                lemma_tau_weight_nonneg(pre.tau_min.times@, n);
            }
            match self.round() {
                Ok(u) => {},
                Err(e) => {
                    return Err(e);
                },
            }
            proof {
                lemma_tau_le_trans(self.tau_min, pre.tau_min, old(self).tau_min);
                if pre.rounds@.len() > old(self).rounds@.len() {
                    assert forall|ri: usize, h: usize|
                        #![trigger first_pos(route_pattern(old(self).timetable.routes@[ri as int]), h)]
                        (ri < old(self).timetable.routes@.len() && old(
                            self,
                        ).marked_stops@.contains(h) && on_pattern(
                            route_pattern(old(self).timetable.routes@[ri as int]),
                            h,
                        ) && (forall|j2: int|
                            0 <= j2 < old(self).marked_stops@.len() && on_pattern(
                                route_pattern(old(self).timetable.routes@[ri as int]),
                                #[trigger] old(self).marked_stops@[j2],
                            ) ==> first_pos(
                                route_pattern(old(self).timetable.routes@[ri as int]),
                                h,
                            ) <= first_pos(
                                route_pattern(old(self).timetable.routes@[ri as int]),
                                old(self).marked_stops@[j2],
                            ))) implies hop_step_bound(
                        old(self).timetable,
                        ri,
                        h,
                        old(self).rounds@.last().tau.times@,
                        old(self).target,
                        self.tau_min.times@,
                    ) by {
                        lemma_hop_step_bound_mono(
                            old(self).timetable,
                            ri,
                            h,
                            old(self).rounds@.last().tau.times@,
                            old(self).target,
                            self.tau_min.times@,
                            pre.tau_min.times@,
                        );
                    }
                } else {
                    assert(pre == *old(self));
                    assert forall|ri: usize, h: usize|
                        #![trigger first_pos(route_pattern(old(self).timetable.routes@[ri as int]), h)]
                        (ri < old(self).timetable.routes@.len() && old(
                            self,
                        ).marked_stops@.contains(h) && on_pattern(
                            route_pattern(old(self).timetable.routes@[ri as int]),
                            h,
                        ) && (forall|j2: int|
                            0 <= j2 < old(self).marked_stops@.len() && on_pattern(
                                route_pattern(old(self).timetable.routes@[ri as int]),
                                #[trigger] old(self).marked_stops@[j2],
                            ) ==> first_pos(
                                route_pattern(old(self).timetable.routes@[ri as int]),
                                h,
                            ) <= first_pos(
                                route_pattern(old(self).timetable.routes@[ri as int]),
                                old(self).marked_stops@[j2],
                            ))) implies hop_step_bound(
                        old(self).timetable,
                        ri,
                        h,
                        old(self).rounds@.last().tau.times@,
                        old(self).target,
                        self.tau_min.times@,
                    ) by {
                        assert(hop_step_bound(
                            pre.timetable,
                            ri,
                            h,
                            pre.rounds@.last().tau.times@,
                            pre.target,
                            self.tau_min.times@,
                        ));
                    }
                }
                lemma_tau_weight_nonneg(self.tau_min.times@, n);
                assert forall|s: int| 0 <= s < n implies slot_weight(
                    #[trigger] self.tau_min.times@[s],
                ) <= slot_weight(pre.tau_min.times@[s]) by {
                    assert(tau_le(self.tau_min, pre.tau_min));
                }
                if self.marked_stops@.len() > 0 {
                    let m = self.marked_stops@[0];
                    assert(slot_weight(self.tau_min.times@[m as int]) < slot_weight(
                        pre.tau_min.times@[m as int],
                    ));
                    lemma_tau_weight_lt(self.tau_min.times@, pre.tau_min.times@, n, m as int);
                } else {
                    lemma_tau_weight_le(self.tau_min.times@, pre.tau_min.times@, n);
                }
            }
        }
        Ok(())
    }
}

/// A stop that lies on no route, and into which every transfer starts
/// at a routeless (hence never-marked) origin — other than the source
/// itself — never appears in any round's arrivals and is absent from
/// the global best.
pub proof fn lemma_unreachable_stop_untouched(r: Raptor, s: usize)
    requires
        r.wf(),
        (s as int) < r.timetable.stops@.len(),
        s != r.source,
        forall|i: int| 0 <= i < r.timetable.routes@.len()
            ==> !on_pattern(route_pattern(#[trigger] r.timetable.routes@[i]), s),
        forall|f: int| 0 <= f < r.timetable.transfers@.len()
            && (#[trigger] r.timetable.transfers@[f]).to == s
            ==> !stop_on_some_route(r.timetable, r.timetable.transfers@[f].from),
    ensures
        r.tau_min.at(s as int) is None,
        forall|k: int| 0 <= k < r.rounds@.len()
            ==> (#[trigger] r.rounds@[k]).tau.at(s as int) is None,
{
    assert(!stop_touchable(r.timetable, s)) by {
        if stop_touchable(r.timetable, s) {
            if !stop_on_some_route(r.timetable, s) {
                let f = choose|f: int|
                    0 <= f < r.timetable.transfers@.len()
                        && (#[trigger] r.timetable.transfers@[f]).to == s
                        && stop_on_some_route(r.timetable, r.timetable.transfers@[f].from);
                assert(r.timetable.transfers@[f].to == s);
            }
        }
    }
    assert forall|k: int| 0 <= k < r.rounds@.len() implies
        (#[trigger] r.rounds@[k]).tau.at(s as int) is None by {
        if r.rounds@[k].tau.at(s as int) is Some {
            assert(r.rounds@[k].tau.times@[s as int] is Some);
        }
    }
}

/// Bounded boardings: an arrival recorded for stop `s` in round `k` is
/// achievable from the source by an actual journey using at most `k`
/// vehicle boardings — provided the timetable is pattern-homogeneous
/// and no route visits a stop twice.
pub proof fn lemma_bounded_boardings(r: Raptor, k: int, s: usize)
    requires
        r.sound(),
        sound_premises(r.timetable),
        0 <= k < r.rounds@.len(),
        (s as int) < r.timetable.stops@.len(),
    ensures
        r.rounds@[k].tau.at(s as int) matches Some(v) ==> achievable(
            r.timetable,
            r.source,
            r.start_time,
            k as nat,
            s,
            v,
        ),
{
    reveal(Raptor::sound);
    assert(r.rounds@[k].tau.times@[s as int] == r.rounds@[k].tau.at(s as int));
}

/// The same guarantee for the global best: an arrival in `tau_min` is
/// achievable using at most as many boardings as rounds taken.
pub proof fn lemma_bounded_boardings_tau_min(r: Raptor, s: usize)
    requires
        r.sound(),
        sound_premises(r.timetable),
        r.rounds@.len() >= 1,
        (s as int) < r.timetable.stops@.len(),
    ensures
        r.tau_min.at(s as int) matches Some(v) ==> achievable(
            r.timetable,
            r.source,
            r.start_time,
            (r.rounds@.len() - 1) as nat,
            s,
            v,
        ),
{
    reveal(Raptor::sound);
    assert(r.tau_min.times@[s as int] == r.tau_min.at(s as int));
}

/// A freshly constructed query state is sound: its only recorded
/// arrival is the source at the start time.
pub proof fn lemma_new_sound(r: Raptor)
    requires
        r.rounds@.len() == 1,
        forall|s: int| 0 <= s < r.timetable.stops@.len()
            ==> #[trigger] r.rounds@[0].tau.times@[s] == (if s == r.source {
                Some(r.start_time)
            } else {
                None::<Time>
            }),
        forall|s: int| 0 <= s < r.timetable.stops@.len()
            ==> #[trigger] r.tau_min.times@[s] == (if s == r.source {
                Some(r.start_time)
            } else {
                None::<Time>
            }),
    ensures
        r.sound(),
{
    reveal(Raptor::sound);
    if sound_premises(r.timetable) {
        lemma_achievable_source(r.timetable, r.source, r.start_time, 0, r.start_time);
        assert forall|k2: int, s2: int|
            #![trigger r.rounds@[k2].tau.times@[s2]]
            0 <= k2 < r.rounds@.len() && 0 <= s2 < r.timetable.stops@.len() implies
            match r.rounds@[k2].tau.times@[s2] {
                Some(v) => achievable(
                    r.timetable,
                    r.source,
                    r.start_time,
                    k2 as nat,
                    s2 as usize,
                    v,
                ),
                None => true,
            } by {
            assert(k2 == 0);
            if r.rounds@[0].tau.times@[s2] is Some {
                assert(s2 == r.source);
            }
        }
        assert forall|s2: int| 0 <= s2 < r.timetable.stops@.len() implies
            match #[trigger] r.tau_min.times@[s2] {
                Some(v) => achievable(
                    r.timetable,
                    r.source,
                    r.start_time,
                    (r.rounds@.len() - 1) as nat,
                    s2 as usize,
                    v,
                ),
                None => true,
            } by {
            if r.tau_min.times@[s2] is Some {
                assert(s2 == r.source);
            }
        }
    }
}

} // verus!
