//! The domain model: immutable entities forming a read-only graph.
//!
//! A timetable is an arena: stops live in one table and are referred to
//! everywhere by their index into it, routes likewise.  Trips carry
//! their stop times inline.  Entity records hold the feed's identifier
//! strings for display and diagnostics only; no logic compares them.

use vstd::prelude::*;

verus! {

use crate::error::ProcessingError;

/// Seconds since midnight.  Values past 86400 are allowed, for trips
/// crossing midnight.
pub type Time = u32;

/// A stop of the network.  Within a timetable a stop is identified by
/// its index into the stop table; the record carries display data.
#[derive(Debug, Clone)]
pub struct Stop {
    /// The identifier the feed uses for this stop.
    pub id: String,
    /// The stop's display name.
    pub name: String,
}

/// One visit of a trip at a stop.
#[derive(Debug, Clone, Copy, PartialEq, Eq, Structural)]
pub struct StopTime {
    /// Index of the visited stop in the timetable's stop table.
    pub stop: usize,
    /// When the vehicle arrives at the stop.
    pub arrival_time: Time,
    /// When the vehicle leaves the stop.
    pub departure_time: Time,
}

/// One vehicle run: an ordered sequence of stop times.
#[derive(Debug, Clone)]
pub struct Trip {
    /// The identifier the feed uses for this trip.
    pub id: String,
    /// The visits of the trip, in visit order.
    pub stop_times: Vec<StopTime>,
}

/// The ordered sequence of stop indices a trip visits: its stop pattern.
pub open spec fn trip_pattern(t: Trip) -> Seq<usize> {
    t.stop_times@.map(|i: int, st: StopTime| st.stop)
}

/// Position of the first occurrence of `s` in `p`; `p.len()` when `s`
/// does not occur.
pub open spec fn first_pos(p: Seq<usize>, s: usize) -> int
    decreases p.len(),
{
    if p.len() == 0 {
        0
    } else if p[0] == s {
        0
    } else {
        1 + first_pos(p.drop_first(), s)
    }
}

/// Whether stop `s` occurs in pattern `p`.
pub open spec fn on_pattern(p: Seq<usize>, s: usize) -> bool {
    first_pos(p, s) < p.len()
}

pub broadcast proof fn lemma_first_pos(p: Seq<usize>, s: usize)
    ensures
        0 <= #[trigger] first_pos(p, s) <= p.len(),
        first_pos(p, s) < p.len() ==> p[first_pos(p, s)] == s,
        forall|j: int| 0 <= j < first_pos(p, s) ==> p[j] != s,
    decreases p.len(),
{
    if p.len() == 0 {
    } else if p[0] == s {
    } else {
        lemma_first_pos(p.drop_first(), s);
        assert forall|j: int| 0 <= j < first_pos(p, s) implies p[j] != s by {
            if j > 0 {
                assert(p.drop_first()[j - 1] == p[j]);
            }
        }
    }
}

/// `on_pattern` agrees with sequence membership.
pub proof fn lemma_on_pattern_contains(p: Seq<usize>, s: usize)
    ensures
        on_pattern(p, s) <==> p.contains(s),
{
    lemma_first_pos(p, s);
    if p.contains(s) {
        let i = choose|i: int| 0 <= i < p.len() && p[i] == s;
        assert(first_pos(p, s) <= i);
    }
}

/// Position of the first occurrence of `s` in `p`, if any.
pub fn find_pos(p: &Vec<usize>, s: usize) -> (r: Option<usize>)
    ensures
        match r {
            Some(i) => i == first_pos(p@, s) && i < p@.len(),
            None => !on_pattern(p@, s),
        },
{
    proof {
        lemma_first_pos(p@, s);
    }
    let mut i: usize = 0;
    while i < p.len()
        invariant
            i <= p@.len(),
            forall|j: int| 0 <= j < i ==> p@[j] != s,
        decreases p@.len() - i,
    {
        if p[i] == s {
            proof {
                lemma_first_pos(p@, s);
            }
            return Some(i);
        }
        i = i + 1;
    }
    proof {
        lemma_first_pos(p@, s);
    }
    None
}

/// Copies a vector of stop indices.
pub(crate) fn copy_indices(v: &Vec<usize>) -> (r: Vec<usize>)
    ensures
        r@ == v@,
{
    let mut r: Vec<usize> = Vec::new();
    let mut i: usize = 0;
    while i < v.len()
        invariant
            i <= v@.len(),
            r@ == v@.take(i as int),
        decreases v@.len() - i,
    {
        r.push(v[i]);
        proof {
            assert(v@.take(i + 1 as int) =~= v@.take(i as int).push(v@[i as int]));
        }
        i = i + 1;
    }
    proof {
        assert(v@.take(v@.len() as int) =~= v@);
    }
    r
}

/// The suffix of `v` that starts at position `i`.
pub(crate) fn tail_from(v: &Vec<usize>, i: usize) -> (r: Vec<usize>)
    requires
        i <= v@.len(),
    ensures
        r@ == v@.skip(i as int),
{
    let mut r: Vec<usize> = Vec::new();
    let mut j: usize = i;
    while j < v.len()
        invariant
            i <= j <= v@.len(),
            r@ == v@.subrange(i as int, j as int),
        decreases v@.len() - j,
    {
        r.push(v[j]);
        proof {
            assert(v@.subrange(i as int, j + 1 as int)
                =~= v@.subrange(i as int, j as int).push(v@[j as int]));
        }
        j = j + 1;
    }
    r
}

/// Whether trip `t` visits stop `s`.
pub open spec fn trip_has_stop(t: Trip, s: usize) -> bool {
    on_pattern(trip_pattern(t), s)
}

/// The arrival time of trip `t` at its first visit of stop `s`.
pub open spec fn trip_arr(t: Trip, s: usize) -> Time {
    t.stop_times@[first_pos(trip_pattern(t), s)].arrival_time
}

/// The departure time of trip `t` at its first visit of stop `s`.
pub open spec fn trip_dep(t: Trip, s: usize) -> Time {
    t.stop_times@[first_pos(trip_pattern(t), s)].departure_time
}

impl Trip {
    /// The trip's stop-pattern fingerprint: the stop indices it visits,
    /// in visit order.  Trips with equal fingerprints are grouped into
    /// one logical route.
    pub fn group_id(&self) -> (r: Vec<usize>)
        ensures
            r@ == trip_pattern(*self),
    {
        let mut r: Vec<usize> = Vec::new();
        let mut i: usize = 0;
        while i < self.stop_times.len()
            invariant
                i <= self.stop_times@.len(),
                r@ == trip_pattern(*self).take(i as int),
            decreases self.stop_times@.len() - i,
        {
            r.push(self.stop_times[i].stop);
            proof {
                assert(trip_pattern(*self).take(i + 1 as int)
                    =~= trip_pattern(*self).take(i as int).push(trip_pattern(*self)[i as int]));
            }
            i = i + 1;
        }
        proof {
            assert(trip_pattern(*self).take(self.stop_times@.len() as int) =~= trip_pattern(*self));
        }
        r
    }

    /// The stops the trip visits, in visit order.
    pub fn stops(&self) -> (r: Vec<usize>)
        ensures
            r@ == trip_pattern(*self),
    {
        self.group_id()
    }

    /// The trip's stop time at `s`: the one of its first visit of `s`.
    /// A trip that does not visit `s` yields a diagnostic instead.
    pub fn stop_time(&self, s: usize) -> (r: Result<StopTime, ProcessingError>)
        ensures
            trip_has_stop(*self, s) ==> (r matches Ok(st)
                && st == self.stop_times@[first_pos(trip_pattern(*self), s)]),
            !trip_has_stop(*self, s) ==> (r matches Err(e)
                && e matches ProcessingError::NoStopOnTrip { stop_id, trip_id }
                && stop_id == s && trip_id == self.id),
    {
        let pattern = self.group_id();
        match find_pos(&pattern, s) {
            Some(i) => Ok(self.stop_times[i]),
            None => Err(ProcessingError::NoStopOnTrip { stop_id: s, trip_id: self.id.clone() }),
        }
    }

    /// The arrival time of the trip at its first visit of stop `s`.
    pub fn arr(&self, s: usize) -> (r: Result<Time, ProcessingError>)
        ensures
            trip_has_stop(*self, s) ==> (r matches Ok(t) && t == trip_arr(*self, s)),
            !trip_has_stop(*self, s) ==> (r matches Err(e)
                && e matches ProcessingError::NoStopOnTrip { stop_id, trip_id }
                && stop_id == s && trip_id == self.id),
    {
        match self.stop_time(s) {
            Ok(st) => Ok(st.arrival_time),
            Err(e) => Err(e),
        }
    }

    /// The departure time of the trip at its first visit of stop `s`.
    pub fn dep(&self, s: usize) -> (r: Result<Time, ProcessingError>)
        ensures
            trip_has_stop(*self, s) ==> (r matches Ok(t) && t == trip_dep(*self, s)),
            !trip_has_stop(*self, s) ==> (r matches Err(e)
                && e matches ProcessingError::NoStopOnTrip { stop_id, trip_id }
                && stop_id == s && trip_id == self.id),
    {
        match self.stop_time(s) {
            Ok(st) => Ok(st.departure_time),
            Err(e) => Err(e),
        }
    }
}

/// Whether two index vectors hold the same sequence.
pub(crate) fn indices_eq(a: &Vec<usize>, b: &Vec<usize>) -> (r: bool)
    ensures
        r == (a@ == b@),
{
    if a.len() != b.len() {
        return false;
    }
    let mut i: usize = 0;
    while i < a.len()
        invariant
            i <= a@.len(),
            a@.len() == b@.len(),
            forall|j: int| 0 <= j < i ==> a@[j] == b@[j],
        decreases a@.len() - i,
    {
        if a[i] != b[i] {
            return false;
        }
        i = i + 1;
    }
    proof {
        assert(a@ =~= b@);
    }
    true
}

/// A raw feed route: trips bundled under one feed route id, possibly
/// with differing stop patterns (branches).
#[derive(Debug, Clone)]
pub struct RawRoute {
    /// The identifier the feed uses for this route.
    pub id: String,
    /// The route's display name.
    pub name: String,
    /// All trips the feed files under this route id.
    pub trips: Vec<Trip>,
}

impl PartialEq for RawRoute {
    /// Raw routes are compared by feed id alone.
    fn eq(&self, other: &Self) -> (r: bool) {
        self.id == other.id
    }
}

impl Eq for RawRoute {}

impl vstd::std_specs::cmp::PartialEqSpecImpl for RawRoute {
    open spec fn obeys_eq_spec() -> bool {
        true
    }

    open spec fn eq_spec(&self, other: &Self) -> bool {
        self.id@ == other.id@
    }
}

/// The trips of `ts` whose pattern is `p`, in their original order.
pub open spec fn trips_with_pattern(ts: Seq<Trip>, p: Seq<usize>) -> Seq<Trip>
    decreases ts.len(),
{
    if ts.len() == 0 {
        Seq::<Trip>::empty()
    } else {
        let rest = trips_with_pattern(ts.drop_last(), p);
        if trip_pattern(ts.last()) == p {
            rest.push(ts.last())
        } else {
            rest
        }
    }
}

/// Every member of a pattern group carries the group's pattern.
pub proof fn lemma_trips_with_pattern_members(ts: Seq<Trip>, p: Seq<usize>)
    ensures
        forall|k: int| 0 <= k < trips_with_pattern(ts, p).len()
            ==> trip_pattern(#[trigger] trips_with_pattern(ts, p)[k]) == p,
    decreases ts.len(),
{
    if ts.len() > 0 {
        lemma_trips_with_pattern_members(ts.drop_last(), p);
        let rest = trips_with_pattern(ts.drop_last(), p);
        assert forall|k: int| 0 <= k < trips_with_pattern(ts, p).len() implies
            trip_pattern(#[trigger] trips_with_pattern(ts, p)[k]) == p by {
            if trip_pattern(ts.last()) == p {
                assert(trips_with_pattern(ts, p) == rest.push(ts.last()));
                if k < rest.len() {
                    assert(trips_with_pattern(ts, p)[k] == rest[k]);
                } else {
                    assert(trips_with_pattern(ts, p)[k] == ts.last());
                }
            } else {
                assert(trips_with_pattern(ts, p) == rest);
            }
        }
    }
}

/// A pattern that no trip carries has an empty group.
pub proof fn lemma_trips_with_pattern_absent(ts: Seq<Trip>, p: Seq<usize>)
    requires
        forall|j: int| 0 <= j < ts.len() ==> trip_pattern(#[trigger] ts[j]) != p,
    ensures
        trips_with_pattern(ts, p) == Seq::<Trip>::empty(),
    decreases ts.len(),
{
    if ts.len() > 0 {
        assert(forall|j: int| 0 <= j < ts.drop_last().len()
            ==> trip_pattern(#[trigger] ts.drop_last()[j]) != p);
        lemma_trips_with_pattern_absent(ts.drop_last(), p);
    }
}

/// Extending the scanned prefix by one trip extends exactly the group
/// of that trip's pattern.
pub proof fn lemma_trips_with_pattern_step(ts: Seq<Trip>, p: Seq<usize>, i: int)
    requires
        0 <= i < ts.len(),
    ensures
        trips_with_pattern(ts.take(i + 1), p) == (if trip_pattern(ts[i]) == p {
            trips_with_pattern(ts.take(i), p).push(ts[i])
        } else {
            trips_with_pattern(ts.take(i), p)
        }),
{
    assert(ts.take(i + 1).drop_last() =~= ts.take(i));
    assert(ts.take(i + 1).last() == ts[i]);
}

/// The distinct stop patterns of `ts`, in order of first appearance.
pub open spec fn distinct_patterns(ts: Seq<Trip>) -> Seq<Seq<usize>>
    decreases ts.len(),
{
    if ts.len() == 0 {
        Seq::<Seq<usize>>::empty()
    } else {
        let rest = distinct_patterns(ts.drop_last());
        if rest.contains(trip_pattern(ts.last())) {
            rest
        } else {
            rest.push(trip_pattern(ts.last()))
        }
    }
}

/// Every trip's pattern occurs among the distinct patterns.
pub proof fn lemma_distinct_patterns_cover(ts: Seq<Trip>)
    ensures
        forall|j: int| #![trigger ts[j]] 0 <= j < ts.len()
            ==> distinct_patterns(ts).contains(trip_pattern(ts[j])),
    decreases ts.len(),
{
    if ts.len() > 0 {
        lemma_distinct_patterns_cover(ts.drop_last());
        let rest = distinct_patterns(ts.drop_last());
        assert forall|j: int| #![trigger ts[j]] 0 <= j < ts.len() implies
            distinct_patterns(ts).contains(trip_pattern(ts[j])) by {
            if j < ts.len() - 1 {
                assert(ts.drop_last()[j] == ts[j]);
                assert(rest.contains(trip_pattern(ts[j])));
                let k = choose|k: int| 0 <= k < rest.len() && rest[k] == trip_pattern(ts[j]);
                assert(distinct_patterns(ts)[k] == trip_pattern(ts[j]));
            } else {
                if rest.contains(trip_pattern(ts.last())) {
                } else {
                    assert(distinct_patterns(ts).last() == trip_pattern(ts[j]));
                }
            }
        }
    }
}

/// The distinct patterns are pairwise distinct.
pub proof fn lemma_distinct_patterns_distinct(ts: Seq<Trip>)
    ensures
        forall|g1: int, g2: int|
            #![trigger distinct_patterns(ts)[g1], distinct_patterns(ts)[g2]]
            0 <= g1 < g2 < distinct_patterns(ts).len()
            ==> distinct_patterns(ts)[g1] != distinct_patterns(ts)[g2],
    decreases ts.len(),
{
    if ts.len() > 0 {
        lemma_distinct_patterns_distinct(ts.drop_last());
        let rest = distinct_patterns(ts.drop_last());
        if !rest.contains(trip_pattern(ts.last())) {
            assert forall|g1: int, g2: int|
                #![trigger distinct_patterns(ts)[g1], distinct_patterns(ts)[g2]]
                0 <= g1 < g2 < distinct_patterns(ts).len() implies
                distinct_patterns(ts)[g1] != distinct_patterns(ts)[g2] by {
                if g2 == rest.len() {
                    assert(rest[g1] == distinct_patterns(ts)[g1]);
                    assert(!rest.contains(distinct_patterns(ts)[g2]));
                } else {
                    assert(rest[g1] == distinct_patterns(ts)[g1]);
                    assert(rest[g2] == distinct_patterns(ts)[g2]);
                }
            }
        }
    }
}

/// Extending the scanned prefix by one trip either leaves the distinct
/// patterns unchanged or appends the new trip's pattern.
pub proof fn lemma_distinct_patterns_step(ts: Seq<Trip>, i: int)
    requires
        0 <= i < ts.len(),
    ensures
        distinct_patterns(ts.take(i + 1)) == (if distinct_patterns(ts.take(i)).contains(
            trip_pattern(ts[i]),
        ) {
            distinct_patterns(ts.take(i))
        } else {
            distinct_patterns(ts.take(i)).push(trip_pattern(ts[i]))
        }),
{
    assert(ts.take(i + 1).drop_last() =~= ts.take(i));
    assert(ts.take(i + 1).last() == ts[i]);
}

impl RawRoute {
    /// Partitions the trips by their pattern fingerprint, in order of
    /// first appearance: one group per distinct pattern, each group
    /// holding its trips in their original relative order.
    pub fn trip_groups(self) -> (groups: Vec<(Vec<usize>, Vec<Trip>)>)
        ensures
            forall|g: int| 0 <= g < groups@.len()
                ==> (#[trigger] groups@[g]).1@ == trips_with_pattern(self.trips@, groups@[g].0@),
            forall|g: int| 0 <= g < groups@.len() ==> (#[trigger] groups@[g]).1@.len() > 0,
            forall|g1: int, g2: int|
                #![trigger groups@[g1].0, groups@[g2].0]
                0 <= g1 < g2 < groups@.len() ==> groups@[g1].0@ != groups@[g2].0@,
            groups@.len() == distinct_patterns(self.trips@).len(),
            forall|g: int| 0 <= g < groups@.len()
                ==> (#[trigger] groups@[g]).0@ == distinct_patterns(self.trips@)[g],
    {
        let ghost t_all = self.trips@;
        let mut groups: Vec<(Vec<usize>, Vec<Trip>)> = Vec::new();
        let mut rest = self.trips;
        let total = rest.len();
        let mut i: usize = 0;
        while rest.len() > 0
            invariant
                t_all.len() == total,
                i + rest@.len() == t_all.len(),
                rest@ == t_all.skip(i as int),
                forall|g: int| 0 <= g < groups@.len()
                    ==> (#[trigger] groups@[g]).1@
                        == trips_with_pattern(t_all.take(i as int), groups@[g].0@),
                forall|g: int| 0 <= g < groups@.len() ==> (#[trigger] groups@[g]).1@.len() > 0,
                forall|g1: int, g2: int|
                    #![trigger groups@[g1].0, groups@[g2].0]
                    0 <= g1 < g2 < groups@.len() ==> groups@[g1].0@ != groups@[g2].0@,
                groups@.len() == distinct_patterns(t_all.take(i as int)).len(),
                forall|g: int| 0 <= g < groups@.len()
                    ==> (#[trigger] groups@[g]).0@ == distinct_patterns(t_all.take(i as int))[g],
            decreases rest@.len(),
        {
            let t = rest.remove(0);
            proof {
                assert(t == t_all[i as int]);
                assert(rest@ =~= t_all.skip(i as int + 1));
            }
            let gid = t.group_id();
            let mut g: usize = 0;
            let mut found: bool = false;
            while g < groups.len() && !found
                invariant
                    g <= groups@.len(),
                    !found ==> forall|h: int| 0 <= h < g
                        ==> (#[trigger] groups@[h]).0@ != gid@,
                    found ==> g < groups@.len() && groups@[g as int].0@ == gid@,
                decreases groups@.len() - g, (if found { 0int } else { 1int }),
            {
                if indices_eq(&groups[g].0, &gid) {
                    found = true;
                } else {
                    g = g + 1;
                }
            }
            if found {
                let ghost gs0 = groups@;
                let mut pair = groups.remove(g);
                pair.1.push(t);
                let ghost np = pair;
                groups.insert(g, pair);
                proof {
                    assert(groups@ =~= gs0.update(g as int, np));
                    assert(forall|h: int| 0 <= h < groups@.len()
                        ==> (#[trigger] groups@[h]).0@ == gs0[h].0@);
                    assert forall|h: int| 0 <= h < groups@.len() implies
                        (#[trigger] groups@[h]).1@
                            == trips_with_pattern(t_all.take(i + 1 as int), groups@[h].0@) by {
                        lemma_trips_with_pattern_step(t_all, groups@[h].0@, i as int);
                        if h != g {
                            assert(groups@[h] == gs0[h]);
                            assert(gs0[h].0@ != gid@);
                        }
                    }
                    lemma_distinct_patterns_step(t_all, i as int);
                    assert(distinct_patterns(t_all.take(i as int)).contains(gid@)) by {
                        assert(distinct_patterns(t_all.take(i as int))[g as int] == gid@);
                    }
                    assert(distinct_patterns(t_all.take(i + 1 as int))
                        == distinct_patterns(t_all.take(i as int)));
                }
            } else {
                let mut members: Vec<Trip> = Vec::new();
                members.push(t);
                let ghost gs0 = groups@;
                groups.push((gid, members));
                proof {
                    lemma_distinct_patterns_step(t_all, i as int);
                    assert(!distinct_patterns(t_all.take(i as int)).contains(gid@)) by {
                        if distinct_patterns(t_all.take(i as int)).contains(gid@) {
                            let k = choose|k: int|
                                0 <= k < distinct_patterns(t_all.take(i as int)).len()
                                    && distinct_patterns(t_all.take(i as int))[k] == gid@;
                            assert(gs0[k].0@ == gid@);
                        }
                    }
                    assert(distinct_patterns(t_all.take(i + 1 as int))
                        == distinct_patterns(t_all.take(i as int)).push(gid@));
                    lemma_distinct_patterns_cover(t_all.take(i as int));
                    assert forall|j: int| 0 <= j < i implies
                        trip_pattern(#[trigger] t_all.take(i as int)[j]) != gid@ by {
                        assert(distinct_patterns(t_all.take(i as int)).contains(
                            trip_pattern(t_all.take(i as int)[j]),
                        ));
                    }
                    lemma_trips_with_pattern_absent(t_all.take(i as int), gid@);
                    assert forall|h: int| 0 <= h < groups@.len() implies
                        (#[trigger] groups@[h]).1@
                            == trips_with_pattern(t_all.take(i + 1 as int), groups@[h].0@) by {
                        lemma_trips_with_pattern_step(t_all, groups@[h].0@, i as int);
                        if h < gs0.len() {
                            assert(groups@[h] == gs0[h]);
                            assert(gs0[h].0@ != gid@);
                        } else {
                            assert(groups@[h].1@ =~= Seq::<Trip>::empty().push(t));
                        }
                    }
                }
            }
            i = i + 1;
        }
        proof {
            assert(t_all.take(i as int) =~= t_all);
        }
        groups
    }

    /// Splits the raw route into logical routes, one per distinct stop
    /// pattern among its trips; each inherits the parent's id and name
    /// and carries the group's pattern as its fingerprint.
    ///
    /// Flagged, not silently special-cased: trips that coincidentally
    /// share a full stop sequence — such as opposite-direction loops
    /// with identical stop lists — are merged into one logical route.
    /// That is inherent in grouping by the stop-pattern fingerprint;
    /// only a feed field distinguishing direction could separate them.
    pub fn routes(self) -> (rs: Vec<Route>)
        ensures
            forall|g: int| 0 <= g < rs@.len() ==> {
                let rt = #[trigger] rs@[g];
                &&& rt.parent_id == self.id
                &&& rt.parent_name == self.name
                &&& rt.trips@ == trips_with_pattern(self.trips@, rt.group_id@)
                &&& rt.trips@.len() > 0
                &&& route_pattern(rt) == rt.group_id@
            },
            forall|g1: int, g2: int|
                #![trigger rs@[g1].group_id, rs@[g2].group_id]
                0 <= g1 < g2 < rs@.len() ==> rs@[g1].group_id@ != rs@[g2].group_id@,
            rs@.len() == distinct_patterns(self.trips@).len(),
            forall|g: int| 0 <= g < rs@.len()
                ==> (#[trigger] rs@[g]).group_id@ == distinct_patterns(self.trips@)[g],
    {
        let parent_id = self.id.clone();
        let parent_name = self.name.clone();
        let ghost t_all = self.trips@;
        let mut groups = self.trip_groups();
        let ghost gs = groups@;
        let n_groups = groups.len();
        let mut rs: Vec<Route> = Vec::new();
        let mut k: usize = 0;
        while groups.len() > 0
            invariant
                gs.len() == n_groups,
                k + groups@.len() == gs.len(),
                groups@ == gs.skip(k as int),
                parent_id == self.id,
                parent_name == self.name,
                rs@.len() == k,
                forall|g: int| 0 <= g < k ==> {
                    let rt = #[trigger] rs@[g];
                    &&& rt.parent_id == self.id
                    &&& rt.parent_name == self.name
                    &&& rt.group_id@ == gs[g].0@
                    &&& rt.trips@ == gs[g].1@
                },
            decreases groups@.len(),
        {
            let pair = groups.remove(0);
            proof {
                assert(pair == gs[k as int]);
                assert(groups@ =~= gs.skip(k as int + 1));
            }
            rs.push(Route {
                parent_id: parent_id.clone(),
                parent_name: parent_name.clone(),
                group_id: pair.0,
                trips: pair.1,
            });
            k = k + 1;
        }
        proof {
            assert forall|g: int| 0 <= g < rs@.len() implies {
                let rt = #[trigger] rs@[g];
                &&& rt.parent_id == self.id
                &&& rt.parent_name == self.name
                &&& rt.trips@ == trips_with_pattern(self.trips@, rt.group_id@)
                &&& rt.trips@.len() > 0
                &&& route_pattern(rt) == rt.group_id@
            } by {
                lemma_trips_with_pattern_members(t_all, rs@[g].group_id@);
            }
            assert forall|g: int| 0 <= g < rs@.len() implies
                (#[trigger] rs@[g]).group_id@ == distinct_patterns(t_all)[g] by {
                assert(rs@[g].group_id@ == gs[g].0@);
            }
        }
        rs
    }
}

/// A logical route: trips grouped under one parent feed route that all
/// share one stop pattern.
#[derive(Debug, Clone)]
pub struct Route {
    /// The feed identifier of the parent raw route.
    pub parent_id: String,
    /// The parent's display name.
    pub parent_name: String,
    /// The shared stop-pattern fingerprint of the member trips.
    pub group_id: Vec<usize>,
    /// The member trips.
    pub trips: Vec<Trip>,
}

/// A route's stop sequence: that of its first member trip, empty for a
/// route without trips.
pub open spec fn route_pattern(r: Route) -> Seq<usize> {
    if r.trips@.len() == 0 {
        Seq::<usize>::empty()
    } else {
        trip_pattern(r.trips@[0])
    }
}

impl Route {
    /// The route's identity: the parent feed route id paired with the
    /// pattern fingerprint.  Two routes are the same route exactly when
    /// both parts agree.
    pub fn id(&self) -> (r: (String, Vec<usize>))
        ensures
            r.0 == self.parent_id,
            r.1@ == self.group_id@,
    {
        (self.parent_id.clone(), copy_indices(&self.group_id))
    }

    /// The route's stop sequence, as visited by its first member trip.
    pub fn stops(&self) -> (r: Vec<usize>)
        ensures
            r@ == route_pattern(*self),
    {
        if self.trips.len() == 0 {
            let r: Vec<usize> = Vec::new();
            proof {
                assert(r@ =~= route_pattern(*self));
            }
            r
        } else {
            self.trips[0].stops()
        }
    }
}

impl PartialEq for Route {
    /// Route equality goes by the `(parent id, fingerprint)` identity,
    /// never by comparing trip lists.
    fn eq(&self, other: &Self) -> (r: bool) {
        if !(self.parent_id == other.parent_id) {
            return false;
        }
        if self.group_id.len() != other.group_id.len() {
            return false;
        }
        let mut i: usize = 0;
        while i < self.group_id.len()
            invariant
                i <= self.group_id@.len(),
                self.group_id@.len() == other.group_id@.len(),
                self.parent_id@ == other.parent_id@,
                forall|j: int| 0 <= j < i ==> self.group_id@[j] == other.group_id@[j],
            decreases self.group_id@.len() - i,
        {
            if self.group_id[i] != other.group_id[i] {
                return false;
            }
            i = i + 1;
        }
        proof {
            assert(self.group_id@ =~= other.group_id@);
        }
        true
    }
}

impl Eq for Route {}

impl vstd::std_specs::cmp::PartialEqSpecImpl for Route {
    open spec fn obeys_eq_spec() -> bool {
        true
    }

    open spec fn eq_spec(&self, other: &Self) -> bool {
        self.parent_id@ == other.parent_id@ && self.group_id@ == other.group_id@
    }
}

/// Whether `stop` occurs strictly before `other` in `route`'s stop
/// sequence.  A stop that does not occur on the route at all makes the
/// claim inconsistent, and the answer is a diagnostic naming it.
pub fn precedes(stop: usize, other: usize, route: &Route) -> (r: Result<bool, ProcessingError>)
    ensures
        ({
            let p = route_pattern(*route);
            &&& (on_pattern(p, stop) && on_pattern(p, other)) ==> (r matches Ok(b)
                    && b == (first_pos(p, stop) < first_pos(p, other)))
            &&& !on_pattern(p, stop) ==> (r matches Err(e)
                    && e matches ProcessingError::NoStopOnRoute { stop_id, route_id, group_id }
                    && stop_id == stop && route_id == route.parent_id
                    && group_id@ == route.group_id@)
            &&& (on_pattern(p, stop) && !on_pattern(p, other)) ==> (r matches Err(e)
                    && e matches ProcessingError::NoStopOnRoute { stop_id, route_id, group_id }
                    && stop_id == other && route_id == route.parent_id
                    && group_id@ == route.group_id@)
        }),
{
    let stops = route.stops();
    let p1 = match find_pos(&stops, stop) {
        Some(i) => i,
        None => {
            return Err(ProcessingError::NoStopOnRoute {
                stop_id: stop,
                route_id: route.parent_id.clone(),
                group_id: copy_indices(&route.group_id),
            });
        },
    };
    let p2 = match find_pos(&stops, other) {
        Some(i) => i,
        None => {
            return Err(ProcessingError::NoStopOnRoute {
                stop_id: other,
                route_id: route.parent_id.clone(),
                group_id: copy_indices(&route.group_id),
            });
        },
    };
    Ok(p1 < p2)
}

/// One scan task: a route together with the stop to start scanning at.
#[derive(Debug, Clone, Copy, PartialEq, Eq, Structural)]
pub struct QueueItem {
    /// Index of the route in the timetable's route table.
    pub route: usize,
    /// Index of the stop to hop on at.
    pub hop_stop: usize,
}

impl QueueItem {
    /// The part of the route's stop sequence the scan visits: from the
    /// hop stop (its first occurrence) to the end.  A hop stop that
    /// cannot be located on the route is an internal-consistency error,
    /// reported with the stop and the route's full identity.
    pub fn stops(&self, routes: &Vec<Route>) -> (r: Result<Vec<usize>, ProcessingError>)
        requires
            self.route < routes@.len(),
        ensures
            ({
                let p = route_pattern(routes@[self.route as int]);
                &&& on_pattern(p, self.hop_stop) ==> (r matches Ok(v)
                        && v@ == p.skip(first_pos(p, self.hop_stop)))
                &&& !on_pattern(p, self.hop_stop) ==> (r matches Err(e)
                        && e matches ProcessingError::NoStopOnRoute { stop_id, route_id, group_id }
                        && stop_id == self.hop_stop
                        && route_id == routes@[self.route as int].parent_id
                        && group_id@ == routes@[self.route as int].group_id@)
            }),
    {
        let pattern = routes[self.route].stops();
        match find_pos(&pattern, self.hop_stop) {
            Some(i) => Ok(tail_from(&pattern, i)),
            None => Err(ProcessingError::NoStopOnRoute {
                stop_id: self.hop_stop,
                route_id: routes[self.route].parent_id.clone(),
                group_id: copy_indices(&routes[self.route].group_id),
            }),
        }
    }
}

/// The per-round scan queue: at most one scan task per route.
#[derive(Debug, Clone)]
pub struct Queue {
    /// The queued scan tasks.
    pub items: Vec<QueueItem>,
}

impl Queue {
    /// Consistency of a queue against a route table: every item names a
    /// real route, its hop stop lies on that route, and no route
    /// appears twice.
    pub open spec fn wf(self, routes: Seq<Route>) -> bool {
        &&& forall|i: int| 0 <= i < self.items@.len()
                ==> (#[trigger] self.items@[i]).route < routes.len()
                    && on_pattern(
                        route_pattern(routes[self.items@[i].route as int]),
                        self.items@[i].hop_stop,
                    )
        &&& forall|i: int, j: int|
                #![trigger self.items@[i].route, self.items@[j].route]
                0 <= i < j < self.items@.len() ==> self.items@[i].route != self.items@[j].route
    }

    /// Whether some item already targets route `r`.
    pub open spec fn has_route(self, r: usize) -> bool {
        exists|i: int| 0 <= i < self.items@.len() && (#[trigger] self.items@[i]).route == r
    }

    /// Adds a scan task, keeping at most one per route.  When the route
    /// already has an entry, the hop occurring earlier in the route's
    /// stop order wins.  A hop that cannot be located on the route is
    /// an internal-consistency error and is rejected up front, so the
    /// queue never holds a task it could not scan.
    pub fn insert(&mut self, item: QueueItem, routes: &Vec<Route>) -> (r: Result<(), ProcessingError>)
        requires
            old(self).wf(routes@),
            item.route < routes@.len(),
        ensures
            ({
                let p = route_pattern(routes@[item.route as int]);
                &&& (r matches Ok(u) <==> on_pattern(p, item.hop_stop))
                &&& (on_pattern(p, item.hop_stop) && !old(self).has_route(item.route))
                        ==> final(self).items@ == old(self).items@.push(item)
                &&& (old(self).has_route(item.route) && on_pattern(p, item.hop_stop)) ==> {
                    &&& final(self).items@.len() == old(self).items@.len()
                    &&& forall|i: int|
                            0 <= i < old(self).items@.len()
                                && (#[trigger] old(self).items@[i]).route != item.route
                                ==> final(self).items@[i] == old(self).items@[i]
                    &&& forall|i: int|
                            0 <= i < old(self).items@.len()
                                && (#[trigger] old(self).items@[i]).route == item.route
                                ==> final(self).items@[i]
                                    == (if first_pos(p, item.hop_stop)
                                            < first_pos(p, old(self).items@[i].hop_stop) {
                                        item
                                    } else {
                                        old(self).items@[i]
                                    })
                }
                &&& (r matches Err(e) ==> (e matches ProcessingError::NoStopOnRoute {
                        stop_id,
                        route_id,
                        group_id,
                    } && stop_id == item.hop_stop
                        && route_id == routes@[item.route as int].parent_id
                        && group_id@ == routes@[item.route as int].group_id@
                        && *final(self) == *old(self)))
                &&& final(self).wf(routes@)
            }),
    {
        let pattern = routes[item.route].stops();
        if find_pos(&pattern, item.hop_stop).is_none() {
            return Err(ProcessingError::NoStopOnRoute {
                stop_id: item.hop_stop,
                route_id: routes[item.route].parent_id.clone(),
                group_id: copy_indices(&routes[item.route].group_id),
            });
        }
        let mut idx: usize = 0;
        while idx < self.items.len()
            invariant
                *self == *old(self),
                idx <= self.items@.len(),
                forall|j: int| 0 <= j < idx ==> (#[trigger] self.items@[j]).route != item.route,
            decreases self.items@.len() - idx,
        {
            if self.items[idx].route == item.route {
                let existing = self.items[idx];
                match precedes(item.hop_stop, existing.hop_stop, &routes[item.route]) {
                    Ok(true) => {
                        self.items[idx] = item;
                        return Ok(());
                    },
                    Ok(false) => {
                        return Ok(());
                    },
                    Err(e) => {
                        proof {
                            assert(false);
                        }
                        return Err(e);
                    },
                }
            }
            idx = idx + 1;
        }
        self.items.push(item);
        Ok(())
    }

    /// Builds the scan queue for a round from the marked stops.  A
    /// route gets a task exactly when some marked stop lies on it, and
    /// then exactly one task, hopping on at the marked stop that occurs
    /// earliest in the route's stop order.
    pub fn enqueue(marked_stops: &Vec<usize>, routes: &Vec<Route>) -> (q: Queue)
        ensures
            q.wf(routes@),
            forall|r: usize| #[trigger] q.has_route(r)
                <==> (r < routes@.len()
                    && exists|j: int| 0 <= j < marked_stops@.len()
                        && on_pattern(route_pattern(routes@[r as int]), #[trigger] marked_stops@[j])),
            forall|i: int| 0 <= i < q.items@.len() ==> {
                let it = #[trigger] q.items@[i];
                let p = route_pattern(routes@[it.route as int]);
                &&& marked_stops@.contains(it.hop_stop)
                &&& forall|j: int| 0 <= j < marked_stops@.len()
                        && on_pattern(p, #[trigger] marked_stops@[j])
                        ==> first_pos(p, it.hop_stop) <= first_pos(p, marked_stops@[j])
            },
    {
        let mut q = Queue { items: Vec::new() };
        let mut mi: usize = 0;
        while mi < marked_stops.len()
            invariant
                q.wf(routes@),
                mi <= marked_stops@.len(),
                forall|r: usize| #[trigger] q.has_route(r)
                    <==> (r < routes@.len()
                        && exists|j: int| 0 <= j < mi
                            && on_pattern(
                                route_pattern(routes@[r as int]),
                                #[trigger] marked_stops@[j],
                            )),
                forall|i: int| 0 <= i < q.items@.len() ==> {
                    let it = #[trigger] q.items@[i];
                    let p = route_pattern(routes@[it.route as int]);
                    &&& exists|j: int| 0 <= j < mi && marked_stops@[j] == it.hop_stop
                    &&& forall|j: int| 0 <= j < mi
                            && on_pattern(p, #[trigger] marked_stops@[j])
                            ==> first_pos(p, it.hop_stop) <= first_pos(p, marked_stops@[j])
                },
            decreases marked_stops@.len() - mi,
        {
            let m = marked_stops[mi];
            let mut ri: usize = 0;
            while ri < routes.len()
                invariant
                    q.wf(routes@),
                    ri <= routes@.len(),
                    forall|r: usize| #[trigger] q.has_route(r)
                        <==> (r < routes@.len()
                            && ((exists|j: int| 0 <= j < mi
                                    && on_pattern(
                                        route_pattern(routes@[r as int]),
                                        #[trigger] marked_stops@[j],
                                    ))
                                || (r < ri && on_pattern(route_pattern(routes@[r as int]), m)))),
                    forall|i: int| 0 <= i < q.items@.len() ==> {
                        let it = #[trigger] q.items@[i];
                        let p = route_pattern(routes@[it.route as int]);
                        &&& ((exists|j: int| 0 <= j < mi && marked_stops@[j] == it.hop_stop)
                                || it.hop_stop == m)
                        &&& forall|j: int| 0 <= j < mi
                                && on_pattern(p, #[trigger] marked_stops@[j])
                                ==> first_pos(p, it.hop_stop) <= first_pos(p, marked_stops@[j])
                        &&& (it.route < ri && on_pattern(p, m))
                                ==> first_pos(p, it.hop_stop) <= first_pos(p, m)
                    },
                decreases routes@.len() - ri,
            {
                let pattern = routes[ri].stops();
                let ghost q0 = q;
                if find_pos(&pattern, m).is_some() {
                    let item = QueueItem { route: ri, hop_stop: m };
                    match q.insert(item, routes) {
                        Ok(u) => {},
                        Err(e) => {
                            proof {
                                assert(false);
                            }
                        },
                    }
                    proof {
                        let rts = routes@;
                        let p = route_pattern(rts[ri as int]);
                        let items0 = q0.items@;
                        // each retained slot keeps its route; a new slot holds `item`
                        assert forall|i: int| 0 <= i < q.items@.len() implies {
                            &&& i < items0.len() ==> (#[trigger] q.items@[i]).route == items0[i].route
                            &&& i < items0.len()
                                ==> q.items@[i] == (if items0[i].route == item.route
                                        && first_pos(p, m) < first_pos(p, items0[i].hop_stop) {
                                        item
                                    } else {
                                        items0[i]
                                    })
                            &&& i >= items0.len() ==> q.items@[i] == item
                        } by {
                            if !q0.has_route(ri) {
                                assert(q.items@ == items0.push(item));
                                if i < items0.len() && items0[i].route == item.route {
                                    assert(q0.has_route(ri));
                                }
                            }
                        }
                        assert forall|r: usize| #[trigger] q.has_route(r) implies q0.has_route(r)
                            || r == ri by {
                            let i = choose|i: int|
                                0 <= i < q.items@.len() && (#[trigger] q.items@[i]).route == r;
                            if i < items0.len() {
                                assert(items0[i].route == r);
                            }
                        }
                        assert forall|r: usize| q0.has_route(r) implies #[trigger] q.has_route(r) by {
                            let i = choose|i: int|
                                0 <= i < items0.len() && (#[trigger] items0[i]).route == r;
                            assert(q.items@[i].route == r);
                        }
                        assert(q.has_route(ri)) by {
                            if q0.has_route(ri) {
                                let i = choose|i: int|
                                    0 <= i < items0.len() && (#[trigger] items0[i]).route == ri;
                                assert(q.items@[i].route == ri);
                            } else {
                                assert(q.items@[items0.len() as int].route == ri);
                            }
                        }
                    }
                }
                ri = ri + 1;
            }
            mi = mi + 1;
        }
        q
    }

    /// The queued scan tasks, as a plain vector.
    pub fn as_vec(&self) -> (r: Vec<QueueItem>)
        ensures
            r@ == self.items@,
    {
        let mut r: Vec<QueueItem> = Vec::new();
        let mut i: usize = 0;
        while i < self.items.len()
            invariant
                i <= self.items@.len(),
                r@ == self.items@.take(i as int),
            decreases self.items@.len() - i,
        {
            r.push(self.items[i]);
            proof {
                assert(self.items@.take(i + 1 as int)
                    =~= self.items@.take(i as int).push(self.items@[i as int]));
            }
            i = i + 1;
        }
        proof {
            assert(self.items@.take(self.items@.len() as int) =~= self.items@);
        }
        r
    }
}

/// A directed footpath between two stops, with a fixed duration.  Not
/// necessarily symmetric.
#[derive(Debug, Clone, Copy, PartialEq, Eq, Structural)]
pub struct Transfer {
    /// Index of the origin stop.
    pub from: usize,
    /// Index of the destination stop.
    pub to: usize,
    /// Walking duration in seconds.
    pub time: Time,
}

/// The aggregate owning the whole network: the stop table, the logical
/// routes (each owning its trips), and the footpath transfers.  It is
/// read-only after construction.
#[derive(Debug)]
pub struct Timetable {
    /// The stop table; a stop is identified by its index here.
    pub stops: Vec<Stop>,
    /// The logical routes, already split by stop pattern.
    pub routes: Vec<Route>,
    /// The footpath transfers.
    pub transfers: Vec<Transfer>,
}

/// Every stop a trip visits is an index into a stop table of `n` stops.
pub open spec fn trip_stops_in_bounds(t: Trip, n: nat) -> bool {
    forall|k: int| 0 <= k < t.stop_times@.len() ==> (#[trigger] t.stop_times@[k]).stop < n
}

/// Every stop any trip of the route visits is in bounds.
pub open spec fn route_stops_in_bounds(r: Route, n: nat) -> bool {
    forall|j: int| 0 <= j < r.trips@.len() ==> trip_stops_in_bounds(#[trigger] r.trips@[j], n)
}

/// All trips of a route visit exactly the route's stop sequence.
pub open spec fn route_consistent(r: Route) -> bool {
    forall|j: int| 0 <= j < r.trips@.len()
        ==> trip_pattern(#[trigger] r.trips@[j]) == route_pattern(r)
}

impl Timetable {
    /// Structural validity, owed by the loader: every stop index that a
    /// trip or transfer mentions refers to a stop of the stop table.
    pub open spec fn wf(self) -> bool {
        &&& forall|i: int| 0 <= i < self.routes@.len()
                ==> route_stops_in_bounds(#[trigger] self.routes@[i], self.stops@.len())
        &&& forall|i: int| 0 <= i < self.transfers@.len()
                ==> (#[trigger] self.transfers@[i]).from < self.stops@.len()
                    && self.transfers@[i].to < self.stops@.len()
    }

    /// Pattern homogeneity: every trip of every route visits exactly
    /// its route's stop sequence.  A timetable violating this is
    /// detected during search and reported as a `ProcessingError`.
    pub open spec fn consistent(self) -> bool {
        forall|i: int| 0 <= i < self.routes@.len()
            ==> route_consistent(#[trigger] self.routes@[i])
    }
}

/// A route's stop sequence only mentions stops of an `n`-stop table.
pub proof fn lemma_route_pattern_bounds(r: Route, n: nat)
    requires
        route_stops_in_bounds(r, n),
    ensures
        forall|k: int| 0 <= k < route_pattern(r).len() ==> (#[trigger] route_pattern(r)[k]) < n,
{
    if r.trips@.len() > 0 {
        assert forall|k: int| 0 <= k < route_pattern(r).len() implies
            (#[trigger] route_pattern(r)[k]) < n by {
            assert(route_pattern(r)[k] == r.trips@[0].stop_times@[k].stop);
            assert(trip_stops_in_bounds(r.trips@[0], n));
        }
    }
}

/// Whether stop `s` lies on some route of the timetable.
pub open spec fn stop_on_some_route(tt: Timetable, s: usize) -> bool {
    exists|r: int| 0 <= r < tt.routes@.len()
        && on_pattern(route_pattern(#[trigger] tt.routes@[r]), s)
}

/// Whether the search can write an arrival at stop `s` at all: the stop
/// lies on some route, or a transfer leads to it from a stop that does.
/// A transfer from a routeless origin never fires: only stops improved
/// by a route scan are marked, and relaxation starts at marked stops.
pub open spec fn stop_touchable(tt: Timetable, s: usize) -> bool {
    stop_on_some_route(tt, s)
        || exists|f: int| 0 <= f < tt.transfers@.len() && (#[trigger] tt.transfers@[f]).to == s
            && stop_on_some_route(tt, tt.transfers@[f].from)
}

} // verus!
