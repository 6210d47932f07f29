use vstd::prelude::*;

use crate::gtfs::has_variant;
use crate::ids::TripID;
use crate::model::{Model, VehicleID};
use crate::gtfs::GTFS;
use crate::routes::{variant_stops, RouteVariant, RouteVariantID};
use crate::sort::{
    key_fn, stable_sort, stable_sorted_by, stable_sorted_contains, stable_sorted_is_sorted_permutation,
    stable_sorted_map, SortKey,
};
use crate::timetable::{
    assigned, assigned_keeps_sorted_disjoint, assigned_map_objects, free_in, map_objects, sorted_disjoint,
    Timetable,
};
use crate::vehicle_to_routes::{candidate_variants, candidate_variants_def, candidates_are_variants};
use crate::stop_times::StopTime;
use crate::time::{Duration, Time};
use crate::trips::Trip;

verus! {

/// `times` without its leading entries that come before `last`.
pub open spec fn drop_before(times: Seq<Time>, last: Time) -> Seq<Time>
    decreases times.len(),
{
    if times.len() > 0 && times[0].ms() < last.ms() {
        drop_before(times.drop_first(), last)
    } else {
        times
    }
}

/// One pass over the stops in order, starting from `last`: at each stop skip the times before the
/// time taken at the previous stop, then take the next one. `None` when some stop runs out of
/// times; otherwise the times taken and what is left at each stop.
pub open spec fn one_pass(queues: Seq<Seq<Time>>, last: Time) -> Option<(Seq<Time>, Seq<Seq<Time>>)>
    decreases queues.len(),
{
    if queues.len() == 0 {
        Some((Seq::empty(), Seq::empty()))
    } else {
        let q = drop_before(queues[0], last);
        if q.len() == 0 {
            None
        } else {
            match one_pass(queues.drop_first(), q[0]) {
                None => None,
                Some(r) => Some((seq![q[0]] + r.0, seq![q.drop_first()] + r.1)),
            }
        }
    }
}

/// How many times are left over all stops.
pub open spec fn total_len(queues: Seq<Seq<Time>>) -> nat
    decreases queues.len(),
{
    if queues.len() == 0 {
        0
    } else {
        queues[0].len() + total_len(queues.drop_first())
    }
}

/// Skipping early times never lengthens a list.
pub proof fn drop_before_shorter(times: Seq<Time>, last: Time)
    ensures
        drop_before(times, last).len() <= times.len(),
    decreases times.len(),
{
    if times.len() > 0 && times[0].ms() < last.ms() {
        drop_before_shorter(times.drop_first(), last);
    }
}

/// A pass takes one time per stop and leaves at least that many fewer.
pub proof fn one_pass_shrinks(queues: Seq<Seq<Time>>, last: Time)
    requires
        one_pass(queues, last) is Some,
    ensures
        one_pass(queues, last).unwrap().0.len() == queues.len(),
        one_pass(queues, last).unwrap().1.len() == queues.len(),
        total_len(one_pass(queues, last).unwrap().1) + queues.len() <= total_len(queues),
    decreases queues.len(),
{
    if queues.len() > 0 {
        let q = drop_before(queues[0], last);
        drop_before_shorter(queues[0], last);
        one_pass_shrinks(queues.drop_first(), q[0]);
        let r = one_pass(queues.drop_first(), q[0])->0;
        assert((seq![q.drop_first()] + r.1).drop_first() =~= r.1);
    }
}

/// The times never go backwards.
pub open spec fn nondecreasing(ts: Seq<Time>) -> bool {
    forall|i: int, j: int| 0 <= i < j < ts.len() ==> (#[trigger] ts[i]).ms() <= (#[trigger] ts[j]).ms()
}

proof fn drop_before_first(times: Seq<Time>, last: Time)
    ensures
        drop_before(times, last).len() > 0 ==> last.ms() <= drop_before(times, last)[0].ms(),
    decreases times.len(),
{
    if times.len() > 0 && times[0].ms() < last.ms() {
        drop_before_first(times.drop_first(), last);
    }
}

/// The times a pass takes never go backwards, and start no earlier than `last`.
proof fn one_pass_ordered(queues: Seq<Seq<Time>>, last: Time)
    requires
        one_pass(queues, last) is Some,
    ensures
        nondecreasing(one_pass(queues, last).unwrap().0),
        queues.len() > 0 ==> last.ms() <= one_pass(queues, last).unwrap().0[0].ms(),
    decreases queues.len(),
{
    if queues.len() > 0 {
        let q = drop_before(queues[0], last);
        drop_before_first(queues[0], last);
        one_pass_ordered(queues.drop_first(), q[0]);
        one_pass_shrinks(queues.drop_first(), q[0]);
        let r = one_pass(queues.drop_first(), q[0]).unwrap();
        let ts = seq![q[0]] + r.0;
        assert forall|i: int, j: int| 0 <= i < j < ts.len() implies (#[trigger] ts[i]).ms() <= (#[trigger] ts[j]).ms() by {
            if i > 0 {
                assert(ts[i] == r.0[i - 1] && ts[j] == r.0[j - 1]);
            } else {
                assert(ts[j] == r.0[j - 1]);
                if j > 1 {
                    assert(r.0[0].ms() <= r.0[j - 1].ms());
                }
            }
        }
    }
}

/// The trips assembled from the times left at each stop, continuing after `last`: passes are
/// repeated until one runs out of times.
pub open spec fn trips_from(queues: Seq<Seq<Time>>, last: Time) -> Seq<Seq<Time>>
    decreases total_len(queues),
{
    if queues.len() == 0 {
        Seq::empty()
    } else {
        match one_pass(queues, last) {
            None => Seq::empty(),
            Some(r) => {
                proof {
                    one_pass_shrinks(queues, last);
                }
                seq![r.0] + trips_from(r.1, r.0.last())
            },
        }
    }
}

/// The contents of each stop's list.
pub open spec fn lists_view(times: Seq<Vec<Time>>) -> Seq<Seq<Time>> {
    times.map_values(|v: Vec<Time>| v@)
}

/// What is left of each stop's list from its cursor on.
pub open spec fn queues_at(times: Seq<Vec<Time>>, cursors: Seq<usize>) -> Seq<Seq<Time>> {
    Seq::new(times.len(), |s: int| times[s]@.subrange(cursors[s] as int, times[s]@.len() as int))
}

/// The trips as sequences of times.
pub open spec fn trips_view(trips: Seq<Vec<Time>>) -> Seq<Seq<Time>> {
    trips.map_values(|v: Vec<Time>| v@)
}

/// Assembles the times a vehicle passed near each stop of a variant into trips. `times_near_stops`
/// holds one list per stop, in stop order, each in time order. The first time at the first stop
/// starts a trip; every later stop takes its first time not before the previous one, skipping
/// earlier ones, and the next trip starts from the last time taken. Assembly stops as soon as a
/// stop has no time left.
pub fn get_trip_times(times_near_stops: &Vec<Vec<Time>>) -> (r: Vec<Vec<Time>>)
    requires
        times_near_stops@.len() > 0,
    ensures
        trips_view(r@) == trips_from(lists_view(times_near_stops@), Time(0)),
{
    let times = times_near_stops;
    let n = times.len();
    let mut cursors: Vec<usize> = Vec::new();
    while cursors.len() < n
        invariant
            cursors@.len() <= n,
            forall|s: int| 0 <= s < cursors@.len() ==> cursors@[s] == 0,
        decreases n - cursors@.len(),
    {
        cursors.push(0);
    }
    proof {
        assert(queues_at(times@, cursors@) =~= lists_view(times@)) by {
            assert forall|s: int| 0 <= s < n implies #[trigger] queues_at(times@, cursors@)[s] == lists_view(times@)[s] by {
                assert(times@[s]@.subrange(0, times@[s]@.len() as int) =~= times@[s]@);
            }
        }
    }
    let ghost start = lists_view(times@);
    let mut last = Time(0);
    let mut trips: Vec<Vec<Time>> = Vec::new();
    assert(trips_view(trips@) + trips_from(queues_at(times@, cursors@), last) =~= trips_from(start, Time(0)));
    loop
        invariant
            start == lists_view(times@),
            times@ == times_near_stops@,
            n == times@.len(),
            n > 0,
            cursors@.len() == n,
            forall|s: int| 0 <= s < n ==> #[trigger] cursors@[s] <= times@[s]@.len(),
            trips_view(trips@) + trips_from(queues_at(times@, cursors@), last) == trips_from(start, Time(0)),
        decreases total_len(queues_at(times@, cursors@)),
    {
        let ghost q0 = queues_at(times@, cursors@);
        let ghost c0 = cursors@;
        let ghost l0 = last;
        assert(trips_view(trips@) + trips_from(q0, l0) == trips_from(start, Time(0)));
        let mut trip: Vec<Time> = Vec::new();
        let mut s: usize = 0;
        let mut ok = true;
        proof {
            assert(q0.subrange(0, n as int) =~= q0);
            assert(queues_at(times@, cursors@).take(0) =~= Seq::<Seq<Time>>::empty());
            assert(trip@ =~= Seq::<Time>::empty());
            match one_pass(q0, l0) {
                None => {},
                Some(r) => {
                    assert(trip@ + r.0 =~= r.0);
                    assert(queues_at(times@, cursors@).take(0) + r.1 =~= r.1);
                },
            }
        }
        while ok && s < n
            invariant
                n == times@.len(),
                n > 0,
                cursors@.len() == n,
                s <= n,
                forall|j: int| 0 <= j < n ==> #[trigger] cursors@[j] <= times@[j]@.len(),
                forall|j: int| s <= j < n ==> #[trigger] cursors@[j] == c0[j],
                q0 == queues_at(times@, c0),
                start == lists_view(times@),
                trips_view(trips@) + trips_from(q0, l0) == trips_from(start, Time(0)),
                trip@.len() == s,
                s == 0 ==> last == l0,
                s > 0 ==> last == trip@.last(),
                ok ==> one_pass(q0, l0) == match one_pass(q0.subrange(s as int, n as int), last) {
                    None => None,
                    Some(r) => Some((trip@ + r.0, queues_at(times@, cursors@).take(s as int) + r.1)),
                },
                !ok ==> one_pass(q0, l0) is None,
            decreases n - s, (if ok { 1int } else { 0int }),
        {
            let list = &times[s];
            let mut c = cursors[s];
            let ghost tail = q0.subrange(s as int, n as int);
            proof {
                assert(tail[0] == q0[s as int]);
                assert(tail.drop_first() =~= q0.subrange(s + 1, n as int));
            }
            while c < list.len() && list[c].0 < last.0
                invariant
                    list == times@[s as int],
                    c0[s as int] <= c <= list@.len(),
                    q0[s as int] == list@.subrange(c0[s as int] as int, list@.len() as int),
                    drop_before(q0[s as int], last) == drop_before(list@.subrange(c as int, list@.len() as int), last),
                decreases list.len() - c,
            {
                assert(list@.subrange(c as int, list@.len() as int).drop_first() =~= list@.subrange(c + 1, list@.len() as int));
                c += 1;
            }
            if c == list.len() {
                assert(list@.subrange(c as int, list@.len() as int) =~= Seq::<Time>::empty());
                ok = false;
            } else {
                let t = list[c];
                let ghost rest = list@.subrange(c + 1, list@.len() as int);
                proof {
                    assert(list@.subrange(c as int, list@.len() as int)[0] == t);
                    assert(list@.subrange(c as int, list@.len() as int).drop_first() =~= rest);
                }
                let ghost before_cursors = cursors@;
                cursors.set(s, c + 1);
                proof {
                    assert(queues_at(times@, cursors@)[s as int] =~= rest);
                    assert(queues_at(times@, cursors@).take(s + 1) =~= queues_at(times@, before_cursors).take(s as int).push(rest)) by {
                        assert forall|j: int| 0 <= j < s implies #[trigger] queues_at(times@, cursors@)[j] == queues_at(times@, before_cursors)[j] by {
                        }
                    }
                }
                let ghost old_trip = trip@;
                trip.push(t);
                last = t;
                proof {
                    match one_pass(q0.subrange(s + 1, n as int), t) {
                        None => {},
                        Some(r) => {
                            assert(old_trip + (seq![t] + r.0) =~= trip@ + r.0);
                            assert(queues_at(times@, before_cursors).take(s as int) + (seq![rest] + r.1) =~= queues_at(times@, cursors@).take(s + 1) + r.1);
                        },
                    }
                }
                s += 1;
            }
        }
        if !ok {
            proof {
                assert(q0.len() == n);
                assert(trips_from(q0, l0) =~= Seq::<Seq<Time>>::empty());
                assert(trips_view(trips@) + trips_from(q0, l0) =~= trips_view(trips@));
            }
            return trips;
        }
        proof {
            assert(q0.subrange(n as int, n as int) =~= Seq::<Seq<Time>>::empty());
            assert(trip@ + Seq::<Time>::empty() =~= trip@);
            assert(queues_at(times@, cursors@).take(n as int) + Seq::<Seq<Time>>::empty() =~= queues_at(times@, cursors@));
            one_pass_shrinks(q0, l0);
        }
        let ghost before = trips_view(trips@);
        trips.push(trip);
        proof {
            assert(trips_view(trips@) =~= before.push(trip@));
            assert(trips_from(q0, l0) == seq![trip@] + trips_from(queues_at(times@, cursors@), last));
            assert(trips_view(trips@) + trips_from(queues_at(times@, cursors@), last) =~= before + trips_from(q0, l0));
        }
    }
}

/// Assembled trips run forwards in time: each has one time per stop, its times never go
/// backwards, it starts no earlier than `last`, and each trip starts no earlier than every
/// earlier trip ends.
pub proof fn assembled_trips_in_order(queues: Seq<Seq<Time>>, last: Time)
    ensures
        forall|k: int|
            0 <= k < trips_from(queues, last).len() ==> {
                &&& (#[trigger] trips_from(queues, last)[k]).len() == queues.len()
                &&& nondecreasing(trips_from(queues, last)[k])
                &&& last.ms() <= trips_from(queues, last)[k][0].ms()
            },
        forall|k: int, l: int|
            0 <= k < l < trips_from(queues, last).len() ==> (#[trigger] trips_from(queues, last)[k]).last().ms()
                <= (#[trigger] trips_from(queues, last)[l])[0].ms(),
    decreases total_len(queues),
{
    if queues.len() > 0 {
        match one_pass(queues, last) {
            None => {},
            Some(r) => {
                one_pass_shrinks(queues, last);
                one_pass_ordered(queues, last);
                assembled_trips_in_order(r.1, r.0.last());
                let rest = trips_from(r.1, r.0.last());
                let trips = trips_from(queues, last);
                assert(trips == seq![r.0] + rest);
                assert(last.ms() <= r.0.last().ms()) by {
                    if r.0.len() > 1 {
                        assert(r.0[0].ms() <= r.0[r.0.len() - 1].ms());
                    }
                }
                assert forall|k: int| 0 <= k < trips.len() implies {
                    &&& (#[trigger] trips[k]).len() == queues.len()
                    &&& nondecreasing(trips[k])
                    &&& last.ms() <= trips[k][0].ms()
                } by {
                    if k > 0 {
                        assert(trips[k] == rest[k - 1]);
                    }
                }
                assert forall|k: int, l: int| 0 <= k < l < trips.len() implies (#[trigger] trips[k]).last().ms()
                    <= (#[trigger] trips[l])[0].ms() by {
                    assert(trips[l] == rest[l - 1]);
                    if k > 0 {
                        assert(trips[k] == rest[k - 1]);
                    }
                }
            },
        }
    }
}

/// A trip that a vehicle was found to serve, with the times it reached each stop.
pub struct ActualTrip {
    /// For convenience
    pub vehicle: VehicleID,
    pub variant: RouteVariantID,
    pub trip: TripID,
    pub stop_times: Vec<Time>,
}

/// What an `ActualTrip` holds.
pub ghost struct ActualTripView {
    pub vehicle: VehicleID,
    pub variant: RouteVariantID,
    pub trip: TripID,
    pub stop_times: Seq<Time>,
}

impl View for ActualTrip {
    type V = ActualTripView;

    open spec fn view(&self) -> ActualTripView {
        ActualTripView {
            vehicle: self.vehicle,
            variant: self.variant,
            trip: self.trip,
            stop_times: self.stop_times@,
        }
    }
}

/// How long a trip took, from the first stop to the last (zero for a trip with no stops).
pub open spec fn trip_duration(times: Seq<Time>) -> int {
    if times.len() == 0 {
        0
    } else {
        times.last().ms() - times[0].ms()
    }
}

impl SortKey for ActualTrip {
    open spec fn key(&self) -> int {
        trip_duration(self.stop_times@)
    }

    fn key_of(&self) -> (k: i128) {
        if self.stop_times.len() == 0 {
            0
        } else {
            self.stop_times[self.stop_times.len() - 1].0 as i128 - self.stop_times[0].0 as i128
        }
    }
}

/// The steps of a trip's schedule: each stop's number from one, its time, and the time since
/// the previous stop (zero at the first).
pub open spec fn schedule_step(times: Seq<Time>, i: int) -> (usize, Time, Duration) {
    let before = if i == 0 {
        times[0]
    } else {
        times[i - 1]
    };
    ((i + 1) as usize, times[i], Duration((times[i].ms() - before.ms()) as i64))
}

impl ActualTrip {
    /// Each stop of the trip in turn: its number from one, the time it was reached, and how long
    /// since the previous stop. The trip must have stop times.
    pub fn schedule_steps(&self) -> (r: Vec<(usize, Time, Duration)>)
        requires
            self.stop_times@.len() > 0,
        ensures
            r@.len() == self.stop_times@.len(),
            forall|i: int| 0 <= i < r@.len() ==> #[trigger] r@[i] == schedule_step(self.stop_times@, i),
    {
        let mut r: Vec<(usize, Time, Duration)> = Vec::new();
        let mut last = self.stop_times[0];
        let mut i: usize = 0;
        while i < self.stop_times.len()
            invariant
                self.stop_times@.len() > 0,
                i <= self.stop_times@.len(),
                r@.len() == i,
                last == (if i == 0 { self.stop_times@[0] } else { self.stop_times@[i - 1] }),
                forall|k: int| 0 <= k < i ==> #[trigger] r@[k] == schedule_step(self.stop_times@, k),
            decreases self.stop_times@.len() - i,
        {
            let time = self.stop_times[i];
            r.push((i + 1, time, time.since(last)));
            last = time;
            i += 1;
        }
        r
    }

    /// When the trip reached its first stop.
    pub fn start_time(&self) -> (t: Time)
        requires
            self.stop_times@.len() > 0,
        ensures
            t == self.stop_times@[0],
    {
        self.stop_times[0]
    }

    /// When the trip reached its last stop.
    pub fn end_time(&self) -> (t: Time)
        requires
            self.stop_times@.len() > 0,
        ensures
            t == self.stop_times@.last(),
    {
        self.stop_times[self.stop_times.len() - 1]
    }
}

/// How far apart two times are, in milliseconds.
pub open spec fn time_gap(a: Time, b: Time) -> int {
    if a.ms() < b.ms() {
        b.ms() - a.ms()
    } else {
        a.ms() - b.ms()
    }
}

/// The summed gaps between the first `m` observed times and the scheduled arrivals.
pub open spec fn gap_sum(actual: Seq<Time>, sched: Seq<StopTime>, m: nat) -> int
    decreases m,
{
    if m == 0 {
        0
    } else {
        gap_sum(actual, sched, (m - 1) as nat) + time_gap(actual[m - 1], sched[m - 1].arrival_time)
    }
}

/// How far observed times are from a scheduled trip: the summed gaps over the stops that both
/// have.
pub open spec fn match_score(actual: Seq<Time>, trip: Trip) -> int {
    let m = if actual.len() < trip.stop_times@.len() {
        actual.len()
    } else {
        trip.stop_times@.len()
    };
    gap_sum(actual, trip.stop_times@, m)
}

/// The summed gaps depend only on the times they sum.
proof fn gap_sum_same_prefix(a1: Seq<Time>, s1: Seq<StopTime>, a2: Seq<Time>, s2: Seq<StopTime>, m: nat)
    requires
        m <= a1.len(),
        m <= a2.len(),
        m <= s1.len(),
        m <= s2.len(),
        forall|i: int|
            #![trigger a1[i]]
            #![trigger s1[i]]
            0 <= i < m ==> a1[i] == a2[i] && s1[i].arrival_time == s2[i].arrival_time,
    ensures
        gap_sum(a1, s1, m) == gap_sum(a2, s2, m),
    decreases m,
{
    if m > 0 {
        gap_sum_same_prefix(a1, s1, a2, s2, (m - 1) as nat);
        assert(a1[m - 1] == a2[m - 1] && s1[m - 1].arrival_time == s2[m - 1].arrival_time);
    }
}

/// A trip's score sums the gap between observed and scheduled time at every stop the two
/// share, the last included: with no observation it is zero; one more observed stop on a trip
/// with one more stop adds exactly the gap at that stop; and observations past the trip's last
/// stop add nothing.
pub proof fn match_score_sums_every_stop(actual: Seq<Time>, t: Trip, u: Trip, a: Time, st: StopTime)
    ensures
        match_score(Seq::<Time>::empty(), t) == 0,
        actual.len() == t.stop_times@.len() && u.stop_times@ == t.stop_times@.push(st) ==> match_score(
            actual.push(a),
            u,
        ) == match_score(actual, t) + if a.ms() < st.arrival_time.ms() {
            st.arrival_time.ms() - a.ms()
        } else {
            a.ms() - st.arrival_time.ms()
        },
        actual.len() >= t.stop_times@.len() ==> match_score(actual.push(a), t) == match_score(actual, t),
{
    let n = t.stop_times@.len();
    if actual.len() == n && u.stop_times@ == t.stop_times@.push(st) {
        let a2 = actual.push(a);
        assert(a2[n as int] == a);
        assert(u.stop_times@[n as int] == st);
        gap_sum_same_prefix(a2, u.stop_times@, actual, t.stop_times@, n);
    }
    if actual.len() >= n {
        let a2 = actual.push(a);
        gap_sum_same_prefix(a2, t.stop_times@, actual, t.stop_times@, n);
    }
}

/// Trip `i` is the first of those scoring lowest.
pub open spec fn is_best_match(trips: Seq<Trip>, actual: Seq<Time>, i: int) -> bool {
    &&& 0 <= i < trips.len()
    &&& forall|j: int| 0 <= j < trips.len() ==> match_score(actual, #[trigger] trips[j]) >= match_score(actual, trips[i])
    &&& forall|j: int| 0 <= j < i ==> match_score(actual, #[trigger] trips[j]) > match_score(actual, trips[i])
}

/// The first scheduled trip closest to the observed times.
pub open spec fn best_match(trips: Seq<Trip>, actual: Seq<Time>) -> int {
    choose|i: int| is_best_match(trips, actual, i)
}

/// Only one trip is the first of the lowest scoring.
pub proof fn best_match_unique(trips: Seq<Trip>, actual: Seq<Time>, i: int, j: int)
    requires
        is_best_match(trips, actual, i),
        is_best_match(trips, actual, j),
    ensures
        i == j,
{
    if i < j {
        assert(match_score(actual, trips[i]) > match_score(actual, trips[j]));
    } else if j < i {
        assert(match_score(actual, trips[j]) > match_score(actual, trips[i]));
    }
}

/// The trips found on `variant`: each assembled trip with the scheduled trip it matches best.
pub open spec fn matched_trips(vehicle: VehicleID, variant: RouteVariant, assembled: Seq<Seq<Time>>) -> Seq<ActualTripView> {
    Seq::new(
        assembled.len(),
        |k: int|
            ActualTripView {
                vehicle,
                variant: variant.variant_id,
                trip: variant.trips@[best_match(variant.trips@, assembled[k])].id,
                stop_times: assembled[k],
            },
    )
}

/// How far the observed times are from a scheduled trip.
fn score(actual: &Vec<Time>, trip: &Trip) -> (r: u128)
    ensures
        r == match_score(actual@, *trip),
{
    let m = if actual.len() < trip.stop_times.len() {
        actual.len()
    } else {
        trip.stop_times.len()
    };
    let mut sum: u128 = 0;
    let mut i: usize = 0;
    while i < m
        invariant
            m <= actual@.len(),
            m <= trip.stop_times@.len(),
            i <= m,
            sum == gap_sum(actual@, trip.stop_times@, i as nat),
            sum <= i * 4294967296,
        decreases m - i,
    {
        let a = actual[i].0;
        let b = trip.stop_times[i].arrival_time.0;
        let gap: u64 = if a < b {
            (b - a) as u64
        } else {
            (a - b) as u64
        };
        sum = sum + gap as u128;
        i += 1;
    }
    sum
}

/// The position of the first scheduled trip closest to the observed times.
fn closest_trip(trips: &Vec<Trip>, actual: &Vec<Time>) -> (r: usize)
    requires
        trips@.len() > 0,
    ensures
        is_best_match(trips@, actual@, r as int),
{
    let mut best: usize = 0;
    let mut best_score = score(actual, &trips[0]);
    let mut j: usize = 1;
    while j < trips.len()
        invariant
            trips@.len() > 0,
            1 <= j <= trips@.len(),
            best < j,
            best_score == match_score(actual@, trips@[best as int]),
            forall|k: int| 0 <= k < j ==> match_score(actual@, #[trigger] trips@[k]) >= best_score,
            forall|k: int| 0 <= k < best ==> match_score(actual@, #[trigger] trips@[k]) > best_score,
        decreases trips@.len() - j,
    {
        let sc = score(actual, &trips[j]);
        if sc < best_score {
            best = j;
            best_score = sc;
        }
        j += 1;
    }
    best
}

impl Model {
    /// Matches a vehicle's passes near the stops of one variant to trips of that variant.
    /// `times_near_stops` holds, for each stop of the variant, when the vehicle passed close to it.
    /// The passes are assembled into trips (`get_trip_times`), and each is matched to the
    /// scheduled trip of the variant minimizing the summed time differences over the stops,
    /// the first such trip on a tie.
    pub fn get_trips_for_vehicle_and_variant(
        &self,
        vehicle: VehicleID,
        variant: RouteVariantID,
        times_near_stops: &Vec<Vec<Time>>,
    ) -> (r: Vec<ActualTrip>)
        requires
            self.wf(),
            has_variant(self.gtfs.routes@, variant),
            times_near_stops@.len() > 0,
        ensures
            r@.map_values(|t: ActualTrip| t@) == matched_trips(
                vehicle,
                self.gtfs.variant_spec(variant),
                trips_from(lists_view(times_near_stops@), Time(0)),
            ),
    {
        let trips = get_trip_times(times_near_stops);
        let gtfs_trips = &self.gtfs.variant(variant).trips;
        let ghost assembled = trips_view(trips@);
        let ghost v = self.gtfs.variant_spec(variant);
        let mut results: Vec<ActualTrip> = Vec::new();
        let mut k: usize = 0;
        while k < trips.len()
            invariant
                k <= trips@.len(),
                assembled == trips_view(trips@),
                *gtfs_trips == v.trips,
                v.variant_id == variant,
                gtfs_trips@.len() > 0,
                results@.map_values(|t: ActualTrip| t@) == matched_trips(vehicle, v, assembled).take(k as int),
            decreases trips@.len() - k,
        {
            let stop_times = &trips[k];
            let best = closest_trip(gtfs_trips, stop_times);
            proof {
                let c = best_match(v.trips@, assembled[k as int]);
                best_match_unique(v.trips@, assembled[k as int], c, best as int);
            }
            let copied = stop_times.clone();
            assert(copied@ =~= stop_times@);
            let ghost before = results@;
            results.push(ActualTrip { vehicle, variant, trip: gtfs_trips[best].id, stop_times: copied });
            assert(results@.map_values(|t: ActualTrip| t@) =~= matched_trips(vehicle, v, assembled).take(k + 1)) by {
                assert(results@.map_values(|t: ActualTrip| t@).drop_last() =~= before.map_values(|t: ActualTrip| t@));
            }
            k += 1;
        }
        assert(matched_trips(vehicle, v, assembled).take(k as int) =~= matched_trips(vehicle, v, assembled));
        results
    }
}

/// The observed lists of several variants.
pub open spec fn nested_view(t: Seq<Vec<Vec<Time>>>) -> Seq<Seq<Seq<Time>>> {
    t.map_values(|v: Vec<Vec<Time>>| lists_view(v@))
}

/// The trips found on each of `variants`, given the times the vehicle passed near their stops,
/// variant after variant.
pub open spec fn possible_trips(
    m: Model,
    vehicle: VehicleID,
    variants: Seq<RouteVariantID>,
    times: Seq<Seq<Seq<Time>>>,
) -> Seq<ActualTripView>
    decreases variants.len(),
{
    if variants.len() == 0 {
        Seq::empty()
    } else {
        possible_trips(m, vehicle, variants.drop_last(), times) + matched_trips(
            vehicle,
            m.gtfs.variant_spec(variants.last()),
            trips_from(times[variants.len() - 1], Time(0)),
        )
    }
}

/// The duration of a trip view.
pub open spec fn view_duration() -> spec_fn(ActualTripView) -> int {
    |t: ActualTripView| trip_duration(t.stop_times)
}

/// The view of an actual trip.
pub open spec fn trip_view() -> spec_fn(ActualTrip) -> ActualTripView {
    |t: ActualTrip| t@
}

/// When a trip starts and ends.
pub open spec fn view_span(t: ActualTripView) -> (Time, Time) {
    (t.stop_times[0], t.stop_times.last())
}

/// Trips considered in order, each kept when its span is free in the schedule so far.
pub open spec fn schedule_from(
    entries: Seq<(Time, Time, ActualTripView)>,
    trips: Seq<ActualTripView>,
) -> Seq<(Time, Time, ActualTripView)>
    decreases trips.len(),
{
    if trips.len() == 0 {
        entries
    } else {
        let t = trips[0];
        let next = if free_in(entries, view_span(t)) {
            assigned(entries, view_span(t), t)
        } else {
            entries
        };
        schedule_from(next, trips.drop_first())
    }
}

/// A vehicle's schedule: its possible trips over all candidate variants, shortest first, each
/// kept when it overlaps none kept before, in time order.
pub open spec fn inferred_entries(m: Model, vehicle: VehicleID, times: Seq<Seq<Seq<Time>>>) -> Seq<(Time, Time, ActualTripView)> {
    schedule_from(
        Seq::empty(),
        stable_sorted_by(
            possible_trips(m, vehicle, candidate_variants(m, vehicle.0 as nat), times),
            view_duration(),
        ),
    )
}

/// The trips of `inferred_entries`.
pub open spec fn inferred_schedule(m: Model, vehicle: VehicleID, times: Seq<Seq<Seq<Time>>>) -> Seq<ActualTripView> {
    inferred_entries(m, vehicle, times).map_values(|e: (Time, Time, ActualTripView)| e.2)
}

/// The observations handed to `infer_vehicle_schedule`: one entry per candidate variant of the
/// vehicle, holding one list of times per stop of that variant.
pub open spec fn observations_fit(m: Model, vehicle: VehicleID, times: Seq<Vec<Vec<Time>>>) -> bool {
    &&& times.len() == candidate_variants(m, vehicle.0 as nat).len()
    &&& forall|i: int|
        0 <= i < times.len() ==> (#[trigger] times[i])@.len() > 0 && times[i]@.len() == variant_stops(
            m.gtfs.variant_spec(candidate_variants(m, vehicle.0 as nat)[i]),
        ).len()
}

/// A trip with stop times that never go backwards.
pub open spec fn forward_trip(t: ActualTripView) -> bool {
    t.stop_times.len() > 0 && t.stop_times[0].ms() <= t.stop_times.last().ms()
}

/// A trip of `vehicle` that runs forwards, on a variant of the schedule, with one time per stop
/// of that variant.
pub open spec fn good_trip(g: GTFS, vehicle: VehicleID, t: ActualTripView) -> bool {
    &&& forward_trip(t)
    &&& t.vehicle == vehicle
    &&& has_variant(g.routes@, t.variant)
    &&& t.stop_times.len() == variant_stops(g.variant_spec(t.variant)).len()
}

impl Model {
    /// One vehicle's schedule through the day. `times_near_stops[i]` holds, for the `i`-th variant
    /// of `vehicle_to_possible_routes`, the times the vehicle passed near each of its stops. The
    /// trips found on every variant (`get_trips_for_vehicle_and_variant`) are sorted by duration,
    /// shortest first, and kept as they fit in a timetable. Returns non-overlapping trips in
    /// order.
    ///
    /// Note we don't check that the same trip isn't covered by two different vehicles. This
    /// looks at one vehicle only.
    pub fn infer_vehicle_schedule(&self, vehicle: VehicleID, times_near_stops: &Vec<Vec<Vec<Time>>>) -> (r: Vec<ActualTrip>)
        requires
            self.wf(),
            observations_fit(*self, vehicle, times_near_stops@),
        ensures
            r@.map_values(|t: ActualTrip| t@) == inferred_schedule(*self, vehicle, nested_view(times_near_stops@)),
            sorted_disjoint(inferred_entries(*self, vehicle, nested_view(times_near_stops@))),
            forall|i: int| 0 <= i < r@.len() ==> good_trip(self.gtfs, vehicle, (#[trigger] r@[i])@),
            forall|i: int|
                0 <= i < r@.len() ==> (#[trigger] inferred_entries(*self, vehicle, nested_view(times_near_stops@))[i]).0
                    == r@[i].stop_times@[0] && inferred_entries(*self, vehicle, nested_view(times_near_stops@))[i].1
                    == r@[i].stop_times@.last(),
    {
        let variants = self.vehicle_to_possible_routes(vehicle);
        let ghost times = nested_view(times_near_stops@);
        proof {
            candidate_variants_def(*self, vehicle.0 as nat);
            let segs = crate::vehicle_to_routes::vehicle_segments(self.journeys@, self.vehicle_ids.mapping(), vehicle.0 as nat);
            if segs.len() == 1 {
                candidates_are_variants(
                    self.gtfs.routes@,
                    segs[0].2,
                    crate::vehicle_to_routes::matching_services(self.gtfs.calendar, crate::calendar::DateFilter::SingleDay(self.main_date)),
                );
            }
        }
        let mut all: Vec<ActualTrip> = Vec::new();
        let mut i: usize = 0;
        while i < variants.len()
            invariant
                self.wf(),
                variants@ == candidate_variants(*self, vehicle.0 as nat),
                times == nested_view(times_near_stops@),
                times_near_stops@.len() == variants@.len(),
                forall|k: int| 0 <= k < times_near_stops@.len() ==> (#[trigger] times_near_stops@[k])@.len() > 0,
                forall|k: int|
                    0 <= k < times_near_stops@.len() ==> (#[trigger] times_near_stops@[k])@.len() == variant_stops(
                        self.gtfs.variant_spec(variants@[k]),
                    ).len(),
                forall|k: int| 0 <= k < variants@.len() ==> has_variant(self.gtfs.routes@, #[trigger] variants@[k]),
                i <= variants@.len(),
                all@.map_values(trip_view()) == possible_trips(*self, vehicle, variants@.take(i as int), times),
                forall|k: int| 0 <= k < all@.len() ==> good_trip(self.gtfs, vehicle, (#[trigger] all@[k])@),
            decreases variants@.len() - i,
        {
            let found = self.get_trips_for_vehicle_and_variant(vehicle, variants[i], &times_near_stops[i]);
            let ghost assembled = trips_from(lists_view(times_near_stops@[i as int]@), Time(0));
            proof {
                crate::to_trips::assembled_trips_in_order(lists_view(times_near_stops@[i as int]@), Time(0));
                assert forall|k: int| 0 <= k < found@.len() implies good_trip(self.gtfs, vehicle, (#[trigger] found@[k])@) by {
                    assert(found@.map_values(|t: ActualTrip| t@)[k] == found@[k]@);
                    assert(found@.map_values(|t: ActualTrip| t@).len() == assembled.len());
                    let ts = assembled[k];
                    assert(found@[k]@.stop_times == ts);
                    assert(trips_from(lists_view(times_near_stops@[i as int]@), Time(0))[k] == ts);
                    assert(ts.len() == times_near_stops@[i as int]@.len());
                    if ts.len() > 1 {
                        assert(ts[0].ms() <= ts[ts.len() - 1].ms());
                    }
                }
            }
            let ghost before = all@;
            let ghost found_seq = found@;
            let mut found = found;
            all.append(&mut found);
            proof {
                let front = variants@.take(i + 1);
                assert(front.drop_last() =~= variants@.take(i as int));
                assert(front.last() == variants@[i as int]);
                assert(times[i as int] == lists_view(times_near_stops@[i as int]@));
                assert(all@.map_values(trip_view()) =~= before.map_values(trip_view()) + matched_trips(
                    vehicle,
                    self.gtfs.variant_spec(variants@[i as int]),
                    assembled,
                ));
                assert forall|k: int| 0 <= k < all@.len() implies good_trip(self.gtfs, vehicle, (#[trigger] all@[k])@) by {
                    if k >= before.len() {
                        assert(all@[k] == found_seq[k - before.len()]);
                    } else {
                        assert(all@[k] == before[k]);
                    }
                }
            }
            i += 1;
        }
        assert(variants@.take(i as int) =~= variants@);
        let ghost unsorted = all@;
        let sorted = stable_sort(all);
        proof {
            stable_sorted_map(unsorted, key_fn::<ActualTrip>(), view_duration(), trip_view());
            stable_sorted_is_sorted_permutation(unsorted, key_fn::<ActualTrip>());
        }
        let ghost sorted_views = sorted@.map_values(trip_view());
        assert(forall|k: int| 0 <= k < sorted@.len() ==> good_trip(self.gtfs, vehicle, (#[trigger] sorted@[k])@)) by {
            assert forall|k: int| 0 <= k < sorted@.len() implies good_trip(self.gtfs, vehicle, (#[trigger] sorted@[k])@) by {
                assert(sorted@.contains(sorted@[k]));
                stable_sorted_contains(unsorted, key_fn::<ActualTrip>(), sorted@[k]);
                let j = choose|j: int| 0 <= j < unsorted.len() && unsorted[j] == sorted@[k];
            }
        }
        let mut rest = sorted;
        let mut timetable: Timetable<ActualTrip> = Timetable::new();
        let ghost total = sorted_views.len();
        proof {
            assert(sorted_views.subrange(0, total as int) =~= sorted_views);
            assert(map_objects(timetable.entries(), trip_view()) =~= Seq::<(Time, Time, ActualTripView)>::empty());
        }
        while rest.len() > 0
            invariant
                total == sorted_views.len(),
                rest@.len() <= total,
                rest@.map_values(trip_view()) == sorted_views.subrange(total - rest@.len(), total as int),
                forall|k: int| 0 <= k < rest@.len() ==> good_trip(self.gtfs, vehicle, (#[trigger] rest@[k])@),
                sorted_disjoint(timetable.entries()),
                forall|k: int|
                    0 <= k < timetable.entries().len() ==> (#[trigger] timetable.entries()[k]).0
                        == timetable.entries()[k].2.stop_times@[0] && timetable.entries()[k].1
                        == timetable.entries()[k].2.stop_times@.last() && good_trip(
                        self.gtfs,
                        vehicle,
                        timetable.entries()[k].2@,
                    ),
                schedule_from(map_objects(timetable.entries(), trip_view()), rest@.map_values(trip_view()))
                    == schedule_from(Seq::empty(), sorted_views),
            decreases rest@.len(),
        {
            let ghost rest_views = rest@.map_values(trip_view());
            let trip = rest.remove(0);
            proof {
                assert(rest_views[0] == trip@);
                assert(rest_views.drop_first() =~= rest@.map_values(trip_view()));
                assert(rest@.map_values(trip_view()) =~= sorted_views.subrange(total - rest@.len(), total as int));
                assert(good_trip(self.gtfs, vehicle, trip@));
            }
            let span = (trip.start_time(), trip.end_time());
            let ghost before = timetable.entries();
            proof {
                assigned_map_objects(before, span, trip, trip_view());
                assert(span == view_span(trip@));
            }
            if timetable.is_free(span) {
                proof {
                    assigned_keeps_sorted_disjoint(before, span, trip);
                }
                timetable.assign(span, trip);
                proof {
                    let idx = choose|idx: int|
                        crate::timetable::placed_at(before, span.1, idx) && timetable.entries() == before.insert(
                            idx,
                            (span.0, span.1, trip),
                        );
                    assert forall|k: int|
                        0 <= k < timetable.entries().len() implies (#[trigger] timetable.entries()[k]).0
                            == timetable.entries()[k].2.stop_times@[0] && timetable.entries()[k].1
                            == timetable.entries()[k].2.stop_times@.last() && good_trip(
                            self.gtfs,
                            vehicle,
                            timetable.entries()[k].2@,
                        ) by {
                        if k < idx {
                            assert(timetable.entries()[k] == before[k]);
                        } else if k > idx {
                            assert(timetable.entries()[k] == before[k - 1]);
                        }
                    }
                }
            }
        }
        let ghost final_entries = timetable.entries();
        proof {
            assert(rest@.map_values(trip_view()) =~= Seq::<ActualTripView>::empty());
            assert(map_objects(final_entries, trip_view()) == inferred_entries(*self, vehicle, times));
        }
        let mut entries = timetable.0;
        let mut result: Vec<ActualTrip> = Vec::new();
        while entries.len() > 0
            invariant
                entries@.len() <= final_entries.len(),
                entries@ == final_entries.subrange(final_entries.len() - entries@.len(), final_entries.len() as int),
                result@.len() == final_entries.len() - entries@.len(),
                forall|k: int| 0 <= k < result@.len() ==> (#[trigger] result@[k]) == final_entries[k].2,
            decreases entries@.len(),
        {
            let e = entries.remove(0);
            proof {
                assert(e == final_entries[final_entries.len() - entries@.len() - 1]);
            }
            result.push(e.2);
        }
        proof {
            let target = inferred_schedule(*self, vehicle, times);
            assert(result@.map_values(trip_view()) =~= target) by {
                assert forall|k: int| 0 <= k < result@.len() implies result@.map_values(trip_view())[k] == target[k] by {
                    assert(map_objects(final_entries, trip_view())[k] == inferred_entries(*self, vehicle, times)[k]);
                }
            }
            assert(result@.map_values(|t: ActualTrip| t@) =~= result@.map_values(trip_view()));
            assert(inferred_entries(*self, vehicle, times) == map_objects(final_entries, trip_view()));
            assert(sorted_disjoint(inferred_entries(*self, vehicle, times))) by {
                let ie = inferred_entries(*self, vehicle, times);
                assert forall|k: int| 0 <= k < ie.len() implies crate::timetable::span_of(#[trigger] ie[k])
                    == crate::timetable::span_of(final_entries[k]) by {
                }
            }
        }
        result
    }
}

} // verus!
