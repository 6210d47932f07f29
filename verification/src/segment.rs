//! Which routes each vehicle named by ticketing served, and how many vehicles serve one route,
//! several in turn, or several at overlapping times.

use vstd::prelude::*;

use crate::model::{Model, VehicleName};
use crate::sort::{key_fn, stable_sort, stable_sorted_by, stable_sorted_map};
use crate::text::{list_at, list_at_index, list_at_insert, list_at_update, search_sorted, strictly_sorted, text_lt, TextKeyed};
use crate::ticketing::{copy_leg, Journey, JourneyLeg};
use crate::time::Time;
use crate::vehicle_to_routes::{
    all_legs, seg_start_fn, seg_view_fn, segments_from, Assignment, SegmentView,
};

verus! {

/// The legs on the vehicle named `name`, in order.
pub open spec fn legs_named(legs: Seq<JourneyLeg>, name: Seq<char>) -> Seq<JourneyLeg>
    decreases legs.len(),
{
    if legs.len() == 0 {
        Seq::empty()
    } else if legs.last().vehicle_name.0@ == name {
        legs_named(legs.drop_last(), name).push(legs.last())
    } else {
        legs_named(legs.drop_last(), name)
    }
}

/// The routes the vehicle named `name` served according to ticketing, sorted by first tap.
pub open spec fn named_segments(journeys: Seq<Journey>, name: Seq<char>) -> Seq<SegmentView> {
    stable_sorted_by(segments_from(legs_named(all_legs(journeys), name)), seg_start_fn())
}

/// Does a segment start before the one before it ends?
pub open spec fn overlapping(segs: Seq<SegmentView>) -> bool {
    exists|k: int| 0 <= k < segs.len() - 1 && (#[trigger] segs[k + 1]).0.ms() < segs[k].1.ms()
}

/// 0 for a vehicle serving one route, 1 for several routes in turn, 2 for several routes at
/// overlapping times.
pub open spec fn service_kind(segs: Seq<SegmentView>) -> int {
    if segs.len() == 1 {
        0
    } else if !overlapping(segs) {
        1
    } else {
        2
    }
}

/// How a vehicle is counted by its segments (sorted by start): as serving one route when it has
/// one segment; with more than one, as serving several routes at overlapping times when some
/// segment starts before the previous one ends, and as serving several routes in turn when each
/// segment starts no earlier than the previous one ends.
pub proof fn vehicle_kind_by_segments(segs: Seq<SegmentView>)
    ensures
        segs.len() == 1 ==> service_kind(segs) == 0,
        segs.len() > 1 && (exists|k: int| 0 <= k < segs.len() - 1 && (#[trigger] segs[k + 1]).0.ms() < segs[k].1.ms())
            ==> service_kind(segs) == 2,
        segs.len() > 1 && (forall|k: int| 0 <= k < segs.len() - 1 ==> segs[k].1.ms() <= (#[trigger] segs[k + 1]).0.ms())
            ==> service_kind(segs) == 1,
{
}

/// How many of the vehicles are of the given kind.
pub open spec fn count_kind(s: Seq<(VehicleName, Assignment)>, kind: int) -> nat
    decreases s.len(),
{
    if s.len() == 0 {
        0
    } else {
        count_kind(s.drop_last(), kind) + if service_kind(s.last().1.view_segments()) == kind {
            1nat
        } else {
            0nat
        }
    }
}

/// Each vehicle named by ticketing with the routes it served, and the counts of each kind.
pub struct SegmentSummary {
    /// By vehicle name, in increasing order.
    pub assignments: Vec<(VehicleName, Assignment)>,
    pub one_route: usize,
    pub multiple_routes_normal: usize,
    pub multiple_routes_overlapping: usize,
}

/// The segments of a vehicle's legs, recorded in order.
fn segments_of_legs(legs: &Vec<JourneyLeg>) -> (a: Assignment)
    ensures
        a.view_segments() == segments_from(legs@),
{
    let mut a = Assignment::new();
    let mut i: usize = 0;
    proof {
        assert(legs@.take(0) =~= Seq::<JourneyLeg>::empty());
        assert(a.view_segments() =~= Seq::<SegmentView>::empty());
    }
    while i < legs.len()
        invariant
            i <= legs@.len(),
            a.view_segments() == segments_from(legs@.take(i as int)),
        decreases legs@.len() - i,
    {
        proof {
            assert(legs@.take(i + 1).drop_last() =~= legs@.take(i as int));
            assert(legs@.take(i + 1).last() == legs@[i as int]);
        }
        a.update(legs[i].time, legs[i].route_short_name.as_str());
        i += 1;
    }
    assert(legs@.take(i as int) =~= legs@);
    a
}

impl Model {
    /// The legs of the journeys, grouped by the vehicle they name, by increasing name.
    fn legs_by_name(&self) -> (per: Vec<(String, Vec<JourneyLeg>)>)
        ensures
            strictly_sorted(per@),
            forall|k: int| 0 <= k < per@.len() ==> (#[trigger] per@[k]).1@.len() > 0,
            forall|name: Seq<char>| #[trigger] list_at(per@, name) == legs_named(all_legs(self.journeys@), name),
    {
        let mut per: Vec<(String, Vec<JourneyLeg>)> = Vec::new();
        let mut j: usize = 0;
        proof {
            assert forall|name: Seq<char>| #[trigger] list_at(per@, name) == legs_named(
                all_legs(self.journeys@.take(0)),
                name,
            ) by {
                assert(self.journeys@.take(0) =~= Seq::<Journey>::empty());
            }
        }
        while j < self.journeys.len()
            invariant
                j <= self.journeys.len(),
                strictly_sorted(per@),
                forall|k: int| 0 <= k < per@.len() ==> (#[trigger] per@[k]).1@.len() > 0,
                forall|name: Seq<char>|
                    #[trigger] list_at(per@, name) == legs_named(all_legs(self.journeys@.take(j as int)), name),
            decreases self.journeys.len() - j,
        {
            let journey = &self.journeys[j];
            let ghost base = all_legs(self.journeys@.take(j as int));
            let mut l: usize = 0;
            proof {
                assert(journey.legs@.take(0) =~= Seq::<JourneyLeg>::empty());
                assert(base + journey.legs@.take(0) =~= base);
            }
            while l < journey.legs.len()
                invariant
                    journey == self.journeys@[j as int],
                    j < self.journeys.len(),
                    l <= journey.legs.len(),
                    strictly_sorted(per@),
                    forall|k: int| 0 <= k < per@.len() ==> (#[trigger] per@[k]).1@.len() > 0,
                    forall|name: Seq<char>|
                        #[trigger] list_at(per@, name) == legs_named(base + journey.legs@.take(l as int), name),
                decreases journey.legs.len() - l,
            {
                let leg = copy_leg(&journey.legs[l]);
                let ghost prefix = base + journey.legs@.take(l as int);
                let ghost before = per@;
                proof {
                    assert((base + journey.legs@.take(l + 1)).drop_last() =~= prefix);
                    assert((base + journey.legs@.take(l + 1)).last() == leg);
                }
                match search_sorted(&per, leg.vehicle_name.0.as_str()) {
                    Ok(q) => {
                        proof {
                            list_at_index(before, q as int);
                        }
                        per[q].1.push(leg);
                        proof {
                            assert(per@ =~= before.update(q as int, per@[q as int]));
                            list_at_update(before, q as int, per@[q as int]);
                        }
                    },
                    Err(q) => {
                        let name = leg.vehicle_name.0.clone();
                        let mut list: Vec<JourneyLeg> = Vec::new();
                        list.push(leg);
                        let entry = (name, list);
                        proof {
                            list_at_insert(before, q as int, entry);
                            assert(entry.1@ =~= Seq::<JourneyLeg>::empty().push(leg));
                        }
                        per.insert(q, entry);
                    },
                }
                l += 1;
            }
            proof {
                assert(journey.legs@.take(l as int) =~= journey.legs@);
                assert(self.journeys@.take(j + 1).drop_last() =~= self.journeys@.take(j as int));
                assert(self.journeys@.take(j + 1).last() == *journey);
            }
            j += 1;
        }
        proof {
            assert(self.journeys@.take(j as int) =~= self.journeys@);
        }
        per
    }

    /// Groups the ticketing taps by the vehicle they name, known to the model or not: each
    /// vehicle gets one segment per route it served, from the first to the last tap, sorted by
    /// first tap. Counts the vehicles serving one route, several routes one after another, and
    /// several routes with overlapping segments.
    pub fn segment(&self) -> (r: SegmentSummary)
        ensures
            forall|a: int, b: int|
                0 <= a < b < r.assignments@.len() ==> text_lt(
                    (#[trigger] r.assignments@[a]).0.0@,
                    (#[trigger] r.assignments@[b]).0.0@,
                ),
            forall|k: int|
                0 <= k < r.assignments@.len() ==> {
                    &&& legs_named(all_legs(self.journeys@), (#[trigger] r.assignments@[k]).0.0@).len() > 0
                    &&& r.assignments@[k].1.view_segments() == named_segments(self.journeys@, r.assignments@[k].0.0@)
                },
            forall|name: Seq<char>|
                #[trigger] legs_named(all_legs(self.journeys@), name).len() > 0 ==> exists|k: int|
                    0 <= k < r.assignments@.len() && (#[trigger] r.assignments@[k]).0.0@ == name,
            r.one_route == count_kind(r.assignments@, 0),
            r.multiple_routes_normal == count_kind(r.assignments@, 1),
            r.multiple_routes_overlapping == count_kind(r.assignments@, 2),
            r.one_route + r.multiple_routes_normal + r.multiple_routes_overlapping == r.assignments@.len(),
    {
        let per = self.legs_by_name();
        let ghost all = per@;
        let ghost journeys = self.journeys@;
        let total = per.len();
        let mut assignments: Vec<(VehicleName, Assignment)> = Vec::new();
        let mut one_route: usize = 0;
        let mut multiple_routes_normal: usize = 0;
        let mut multiple_routes_overlapping: usize = 0;
        for entry in it: per.into_iter()
            invariant
                it.seq() == all,
                total == all.len(),
                strictly_sorted(all),
                forall|k: int| 0 <= k < all.len() ==> (#[trigger] all[k]).1@.len() > 0,
                forall|name: Seq<char>| #[trigger] list_at(all, name) == legs_named(all_legs(journeys), name),
                assignments@.len() == it.index(),
                forall|k: int| 0 <= k < assignments@.len() ==> (#[trigger] assignments@[k]).0.0@ == all[k].0@,
                forall|k: int|
                    0 <= k < assignments@.len() ==> (#[trigger] assignments@[k]).1.view_segments() == named_segments(
                        journeys,
                        all[k].0@,
                    ),
                one_route == count_kind(assignments@, 0),
                multiple_routes_normal == count_kind(assignments@, 1),
                multiple_routes_overlapping == count_kind(assignments@, 2),
                one_route + multiple_routes_normal + multiple_routes_overlapping == assignments@.len(),
        {
            let ghost k = it.index();
            let (name, legs) = entry;
            proof {
                assert(legs@ == all[k as int].1@);
                list_at_index(all, k as int);
            }
            let raw = segments_of_legs(&legs);
            let ghost raw_segs = raw.segments@;
            let sorted = stable_sort(raw.segments);
            proof {
                stable_sorted_map(raw_segs, key_fn::<(Time, Time, String)>(), seg_start_fn(), seg_view_fn());
            }
            let a = Assignment { segments: sorted };
            assert(a.view_segments() == named_segments(journeys, name@));
            let ghost before = assignments@;
            if a.segments.len() == 1 {
                one_route += 1;
            } else if !a.has_overlaps() {
                multiple_routes_normal += 1;
            } else {
                multiple_routes_overlapping += 1;
            }
            assignments.push((VehicleName(name), a));
            proof {
                assert(assignments@.drop_last() =~= before);
                let segs = assignments@.last().1.view_segments();
                assert(segs.len() == assignments@.last().1.segments@.len());
                assert(overlapping(segs) == exists|q: int|
                    0 <= q < assignments@.last().1.segments@.len() - 1 && (#[trigger] assignments@.last().1.segments@[q
                        + 1]).0.ms() < assignments@.last().1.segments@[q].1.ms()) by {
                    if overlapping(segs) {
                        let q = choose|q: int| 0 <= q < segs.len() - 1 && (#[trigger] segs[q + 1]).0.ms() < segs[q].1.ms();
                        assert(assignments@.last().1.segments@[q + 1].0 == segs[q + 1].0);
                    }
                    if exists|q: int|
                        0 <= q < assignments@.last().1.segments@.len() - 1 && (#[trigger] assignments@.last().1.segments@[q
                            + 1]).0.ms() < assignments@.last().1.segments@[q].1.ms() {
                        let q = choose|q: int|
                            0 <= q < assignments@.last().1.segments@.len() - 1 && (#[trigger] assignments@.last().1.segments@[q
                                + 1]).0.ms() < assignments@.last().1.segments@[q].1.ms();
                        assert(segs[q + 1].0 == assignments@.last().1.segments@[q + 1].0);
                    }
                }
            }
        }
        proof {
            assert forall|name: Seq<char>|
                #[trigger] legs_named(all_legs(journeys), name).len() > 0 implies exists|k: int|
                    0 <= k < assignments@.len() && (#[trigger] assignments@[k]).0.0@ == name by {
                assert(list_at(all, name).len() > 0);
                let k = choose|k: int| 0 <= k < all.len() && #[trigger] all[k].key_text() == name;
                assert(assignments@[k].0.0@ == name);
            }
            assert forall|k: int| 0 <= k < assignments@.len() implies legs_named(
                all_legs(journeys),
                (#[trigger] assignments@[k]).0.0@,
            ).len() > 0 by {
                list_at_index(all, k);
            }
            assert forall|a: int, b: int| 0 <= a < b < assignments@.len() implies text_lt(
                (#[trigger] assignments@[a]).0.0@,
                (#[trigger] assignments@[b]).0.0@,
            ) by {
                assert(text_lt(all[a].key_text(), all[b].key_text()));
            }
        }
        SegmentSummary { assignments, one_route, multiple_routes_normal, multiple_routes_overlapping }
    }
}

/// Pairs the `n` first times a vehicle passed near a shape's start with those it passed near its
/// end: a pair is an interval when it starts before it ends and after the end of the last
/// interval. The verdict of each pair, and the end of the last interval.
pub open spec fn endpoint_verdicts(starts: Seq<Time>, ends: Seq<Time>, n: nat) -> (Seq<bool>, Option<Time>)
    decreases n,
{
    if n == 0 {
        (Seq::empty(), None)
    } else {
        let (verdicts, last) = endpoint_verdicts(starts, ends, (n - 1) as nat);
        let t1 = starts[n - 1];
        let t2 = ends[n - 1];
        let ok = t1.ms() < t2.ms() && match last {
            None => true,
            Some(prev) => t1.ms() > prev.ms(),
        };
        (verdicts.push(ok), if ok { Some(t2) } else { last })
    }
}

/// Matches the times near a shape's start with the times near its end, in order, pair by pair
/// up to the shorter list: whether each pair makes an interval.
pub fn endpoint_intervals(starts: &Vec<Time>, ends: &Vec<Time>) -> (r: Vec<bool>)
    ensures
        r@ == endpoint_verdicts(
            starts@,
            ends@,
            if starts@.len() < ends@.len() { starts@.len() } else { ends@.len() },
        ).0,
{
    let n = if starts.len() < ends.len() { starts.len() } else { ends.len() };
    let mut r: Vec<bool> = Vec::new();
    let mut last: Option<Time> = None;
    let mut k: usize = 0;
    while k < n
        invariant
            k <= n,
            n <= starts@.len(),
            n <= ends@.len(),
            (r@, last) == endpoint_verdicts(starts@, ends@, k as nat),
        decreases n - k,
    {
        let t1 = starts[k];
        let t2 = ends[k];
        let ok = t1.0 < t2.0 && match last {
            None => true,
            Some(prev) => t1.0 > prev.0,
        };
        r.push(ok);
        if ok {
            last = Some(t2);
        }
        k += 1;
    }
    r
}

/// The taps on one vehicle, by name: the first vehicle of the model with that name, if any, and
/// where and when each tap happened, in time order.
pub struct TapPoints {
    pub vehicle_name: VehicleName,
    pub vehicle: Option<usize>,
    pub points: Vec<(usize, Time)>,
}

/// Where and when a tap happened.
pub open spec fn tap_point(leg: JourneyLeg) -> (usize, Time) {
    (leg.pos, leg.time)
}

/// Position `k` holds the first vehicle named `name`.
pub open spec fn first_vehicle_named(m: Model, name: Seq<char>, k: int) -> bool {
    0 <= k < m.vehicles@.len() && m.vehicles@[k].original_id.0@ == name && forall|j: int|
        0 <= j < k ==> (#[trigger] m.vehicles@[j]).original_id.0@ != name
}

impl Model {
    /// The index of the first vehicle named `name`, if any.
    fn find_vehicle_named(&self, name: &str) -> (r: Option<usize>)
        ensures
            match r {
                Some(k) => first_vehicle_named(*self, name@, k as int),
                None => forall|j: int| 0 <= j < self.vehicles@.len() ==> (#[trigger] self.vehicles@[j]).original_id.0@ != name@,
            },
    {
        let mut k: usize = 0;
        while k < self.vehicles.len()
            invariant
                k <= self.vehicles@.len(),
                forall|j: int| 0 <= j < k ==> (#[trigger] self.vehicles@[j]).original_id.0@ != name@,
            decreases self.vehicles@.len() - k,
        {
            if crate::text::same_text(self.vehicles[k].original_id.0.as_str(), name) {
                return Some(k);
            }
            k += 1;
        }
        None
    }

    /// For each vehicle named by ticketing, by increasing name: the first vehicle of the model
    /// with that name, if any, and the taps on it (where and when), sorted by time, taps at the
    /// same time kept in journey order. These are the points of a trajectory from ticketing.
    pub fn ticketing_points(&self) -> (r: Vec<TapPoints>)
        ensures
            forall|a: int, b: int|
                0 <= a < b < r@.len() ==> text_lt(
                    (#[trigger] r@[a]).vehicle_name.0@,
                    (#[trigger] r@[b]).vehicle_name.0@,
                ),
            forall|k: int|
                0 <= k < r@.len() ==> {
                    let name = (#[trigger] r@[k]).vehicle_name.0@;
                    &&& legs_named(all_legs(self.journeys@), name).len() > 0
                    &&& r@[k].points@ == stable_sorted_by(
                        legs_named(all_legs(self.journeys@), name),
                        key_fn::<JourneyLeg>(),
                    ).map_values(|l: JourneyLeg| tap_point(l))
                    &&& match r@[k].vehicle {
                        Some(v) => first_vehicle_named(*self, name, v as int),
                        None => forall|j: int|
                            0 <= j < self.vehicles@.len() ==> (#[trigger] self.vehicles@[j]).original_id.0@ != name,
                    }
                },
            forall|name: Seq<char>|
                #[trigger] legs_named(all_legs(self.journeys@), name).len() > 0 ==> exists|k: int|
                    0 <= k < r@.len() && (#[trigger] r@[k]).vehicle_name.0@ == name,
    {
        let per = self.legs_by_name();
        let ghost all = per@;
        let ghost journeys = self.journeys@;
        let mut out: Vec<TapPoints> = Vec::new();
        for entry in it: per.into_iter()
            invariant
                it.seq() == all,
                journeys == self.journeys@,
                strictly_sorted(all),
                forall|k: int| 0 <= k < all.len() ==> (#[trigger] all[k]).1@.len() > 0,
                forall|name: Seq<char>| #[trigger] list_at(all, name) == legs_named(all_legs(journeys), name),
                out@.len() == it.index(),
                forall|k: int| 0 <= k < out@.len() ==> (#[trigger] out@[k]).vehicle_name.0@ == all[k].0@,
                forall|k: int|
                    0 <= k < out@.len() ==> {
                        let name = all[k].0@;
                        &&& (#[trigger] out@[k]).points@ == stable_sorted_by(
                            legs_named(all_legs(journeys), name),
                            key_fn::<JourneyLeg>(),
                        ).map_values(|l: JourneyLeg| tap_point(l))
                        &&& match out@[k].vehicle {
                            Some(v) => first_vehicle_named(*self, name, v as int),
                            None => forall|j: int|
                                0 <= j < self.vehicles@.len() ==> (#[trigger] self.vehicles@[j]).original_id.0@ != name,
                        }
                    },
        {
            let ghost k = it.index();
            let (name, legs) = entry;
            proof {
                assert(legs@ == all[k as int].1@);
                list_at_index(all, k as int);
            }
            let vehicle = self.find_vehicle_named(name.as_str());
            let sorted = stable_sort(legs);
            let mut points: Vec<(usize, Time)> = Vec::new();
            let mut q: usize = 0;
            while q < sorted.len()
                invariant
                    q <= sorted@.len(),
                    points@ == sorted@.take(q as int).map_values(|l: JourneyLeg| tap_point(l)),
                decreases sorted@.len() - q,
            {
                points.push((sorted[q].pos, sorted[q].time));
                proof {
                    assert(sorted@.take(q + 1) =~= sorted@.take(q as int).push(sorted@[q as int]));
                    assert(points@ =~= sorted@.take(q + 1).map_values(|l: JourneyLeg| tap_point(l)));
                }
                q += 1;
            }
            proof {
                assert(sorted@.take(q as int) =~= sorted@);
            }
            out.push(TapPoints { vehicle_name: VehicleName(name), vehicle, points });
        }
        proof {
            assert forall|name: Seq<char>|
                #[trigger] legs_named(all_legs(journeys), name).len() > 0 implies exists|k: int|
                    0 <= k < out@.len() && (#[trigger] out@[k]).vehicle_name.0@ == name by {
                assert(list_at(all, name).len() > 0);
                let k = choose|k: int| 0 <= k < all.len() && #[trigger] all[k].key_text() == name;
                assert(out@[k].vehicle_name.0@ == name);
            }
            assert forall|k: int| 0 <= k < out@.len() implies legs_named(
                all_legs(journeys),
                (#[trigger] out@[k]).vehicle_name.0@,
            ).len() > 0 by {
                list_at_index(all, k);
            }
            assert forall|a: int, b: int| 0 <= a < b < out@.len() implies text_lt(
                (#[trigger] out@[a]).vehicle_name.0@,
                (#[trigger] out@[b]).vehicle_name.0@,
            ) by {
                assert(text_lt(all[a].key_text(), all[b].key_text()));
            }
        }
        out
    }
}

} // verus!
