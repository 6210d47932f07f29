use vstd::prelude::*;
use vstd::string::*;

use crate::calendar::{service_matches, Calendar, DateFilter, ServiceID};
use crate::gtfs::{has_variant, is_variant_at, variant_at, GTFS};
use crate::ids::IDMapping;
use crate::model::{Model, VehicleID, VehicleName};
use crate::routes::{variant_stops, Route, RouteVariant, RouteVariantID};
use crate::sort::{key_fn, stable_sort, stable_sorted_by, stable_sorted_map, SortKey};
use crate::text::{has_key, key_set, same_text, search_sorted, strictly_sorted, TextKeyed};
use crate::ticketing::{Journey, JourneyLeg};
use crate::time::Time;

verus! {

/// One interval during which a vehicle served a route: first and last tap, and the route name.
pub type SegmentView = (Time, Time, Seq<char>);

pub open spec fn seg_view(s: (Time, Time, String)) -> SegmentView {
    (s.0, s.1, s.2@)
}

pub open spec fn seg_start(s: SegmentView) -> int {
    s.0.ms()
}

pub open spec fn seg_start_fn() -> spec_fn(SegmentView) -> int {
    |s: SegmentView| seg_start(s)
}

pub open spec fn seg_view_fn() -> spec_fn((Time, Time, String)) -> SegmentView {
    |s: (Time, Time, String)| seg_view(s)
}

impl SortKey for (Time, Time, String) {
    open spec fn key(&self) -> int {
        self.0.ms()
    }

    fn key_of(&self) -> (k: i128) {
        self.0.0 as i128
    }
}

/// The first segment serving `route`.
pub open spec fn route_position(segs: Seq<SegmentView>, route: Seq<char>, i: int) -> bool {
    0 <= i < segs.len() && segs[i].2 == route && forall|j: int| 0 <= j < i ==> (#[trigger] segs[j]).2 != route
}

/// Records a tap at `time` on `route`: the interval of a route already served grows to cover the
/// time; a new route starts an interval of its own.
pub open spec fn updated_segments(segs: Seq<SegmentView>, time: Time, route: Seq<char>) -> Seq<SegmentView> {
    if exists|i: int| route_position(segs, route, i) {
        let i = choose|i: int| route_position(segs, route, i);
        let (t1, t2, r) = segs[i];
        if time.ms() < t1.ms() {
            segs.update(i, (time, t2, r))
        } else if time.ms() > t2.ms() {
            segs.update(i, (t1, time, r))
        } else {
            segs
        }
    } else {
        segs.push((time, time, route))
    }
}

/// The segments recorded from a sequence of taps, in order.
pub open spec fn segments_from(legs: Seq<JourneyLeg>) -> Seq<SegmentView>
    decreases legs.len(),
{
    if legs.len() == 0 {
        Seq::empty()
    } else {
        updated_segments(
            segments_from(legs.drop_last()),
            legs.last().time,
            legs.last().route_short_name@,
        )
    }
}

/// Some segment of the leg's route spans the leg's time.
#[verifier::opaque]
pub open spec fn tap_covered(segs: Seq<SegmentView>, leg: JourneyLeg) -> bool {
    exists|k: int|
        0 <= k < segs.len() && (#[trigger] segs[k]).2 == leg.route_short_name@ && segs[k].0.ms() <= leg.time.ms()
            && leg.time.ms() <= segs[k].1.ms()
}

/// Some tap on the segment's route happened at `t`.
#[verifier::opaque]
pub open spec fn tap_at(legs: Seq<JourneyLeg>, route: Seq<char>, t: Time) -> bool {
    exists|i: int| 0 <= i < legs.len() && (#[trigger] legs[i]).route_short_name@ == route && legs[i].time == t
}

/// The segments have pairwise different routes, every tap lies within the segment of its
/// route, and every segment runs forwards, starting and ending at taps on its route.
pub open spec fn spans_taps(segs: Seq<SegmentView>, legs: Seq<JourneyLeg>) -> bool {
    &&& forall|a: int, b: int| 0 <= a < b < segs.len() ==> (#[trigger] segs[a]).2 != (#[trigger] segs[b]).2
    &&& forall|i: int| 0 <= i < legs.len() ==> tap_covered(segs, #[trigger] legs[i])
    &&& forall|k: int|
        0 <= k < segs.len() ==> tap_at(legs, (#[trigger] segs[k]).2, segs[k].0) && tap_at(legs, segs[k].2, segs[k].1)
            && segs[k].0.ms() <= segs[k].1.ms()
}

/// A tap among some taps is among them with one more.
proof fn tap_at_push(legs: Seq<JourneyLeg>, leg: JourneyLeg)
    ensures
        forall|r: Seq<char>, t: Time| #[trigger] tap_at(legs, r, t) ==> tap_at(legs.push(leg), r, t),
        tap_at(legs.push(leg), leg.route_short_name@, leg.time),
{
    let all = legs.push(leg);
    reveal(tap_at);
    assert forall|r: Seq<char>, t: Time| #[trigger] tap_at(legs, r, t) implies tap_at(all, r, t) by {
        let i = choose|i: int| 0 <= i < legs.len() && (#[trigger] legs[i]).route_short_name@ == r && legs[i].time == t;
        assert(all[i] == legs[i]);
    }
    assert(all[legs.len() as int] == leg);
}

/// A tap on a route already served widens that route's segment to cover it.
proof fn widen_keeps_spans(segs: Seq<SegmentView>, legs: Seq<JourneyLeg>, leg: JourneyLeg, i: int)
    requires
        spans_taps(segs, legs),
        route_position(segs, leg.route_short_name@, i),
    ensures
        spans_taps(updated_segments(segs, leg.time, leg.route_short_name@), legs.push(leg)),
{
    let route = leg.route_short_name@;
    let time = leg.time;
    let all = legs.push(leg);
    tap_at_push(legs, leg);
    let c = choose|c: int| route_position(segs, route, c);
    if c != i {
        if c < i {
            assert(segs[c].2 != route);
        } else {
            assert(segs[i].2 != route);
        }
    }
    let next = updated_segments(segs, time, route);
    assert(next.len() == segs.len());
    assert forall|k: int| 0 <= k < next.len() implies (#[trigger] next[k]).2 == segs[k].2 && next[k].0.ms()
        <= segs[k].0.ms() && segs[k].1.ms() <= next[k].1.ms() && (k != i ==> next[k] == segs[k]) by {
    }
    assert(next[i].0.ms() <= time.ms() && time.ms() <= next[i].1.ms());
    assert forall|a: int, b: int| 0 <= a < b < next.len() implies (#[trigger] next[a]).2 != (#[trigger] next[b]).2 by {
        assert(segs[a].2 != segs[b].2);
    }
    assert forall|j: int| 0 <= j < all.len() implies tap_covered(next, #[trigger] all[j]) by {
        reveal(tap_covered);
        if j == legs.len() {
            assert(all[j] == leg);
            assert(next[i].2 == route);
        } else {
            assert(all[j] == legs[j]);
            assert(tap_covered(segs, legs[j]));
            let k = choose|k: int|
                0 <= k < segs.len() && (#[trigger] segs[k]).2 == legs[j].route_short_name@ && segs[k].0.ms()
                    <= legs[j].time.ms() && legs[j].time.ms() <= segs[k].1.ms();
            assert(next[k].2 == segs[k].2);
        }
    }
    assert forall|k: int| 0 <= k < next.len() implies tap_at(all, (#[trigger] next[k]).2, next[k].0) && tap_at(
        all,
        next[k].2,
        next[k].1,
    ) && next[k].0.ms() <= next[k].1.ms() by {
        assert(tap_at(legs, segs[k].2, segs[k].0) && tap_at(legs, segs[k].2, segs[k].1));
    }
}

/// A tap on a new route adds a segment of its own.
proof fn new_route_keeps_spans(segs: Seq<SegmentView>, legs: Seq<JourneyLeg>, leg: JourneyLeg)
    requires
        spans_taps(segs, legs),
        !exists|i: int| route_position(segs, leg.route_short_name@, i),
    ensures
        spans_taps(updated_segments(segs, leg.time, leg.route_short_name@), legs.push(leg)),
{
    let route = leg.route_short_name@;
    let time = leg.time;
    let all = legs.push(leg);
    tap_at_push(legs, leg);
    assert forall|k: int| 0 <= k < segs.len() implies (#[trigger] segs[k]).2 != route by {
        if segs[k].2 == route {
            assert forall|j: int| 0 <= j < k implies (#[trigger] segs[j]).2 != route by {
                assert(segs[j].2 != segs[k].2);
            }
            assert(route_position(segs, route, k));
        }
    }
    let next = updated_segments(segs, time, route);
    assert(next == segs.push((time, time, route)));
    assert forall|a: int, b: int| 0 <= a < b < next.len() implies (#[trigger] next[a]).2 != (#[trigger] next[b]).2 by {
        assert(next[a] == segs[a]);
        if b < segs.len() {
            assert(next[b] == segs[b]);
        }
    }
    assert forall|j: int| 0 <= j < all.len() implies tap_covered(next, #[trigger] all[j]) by {
        reveal(tap_covered);
        if j == legs.len() {
            assert(all[j] == leg);
            assert(next[segs.len() as int] == (time, time, route));
        } else {
            assert(all[j] == legs[j]);
            assert(tap_covered(segs, legs[j]));
            let k = choose|k: int|
                0 <= k < segs.len() && (#[trigger] segs[k]).2 == legs[j].route_short_name@ && segs[k].0.ms()
                    <= legs[j].time.ms() && legs[j].time.ms() <= segs[k].1.ms();
            assert(next[k] == segs[k]);
        }
    }
    assert forall|k: int| 0 <= k < next.len() implies tap_at(all, (#[trigger] next[k]).2, next[k].0) && tap_at(
        all,
        next[k].2,
        next[k].1,
    ) && next[k].0.ms() <= next[k].1.ms() by {
        if k < segs.len() {
            assert(next[k] == segs[k]);
            assert(tap_at(legs, segs[k].2, segs[k].0) && tap_at(legs, segs[k].2, segs[k].1));
        }
    }
}

/// What a vehicle's segments say of its taps: one segment per route tapped on, running from
/// the route's earliest tap to its latest. The segments' routes differ, every tap lies within
/// the segment of its route, and every segment starts and ends at taps on its route.
pub proof fn segments_span_taps(legs: Seq<JourneyLeg>)
    ensures
        spans_taps(segments_from(legs), legs),
    decreases legs.len(),
{
    if legs.len() > 0 {
        let rest = legs.drop_last();
        segments_span_taps(rest);
        let leg = legs.last();
        assert(rest.push(leg) =~= legs);
        let segs = segments_from(rest);
        if exists|i: int| route_position(segs, leg.route_short_name@, i) {
            let i = choose|i: int| route_position(segs, leg.route_short_name@, i);
            widen_keeps_spans(segs, rest, leg, i);
        } else {
            new_route_keeps_spans(segs, rest, leg);
        }
    }
}

/// Every leg of every journey, in order.
pub open spec fn all_legs(journeys: Seq<Journey>) -> Seq<JourneyLeg>
    decreases journeys.len(),
{
    if journeys.len() == 0 {
        Seq::empty()
    } else {
        all_legs(journeys.drop_last()) + journeys.last().legs@
    }
}

/// Does the leg name a vehicle that the mapping gives identifier `v`?
pub open spec fn leg_of_vehicle(leg: JourneyLeg, mapping: Map<Seq<char>, nat>, v: nat) -> bool {
    mapping.dom().contains(leg.vehicle_name.0@) && mapping[leg.vehicle_name.0@] == v
}

/// The legs on vehicle `v`, in order.
pub open spec fn legs_of_vehicle(legs: Seq<JourneyLeg>, mapping: Map<Seq<char>, nat>, v: nat) -> Seq<JourneyLeg>
    decreases legs.len(),
{
    if legs.len() == 0 {
        Seq::empty()
    } else if leg_of_vehicle(legs.last(), mapping, v) {
        legs_of_vehicle(legs.drop_last(), mapping, v).push(legs.last())
    } else {
        legs_of_vehicle(legs.drop_last(), mapping, v)
    }
}

/// Does ticketing name vehicle `v` at least once?
pub open spec fn has_taps(journeys: Seq<Journey>, mapping: Map<Seq<char>, nat>, v: int) -> bool {
    legs_of_vehicle(all_legs(journeys), mapping, v as nat).len() > 0
}

/// The routes a vehicle served according to ticketing: its segments sorted by start.
pub open spec fn vehicle_segments(journeys: Seq<Journey>, mapping: Map<Seq<char>, nat>, v: nat) -> Seq<SegmentView> {
    stable_sorted_by(segments_from(legs_of_vehicle(all_legs(journeys), mapping, v)), seg_start_fn())
}

/// Which routes a vehicle served, and when.
pub struct Assignment {
    /// (first tap, last tap, route short name), ordered by the first tap once assembled.
    pub segments: Vec<(Time, Time, String)>,
}

impl Assignment {
    pub open spec fn view_segments(&self) -> Seq<SegmentView> {
        self.segments@.map_values(seg_view_fn())
    }

    pub fn new() -> (a: Self)
        ensures
            a.segments@.len() == 0,
    {
        Assignment { segments: Vec::new() }
    }

    /// Records a tap at `time` on `route`.
    pub fn update(&mut self, time: Time, route: &str)
        ensures
            final(self).view_segments() == updated_segments(old(self).view_segments(), time, route@),
    {
        let ghost segs = old(self).view_segments();
        let mut i: usize = 0;
        while i < self.segments.len()
            invariant
                self.segments@ == old(self).segments@,
                segs == old(self).view_segments(),
                i <= self.segments.len(),
                forall|j: int| 0 <= j < i ==> (#[trigger] segs[j]).2 != route@,
            decreases self.segments.len() - i,
        {
            if same_text(self.segments[i].2.as_str(), route) {
                proof {
                    assert(route_position(segs, route@, i as int));
                    let c = choose|c: int| route_position(segs, route@, c);
                    if c < i {
                        assert(segs[c].2 != route@);
                    } else if c > i {
                        assert(segs[i as int].2 != route@);
                    }
                }
                let t1 = self.segments[i].0;
                let t2 = self.segments[i].1;
                if time.0 < t1.0 {
                    let r = self.segments[i].2.clone();
                    self.segments.set(i, (time, t2, r));
                    assert(self.view_segments() =~= segs.update(i as int, (time, t2, route@)));
                } else if time.0 > t2.0 {
                    let r = self.segments[i].2.clone();
                    self.segments.set(i, (t1, time, r));
                    assert(self.view_segments() =~= segs.update(i as int, (t1, time, route@)));
                }
                return;
            }
            i += 1;
        }
        self.segments.push((time, time, route.to_string()));
        proof {
            vstd::string::to_string_from_display_ensures_for_str(route, self.segments@.last().2);
            assert(self.view_segments() =~= segs.push((time, time, route@)));
        }
    }

    /// Do some consecutive segments overlap (a segment starting before the previous one ends)?
    /// Checks for unusual situations worth debugging; the segments are sorted first.
    pub fn has_overlaps(&self) -> (r: bool)
        ensures
            r == exists|k: int|
                0 <= k < self.segments@.len() - 1 && (#[trigger] self.segments@[k + 1]).0.ms()
                    < self.segments@[k].1.ms(),
    {
        if self.segments.len() == 0 {
            return false;
        }
        let mut k: usize = 0;
        while k < self.segments.len() - 1
            invariant
                self.segments@.len() > 0,
                forall|j: int|
                    0 <= j < k && j < self.segments@.len() - 1 ==> !((#[trigger] self.segments@[j + 1]).0.ms()
                        < self.segments@[j].1.ms()),
            decreases self.segments.len() - k,
        {
            if self.segments[k + 1].0.0 < self.segments[k].1.0 {
                return true;
            }
            k += 1;
        }
        false
    }
}

/// The vehicles named by `legs`, with the segments their taps recorded so far: sorted by
/// identifier, one entry per identifier that some leg gives.
pub open spec fn tap_table(per: Seq<(VehicleID, Assignment)>, mapping: Map<Seq<char>, nat>, legs: Seq<JourneyLeg>) -> bool {
    &&& forall|a: int, b: int| 0 <= a < b < per.len() ==> (#[trigger] per[a]).0.0 < (#[trigger] per[b]).0.0
    &&& forall|k: int|
        0 <= k < per.len() ==> {
            &&& legs_of_vehicle(legs, mapping, (#[trigger] per[k]).0.0 as nat).len() > 0
            &&& per[k].1.view_segments() == segments_from(legs_of_vehicle(legs, mapping, per[k].0.0 as nat))
        }
    &&& forall|v: nat|
        #[trigger] legs_of_vehicle(legs, mapping, v).len() > 0 ==> exists|k: int|
            0 <= k < per.len() && (#[trigger] per[k]).0.0 == v
}

/// Where vehicle `id` stands in a table sorted by identifier, or would be inserted.
fn slot_of(per: &Vec<(VehicleID, Assignment)>, id: usize) -> (p: usize)
    ensures
        p <= per@.len(),
        forall|k: int| 0 <= k < p ==> (#[trigger] per@[k]).0.0 < id,
        p < per@.len() ==> per@[p as int].0.0 >= id,
{
    let mut p: usize = 0;
    while p < per.len() && per[p].0.0 < id
        invariant
            p <= per@.len(),
            forall|k: int| 0 <= k < p ==> (#[trigger] per@[k]).0.0 < id,
        decreases per@.len() - p,
    {
        p += 1;
    }
    p
}

/// Records a tap at `time` on `route` in entry `i` of the table.
fn update_entry(per: &mut Vec<(VehicleID, Assignment)>, i: usize, time: Time, route: &str)
    requires
        i < old(per)@.len(),
    ensures
        final(per)@.len() == old(per)@.len(),
        forall|k: int| 0 <= k < old(per)@.len() && k != i ==> (#[trigger] final(per)@[k]) == old(per)@[k],
        final(per)@[i as int].0 == old(per)@[i as int].0,
        final(per)@[i as int].1.view_segments() == updated_segments(old(per)@[i as int].1.view_segments(), time, route@),
{
    let (id, mut a) = per.remove(i);
    a.update(time, route);
    per.insert(i, (id, a));
}

/// The legs on a vehicle grow by the next leg exactly when it names that vehicle.
proof fn legs_of_vehicle_push(legs: Seq<JourneyLeg>, leg: JourneyLeg, mapping: Map<Seq<char>, nat>, v: nat)
    ensures
        legs_of_vehicle(legs.push(leg), mapping, v) == if leg_of_vehicle(leg, mapping, v) {
            legs_of_vehicle(legs, mapping, v).push(leg)
        } else {
            legs_of_vehicle(legs, mapping, v)
        },
{
    assert(legs.push(leg).drop_last() =~= legs);
}

/// A vehicle with taps is one the name mapping gives.
pub proof fn tapped_vehicle_is_mapped(legs: Seq<JourneyLeg>, mapping: Map<Seq<char>, nat>, v: nat)
    requires
        legs_of_vehicle(legs, mapping, v).len() > 0,
    ensures
        exists|t: Seq<char>| #[trigger] mapping.dom().contains(t) && mapping[t] == v,
    decreases legs.len(),
{
    if leg_of_vehicle(legs.last(), mapping, v) {
        assert(mapping.dom().contains(legs.last().vehicle_name.0@));
    } else {
        tapped_vehicle_is_mapped(legs.drop_last(), mapping, v);
    }
}

impl Model {
    /// For each vehicle named by ticketing, the routes it served and when: one segment per route,
    /// from the first to the last tap, sorted by first tap. Taps naming unknown vehicles are
    /// ignored. Vehicles come in identifier order.
    pub fn vehicle_to_route_short_name(&self) -> (r: Vec<(VehicleID, Assignment)>)
        requires
            self.vehicle_ids.wf(),
        ensures
            forall|a: int, b: int| 0 <= a < b < r@.len() ==> (#[trigger] r@[a]).0.0 < (#[trigger] r@[b]).0.0,
            forall|k: int|
                0 <= k < r@.len() ==> {
                    &&& has_taps(self.journeys@, self.vehicle_ids.mapping(), (#[trigger] r@[k]).0.0 as int)
                    &&& r@[k].1.view_segments() == vehicle_segments(
                        self.journeys@,
                        self.vehicle_ids.mapping(),
                        r@[k].0.0 as nat,
                    )
                },
            forall|v: int|
                0 <= v && #[trigger] has_taps(self.journeys@, self.vehicle_ids.mapping(), v) ==> exists|k: int|
                    0 <= k < r@.len() && (#[trigger] r@[k]).0.0 == v,
    {
        let ghost mapping = self.vehicle_ids.mapping();
        let mut per: Vec<(VehicleID, Assignment)> = Vec::new();
        proof {
            assert(self.journeys@.take(0) =~= Seq::<Journey>::empty());
        }
        let mut j: usize = 0;
        while j < self.journeys.len()
            invariant
                self.vehicle_ids.wf(),
                mapping == self.vehicle_ids.mapping(),
                j <= self.journeys.len(),
                tap_table(per@, mapping, all_legs(self.journeys@.take(j as int))),
            decreases self.journeys.len() - j,
        {
            let journey = &self.journeys[j];
            let ghost base = all_legs(self.journeys@.take(j as int));
            let mut l: usize = 0;
            proof {
                assert(base + journey.legs@.take(0) =~= base);
            }
            while l < journey.legs.len()
                invariant
                    self.vehicle_ids.wf(),
                    mapping == self.vehicle_ids.mapping(),
                    journey == self.journeys@[j as int],
                    j < self.journeys.len(),
                    l <= journey.legs.len(),
                    tap_table(per@, mapping, base + journey.legs@.take(l as int)),
                decreases journey.legs.len() - l,
            {
                let leg = &journey.legs[l];
                let ghost prefix = base + journey.legs@.take(l as int);
                let ghost next = base + journey.legs@.take(l + 1);
                proof {
                    assert(next =~= prefix.push(*leg));
                    assert forall|w: nat| true implies #[trigger] legs_of_vehicle(next, mapping, w) == if leg_of_vehicle(*leg, mapping, w) {
                        legs_of_vehicle(prefix, mapping, w).push(*leg)
                    } else {
                        legs_of_vehicle(prefix, mapping, w)
                    } by {
                        legs_of_vehicle_push(prefix, *leg, mapping, w);
                    }
                }
                match self.vehicle_ids.lookup(&leg.vehicle_name) {
                    Ok(id) => {
                        let v = id.0;
                        let ghost vn = v as nat;
                        assert(leg_of_vehicle(*leg, mapping, vn));
                        let ghost before = per@;
                        let p = slot_of(&per, v);
                        let found = p < per.len() && per[p].0.0 == v;
                        if !found {
                            proof {
                                if legs_of_vehicle(prefix, mapping, vn).len() > 0 {
                                    let k = choose|k: int| 0 <= k < before.len() && (#[trigger] before[k]).0.0 == vn;
                                    if k < p {
                                        assert(before[k].0.0 < v);
                                    } else if k > p {
                                        assert(before[p as int].0.0 < before[k].0.0);
                                    }
                                }
                                assert(legs_of_vehicle(prefix, mapping, vn).len() == 0);
                            }
                            per.insert(p, (VehicleID(v), Assignment::new()));
                            proof {
                                assert(per@[p as int].1.view_segments() =~= Seq::<SegmentView>::empty());
                            }
                        }
                        let ghost mid = per@;
                        update_entry(&mut per, p, leg.time, leg.route_short_name.as_str());
                        proof {
                            // The entry of `v` now holds the segments of its legs, this one included.
                            assert(mid[p as int].0.0 == v);
                            assert(mid[p as int].1.view_segments() == segments_from(legs_of_vehicle(prefix, mapping, vn)));
                            assert(legs_of_vehicle(next, mapping, vn) == legs_of_vehicle(prefix, mapping, vn).push(*leg));
                            assert(legs_of_vehicle(prefix, mapping, vn).push(*leg).drop_last()
                                =~= legs_of_vehicle(prefix, mapping, vn));
                            // Every other entry is an earlier one, unchanged.
                            assert forall|k: int| 0 <= k < per@.len() && k != p implies #[trigger] per@[k] == (if found || k < p {
                                before[k]
                            } else {
                                before[k - 1]
                            }) by {
                                assert(per@[k] == mid[k]);
                            }
                            assert forall|a: int, b: int| 0 <= a < b < per@.len() implies (#[trigger] per@[a]).0.0
                                < (#[trigger] per@[b]).0.0 by {
                                if a != p && b != p {
                                    if found || b < p {
                                    } else if a < p {
                                        assert(per@[b] == before[b - 1]);
                                    } else {
                                        assert(per@[a] == before[a - 1] && per@[b] == before[b - 1]);
                                    }
                                } else if a == p {
                                    if found {
                                        assert(before[p as int].0.0 < before[b].0.0);
                                    } else {
                                        assert(per@[b] == before[b - 1]);
                                        if b - 1 > p {
                                            assert(before[p as int].0.0 < before[b - 1].0.0);
                                        }
                                    }
                                } else {
                                    assert(per@[a] == before[a]);
                                }
                            }
                            assert forall|k: int| 0 <= k < per@.len() implies {
                                &&& legs_of_vehicle(next, mapping, (#[trigger] per@[k]).0.0 as nat).len() > 0
                                &&& per@[k].1.view_segments() == segments_from(legs_of_vehicle(next, mapping, per@[k].0.0 as nat))
                            } by {
                                if k != p {
                                    let e = if found || k < p { before[k] } else { before[k - 1] };
                                    assert(per@[k] == e);
                                    assert(e.0.0 != v);
                                    assert(!leg_of_vehicle(*leg, mapping, e.0.0 as nat));
                                }
                            }
                            assert forall|w: nat| #[trigger] legs_of_vehicle(next, mapping, w).len() > 0 implies exists|k: int|
                                0 <= k < per@.len() && (#[trigger] per@[k]).0.0 == w by {
                                if w == vn {
                                    assert(per@[p as int].0.0 == w);
                                } else {
                                    assert(!leg_of_vehicle(*leg, mapping, w));
                                    assert(legs_of_vehicle(prefix, mapping, w).len() > 0);
                                    let k = choose|k: int| 0 <= k < before.len() && (#[trigger] before[k]).0.0 == w;
                                    if found || k < p {
                                        assert(per@[k] == before[k]);
                                    } else {
                                        assert(per@[k + 1] == before[k]);
                                    }
                                }
                            }
                        }
                    },
                    Err(_) => {
                        proof {
                            assert forall|w: nat| !leg_of_vehicle(*leg, mapping, w) by {
                            }
                        }
                    },
                }
                l += 1;
            }
            proof {
                assert(journey.legs@.take(l as int) =~= journey.legs@);
                assert(self.journeys@.take(j + 1).drop_last() =~= self.journeys@.take(j as int));
                assert(self.journeys@.take(j + 1).last() == *journey);
            }
            j += 1;
        }
        proof {
            assert(self.journeys@.take(j as int) =~= self.journeys@);
        }
        let ghost all = per@;
        let ghost legs = all_legs(self.journeys@);
        let n = per.len();
        let mut result: Vec<(VehicleID, Assignment)> = Vec::new();
        let mut v: usize = 0;
        while v < n
            invariant
                mapping == self.vehicle_ids.mapping(),
                legs == all_legs(self.journeys@),
                tap_table(all, mapping, legs),
                n == all.len(),
                v <= n,
                per@ == all.subrange(v as int, n as int),
                result@.len() == v,
                forall|k: int| 0 <= k < v ==> (#[trigger] result@[k]).0 == all[k].0,
                forall|k: int|
                    0 <= k < v ==> (#[trigger] result@[k]).1.view_segments() == vehicle_segments(
                        self.journeys@,
                        mapping,
                        all[k].0.0 as nat,
                    ),
            decreases n - v,
        {
            let (id, a) = per.remove(0);
            proof {
                assert((id, a) == all[v as int]);
                assert(per@ =~= all.subrange(v + 1, n as int));
            }
            let ghost raw = a.segments@;
            let sorted = stable_sort(a.segments);
            proof {
                stable_sorted_map(raw, key_fn::<(Time, Time, String)>(), seg_start_fn(), seg_view_fn());
            }
            result.push((id, Assignment { segments: sorted }));
            v += 1;
        }
        proof {
            assert forall|w: int| 0 <= w && #[trigger] has_taps(self.journeys@, mapping, w) implies exists|k: int|
                0 <= k < result@.len() && (#[trigger] result@[k]).0.0 == w by {
                assert(legs_of_vehicle(legs, mapping, w as nat).len() > 0);
                let k = choose|k: int| 0 <= k < all.len() && (#[trigger] all[k]).0.0 == w as nat;
                assert(result@[k].0 == all[k].0);
            }
        }
        result
    }
}

/// Segments come from legs: there is one exactly when there is a leg.
proof fn segments_nonempty(legs: Seq<JourneyLeg>)
    ensures
        segments_from(legs).len() > 0 <==> legs.len() > 0,
    decreases legs.len(),
{
    if legs.len() > 0 {
        segments_nonempty(legs.drop_last());
        let segs = segments_from(legs.drop_last());
        let route = legs.last().route_short_name@;
        if exists|i: int| route_position(segs, route, i) {
        }
    }
}


/// The identifiers of the services of `cal` that match the filter.
pub open spec fn matching_services(cal: Calendar, filter: DateFilter) -> Set<Seq<char>> {
    Set::new(|t: Seq<char>| cal.by_id().dom().contains(t) && service_matches(cal.by_id()[t], filter))
}

/// The variants among `vs` that run on one of `services`, in order.
pub open spec fn variants_with_service(vs: Seq<RouteVariant>, services: Set<Seq<char>>) -> Seq<RouteVariantID>
    decreases vs.len(),
{
    if vs.len() == 0 {
        Seq::empty()
    } else {
        let rest = variants_with_service(vs.drop_last(), services);
        if services.contains(vs.last().service_id.0@) {
            rest.push(vs.last().variant_id)
        } else {
            rest
        }
    }
}

/// Is `name` the short name of the route?
pub open spec fn has_short_name(r: Route, name: Seq<char>) -> bool {
    r.short_name matches Some(s) && s@ == name
}

/// The variants of the routes with short name `name` that run on one of `services`, route by
/// route.
pub open spec fn variants_for_route_name(routes: Seq<Route>, name: Seq<char>, services: Set<Seq<char>>) -> Seq<RouteVariantID>
    decreases routes.len(),
{
    if routes.len() == 0 {
        Seq::empty()
    } else {
        let rest = variants_for_route_name(routes.drop_last(), name, services);
        if has_short_name(routes.last(), name) {
            rest + variants_with_service(routes.last().variants@, services)
        } else {
            rest
        }
    }
}

/// The variants vehicle `v` may have served: when ticketing shows it on exactly one route, the
/// variants of the routes with that short name whose service runs on the model's day.
#[verifier::opaque]
pub open spec fn candidate_variants(m: Model, v: nat) -> Seq<RouteVariantID> {
    let segs = vehicle_segments(m.journeys@, m.vehicle_ids.mapping(), v);
    if segs.len() == 1 {
        variants_for_route_name(
            m.gtfs.routes@,
            segs[0].2,
            matching_services(m.gtfs.calendar, DateFilter::SingleDay(m.main_date)),
        )
    } else {
        Seq::empty()
    }
}

/// What `candidate_variants` is for one vehicle.
pub proof fn candidate_variants_def(m: Model, v: nat)
    ensures
        candidate_variants(m, v) == (if vehicle_segments(m.journeys@, m.vehicle_ids.mapping(), v).len() == 1 {
            variants_for_route_name(
                m.gtfs.routes@,
                vehicle_segments(m.journeys@, m.vehicle_ids.mapping(), v)[0].2,
                matching_services(m.gtfs.calendar, DateFilter::SingleDay(m.main_date)),
            )
        } else {
            Seq::empty()
        }),
{
    reveal(candidate_variants);
}

/// Each variant kept from `vs` is one of them.
proof fn variants_with_service_from(vs: Seq<RouteVariant>, services: Set<Seq<char>>, k: int)
    requires
        0 <= k < variants_with_service(vs, services).len(),
    ensures
        exists|j: int| 0 <= j < vs.len() && (#[trigger] vs[j]).variant_id == variants_with_service(vs, services)[k],
    decreases vs.len(),
{
    let rest = variants_with_service(vs.drop_last(), services);
    if k < rest.len() {
        variants_with_service_from(vs.drop_last(), services, k);
        let j = choose|j: int| 0 <= j < vs.drop_last().len() && (#[trigger] vs.drop_last()[j]).variant_id == rest[k];
        assert(vs[j] == vs.drop_last()[j]);
    } else {
        assert(vs[vs.len() - 1].variant_id == variants_with_service(vs, services)[k]);
    }
}

/// Every candidate variant is a variant of the schedule.
pub proof fn candidates_are_variants(routes: Seq<Route>, name: Seq<char>, services: Set<Seq<char>>)
    ensures
        forall|k: int|
            0 <= k < variants_for_route_name(routes, name, services).len() ==> has_variant(
                routes,
                #[trigger] variants_for_route_name(routes, name, services)[k],
            ),
    decreases routes.len(),
{
    if routes.len() > 0 {
        let front = routes.drop_last();
        candidates_are_variants(front, name, services);
        let rest = variants_for_route_name(front, name, services);
        let all = variants_for_route_name(routes, name, services);
        assert forall|k: int| 0 <= k < all.len() implies has_variant(routes, #[trigger] all[k]) by {
            if k < rest.len() {
                assert(all[k] == rest[k]);
                assert(has_variant(front, rest[k]));
                let (a, b) = choose|a: int, b: int|
                    is_variant_at(front, a, b) && (#[trigger] variant_at(front, a, b)).variant_id == rest[k];
                assert(variant_at(routes, a, b) == variant_at(front, a, b));
            } else {
                let last = routes.len() - 1;
                let vs = routes[last].variants@;
                variants_with_service_from(vs, services, k - rest.len());
                let j = choose|j: int| 0 <= j < vs.len() && (#[trigger] vs[j]).variant_id == variants_with_service(vs, services)[k - rest.len()];
                assert(variant_at(routes, last, j).variant_id == all[k]);
            }
        }
    }
}

/// The variants of routes named `name` whose service is one of `services`.
fn variants_for_name(routes: &Vec<Route>, name: &str, services: &Vec<ServiceID>) -> (r: Vec<RouteVariantID>)
    requires
        strictly_sorted(services@),
    ensures
        r@ == variants_for_route_name(routes@, name@, key_set(services@)),
{
    let ghost set = key_set(services@);
    let mut r: Vec<RouteVariantID> = Vec::new();
    let mut i: usize = 0;
    while i < routes.len()
        invariant
            strictly_sorted(services@),
            set == key_set(services@),
            i <= routes.len(),
            r@ == variants_for_route_name(routes@.take(i as int), name@, set),
        decreases routes.len() - i,
    {
        let route = &routes[i];
        proof {
            assert(routes@.take(i + 1).drop_last() =~= routes@.take(i as int));
            assert(routes@.take(i + 1).last() == *route);
        }
        let named = match &route.short_name {
            Some(x) => same_text(x.as_str(), name),
            None => false,
        };
        if named {
            let ghost start = r@;
            let mut j: usize = 0;
            proof {
                assert(route.variants@.take(0) =~= Seq::<RouteVariant>::empty());
                assert(r@ =~= start + variants_with_service(route.variants@.take(0), set));
            }
            while j < route.variants.len()
                invariant
                    strictly_sorted(services@),
                    set == key_set(services@),
                    route == routes@[i as int],
                    j <= route.variants.len(),
                    r@ == start + variants_with_service(route.variants@.take(j as int), set),
                decreases route.variants.len() - j,
            {
                let variant = &route.variants[j];
                proof {
                    assert(route.variants@.take(j + 1).drop_last() =~= route.variants@.take(j as int));
                    assert(route.variants@.take(j + 1).last() == *variant);
                }
                let found = search_sorted(services, variant.service_id.0.as_str());
                if found.is_ok() {
                    r.push(variant.variant_id);
                    assert(r@ =~= start + variants_with_service(route.variants@.take(j + 1), set));
                } else {
                    assert(r@ =~= start + variants_with_service(route.variants@.take(j + 1), set));
                }
                j += 1;
            }
            assert(route.variants@.take(j as int) =~= route.variants@);
        }
        i += 1;
    }
    assert(routes@.take(i as int) =~= routes@);
    r
}

/// No leg belongs to a vehicle identifier that the mapping never gives.
proof fn no_legs_beyond(legs: Seq<JourneyLeg>, mapping: Map<Seq<char>, nat>, n: nat, v: nat)
    requires
        forall|t: Seq<char>| #[trigger] mapping.dom().contains(t) ==> mapping[t] < n,
        v >= n,
    ensures
        legs_of_vehicle(legs, mapping, v) == Seq::<JourneyLeg>::empty(),
    decreases legs.len(),
{
    if legs.len() > 0 {
        no_legs_beyond(legs.drop_last(), mapping, n, v);
    }
}

/// An entry of `vehicle_to_route_short_name`: a vehicle that ticketing names, with its segments.
#[verifier::opaque]
spec fn assigned_vehicle(m: Model, e: (VehicleID, Assignment)) -> bool {
    &&& e.0.0 < m.vehicles@.len()
    &&& has_taps(m.journeys@, m.vehicle_ids.mapping(), e.0.0 as int)
    &&& e.1.view_segments() == vehicle_segments(m.journeys@, m.vehicle_ids.mapping(), e.0.0 as nat)
}

/// An entry of `vehicles_to_possible_routes`: a vehicle and its candidate variants, of which
/// there is at least one.
#[verifier::opaque]
spec fn possible_entry(m: Model, e: (VehicleID, Vec<RouteVariantID>)) -> bool {
    &&& e.0.0 < m.vehicles@.len()
    &&& e.1@ == candidate_variants(m, e.0.0 as nat)
    &&& e.1@.len() > 0
}

impl Model {
    /// The candidate variants of one vehicle that ticketing names.
    fn candidates_of(&self, e: &(VehicleID, Assignment), services: &Vec<ServiceID>) -> (r: Vec<RouteVariantID>)
        requires
            self.wf(),
            assigned_vehicle(*self, *e),
            strictly_sorted(services@),
            key_set(services@) == matching_services(self.gtfs.calendar, DateFilter::SingleDay(self.main_date)),
        ensures
            r@ == candidate_variants(*self, e.0.0 as nat),
    {
        proof {
            reveal(assigned_vehicle);
            candidate_variants_def(*self, e.0.0 as nat);
        }
        let a = &e.1;
        if a.segments.len() == 1 {
            assert(a.view_segments()[0].2 == a.segments@[0].2@);
            variants_for_name(&self.gtfs.routes, a.segments[0].2.as_str(), services)
        } else {
            Vec::new()
        }
    }

    /// For each vehicle that ticketing shows on exactly one route, the variants of routes with
    /// that short name whose service runs on the model's day; vehicles with no such variant are
    /// left out. Vehicles come in identifier order.
    pub fn vehicles_to_possible_routes(&self) -> (r: Vec<(VehicleID, Vec<RouteVariantID>)>)
        requires
            self.wf(),
        ensures
            forall|a: int, b: int| 0 <= a < b < r@.len() ==> (#[trigger] r@[a]).0.0 < (#[trigger] r@[b]).0.0,
            forall|k: int|
                0 <= k < r@.len() ==> {
                    &&& (#[trigger] r@[k]).0.0 < self.vehicles@.len()
                    &&& r@[k].1@ == candidate_variants(*self, r@[k].0.0 as nat)
                    &&& r@[k].1@.len() > 0
                },
            forall|v: nat|
                v < self.vehicles@.len() && (#[trigger] candidate_variants(*self, v)).len() > 0
                    ==> exists|k: int| 0 <= k < r@.len() && (#[trigger] r@[k]).0.0 == v,
    {
        let services = self.gtfs.calendar.services_matching_dates(&DateFilter::SingleDay(self.main_date));
        let ghost matching = matching_services(self.gtfs.calendar, DateFilter::SingleDay(self.main_date));
        assert(key_set(services@) =~= matching);
        let assignments = self.vehicle_to_route_short_name();
        proof {
            reveal(assigned_vehicle);
            assert forall|m: int| 0 <= m < assignments@.len() implies #[trigger] assigned_vehicle(*self, assignments@[m]) by {
                let v = assignments@[m].0.0 as nat;
                tapped_vehicle_is_mapped(all_legs(self.journeys@), self.vehicle_ids.mapping(), v);
                let t = choose|t: Seq<char>| #[trigger] self.vehicle_ids.mapping().dom().contains(t)
                    && self.vehicle_ids.mapping()[t] == v;
            }
        }
        let mut result: Vec<(VehicleID, Vec<RouteVariantID>)> = Vec::new();
        let mut k: usize = 0;
        while k < assignments.len()
            invariant
                self.wf(),
                strictly_sorted(services@),
                key_set(services@) == matching,
                matching == matching_services(self.gtfs.calendar, DateFilter::SingleDay(self.main_date)),
                k <= assignments@.len(),
                forall|a: int, b: int|
                    0 <= a < b < assignments@.len() ==> (#[trigger] assignments@[a]).0.0
                        < (#[trigger] assignments@[b]).0.0,
                forall|m: int| 0 <= m < assignments@.len() ==> #[trigger] assigned_vehicle(*self, assignments@[m]),
                forall|a: int, b: int| 0 <= a < b < result@.len() ==> (#[trigger] result@[a]).0.0 < (#[trigger] result@[b]).0.0,
                forall|q: int|
                    0 <= q < result@.len() ==> exists|m: int|
                        0 <= m < k && (#[trigger] result@[q]).0 == assignments@[m].0,
                forall|q: int| 0 <= q < result@.len() ==> #[trigger] possible_entry(*self, result@[q]),
                forall|m: int|
                    0 <= m < k && candidate_variants(*self, (#[trigger] assignments@[m]).0.0 as nat).len() > 0
                        ==> exists|q: int| 0 <= q < result@.len() && (#[trigger] result@[q]).0 == assignments@[m].0,
            decreases assignments@.len() - k,
        {
            let vehicle = assignments[k].0;
            let variants = self.candidates_of(&assignments[k], &services);
            if variants.len() > 0 {
                let ghost before = result@;
                proof {
                    assert forall|q: int| 0 <= q < before.len() implies (#[trigger] before[q]).0.0 < vehicle.0 by {
                        let m = choose|m: int| 0 <= m < k && (#[trigger] before[q]).0 == assignments@[m].0;
                        assert(assignments@[m].0.0 < assignments@[k as int].0.0);
                    }
                    reveal(possible_entry);
                    reveal(assigned_vehicle);
                    assert(assigned_vehicle(*self, assignments@[k as int]));
                    assert(possible_entry(*self, (vehicle, variants)));
                }
                result.push((vehicle, variants));
                proof {
                    assert forall|q: int| 0 <= q < result@.len() implies exists|m: int|
                        0 <= m < k + 1 && (#[trigger] result@[q]).0 == assignments@[m].0 by {
                        if q < before.len() {
                            assert(result@[q] == before[q]);
                            let m = choose|m: int| 0 <= m < k && (#[trigger] before[q]).0 == assignments@[m].0;
                            assert(result@[q].0 == assignments@[m].0);
                        } else {
                            assert(result@[q].0 == assignments@[k as int].0);
                        }
                    }
                    assert forall|q: int| 0 <= q < result@.len() implies #[trigger] possible_entry(*self, result@[q]) by {
                        if q < before.len() {
                            assert(result@[q] == before[q]);
                        }
                    }
                    assert forall|m: int|
                        0 <= m < k + 1 && candidate_variants(*self, (#[trigger] assignments@[m]).0.0 as nat).len() > 0
                            implies exists|q: int| 0 <= q < result@.len() && (#[trigger] result@[q]).0 == assignments@[m].0 by {
                        if m < k {
                            let q = choose|q: int| 0 <= q < before.len() && (#[trigger] before[q]).0 == assignments@[m].0;
                            assert(result@[q] == before[q]);
                        } else {
                            assert(result@[before.len() as int].0 == assignments@[m].0);
                        }
                    }
                }
            }
            k += 1;
        }
        proof {
            reveal(possible_entry);
            reveal(assigned_vehicle);
            let mapping = self.vehicle_ids.mapping();
            assert forall|k: int| 0 <= k < result@.len() implies {
                &&& (#[trigger] result@[k]).0.0 < self.vehicles@.len()
                &&& result@[k].1@ == candidate_variants(*self, result@[k].0.0 as nat)
                &&& result@[k].1@.len() > 0
            } by {
                assert(possible_entry(*self, result@[k]));
            }
            assert forall|v: nat|
                v < self.vehicles@.len() && (#[trigger] candidate_variants(*self, v)).len() > 0
                    implies exists|q: int| 0 <= q < result@.len() && (#[trigger] result@[q]).0.0 == v by {
                candidate_variants_def(*self, v);
                let legs = legs_of_vehicle(all_legs(self.journeys@), mapping, v);
                if legs.len() == 0 {
                    assert(segments_from(legs) =~= Seq::<SegmentView>::empty());
                    assert(vehicle_segments(self.journeys@, mapping, v) =~= Seq::<SegmentView>::empty());
                }
                assert(has_taps(self.journeys@, mapping, v as int));
                let m = choose|m: int| 0 <= m < assignments@.len() && (#[trigger] assignments@[m]).0.0 == v;
                assert(candidate_variants(*self, assignments@[m].0.0 as nat).len() > 0);
                let q = choose|q: int| 0 <= q < result@.len() && (#[trigger] result@[q]).0 == assignments@[m].0;
                assert(result@[q].0.0 == v);
            }
        }
        result
    }

    /// The variants the vehicle may have served (see `vehicles_to_possible_routes`); empty when
    /// there are none.
    pub fn vehicle_to_possible_routes(&self, id: VehicleID) -> (r: Vec<RouteVariantID>)
        requires
            self.wf(),
        ensures
            r@ == candidate_variants(*self, id.0 as nat),
    {
        let mut all = self.vehicles_to_possible_routes();
        let ghost listed = all@;
        let mut k: usize = 0;
        while k < all.len()
            invariant
                all@ == listed,
                forall|q: int|
                    0 <= q < listed.len() ==> (#[trigger] listed[q]).1@ == candidate_variants(*self, listed[q].0.0 as nat),
                forall|v: nat|
                    v < self.vehicles@.len() && (#[trigger] candidate_variants(*self, v)).len() > 0
                        ==> exists|q: int| 0 <= q < listed.len() && (#[trigger] listed[q]).0.0 == v,
                forall|q: int| 0 <= q < k ==> (#[trigger] all@[q]).0.0 != id.0,
                k <= all@.len(),
            decreases all@.len() - k,
        {
            if all[k].0.0 == id.0 {
                let (_, variants) = all.remove(k);
                return variants;
            }
            k += 1;
        }
        proof {
            candidate_variants_def(*self, id.0 as nat);
            if id.0 >= self.vehicles@.len() {
                no_legs_beyond(all_legs(self.journeys@), self.vehicle_ids.mapping(), self.vehicles@.len() as nat, id.0 as nat);
                assert(segments_from(Seq::<JourneyLeg>::empty()) =~= Seq::<SegmentView>::empty());
                assert(vehicle_segments(self.journeys@, self.vehicle_ids.mapping(), id.0 as nat) =~= Seq::<SegmentView>::empty());
            } else if candidate_variants(*self, id.0 as nat).len() > 0 {
                let q = choose|q: int| 0 <= q < listed.len() && (#[trigger] listed[q]).0.0 == id.0;
                assert(listed[q].0.0 != id.0);
            }
        }
        assert(candidate_variants(*self, id.0 as nat) =~= Seq::<RouteVariantID>::empty());
        Vec::new()
    }
}

/// Of the variants `ids`, those with fewer than 15 stops, in order.
pub open spec fn short_variants(m: Model, ids: Seq<RouteVariantID>) -> Seq<RouteVariantID>
    decreases ids.len(),
{
    if ids.len() == 0 {
        Seq::empty()
    } else if variant_stops(m.gtfs.variant_spec(ids.last())).len() < 15 {
        short_variants(m, ids.drop_last()).push(ids.last())
    } else {
        short_variants(m, ids.drop_last())
    }
}

/// For the first `n` vehicles in turn, each variant it may have served that has fewer than 15
/// stops.
pub open spec fn few_stop_pairs(m: Model, n: nat) -> Seq<(VehicleID, RouteVariantID)>
    decreases n,
{
    if n == 0 {
        Seq::empty()
    } else {
        few_stop_pairs(m, (n - 1) as nat) + short_variants(m, candidate_variants(m, (n - 1) as nat)).map_values(
            |id: RouteVariantID| (VehicleID((n - 1) as usize), id),
        )
    }
}

impl Model {
    /// The vehicles that may serve a variant with fewer than 15 stops, with each such variant:
    /// simple routes, easy to inspect by hand. Vehicles in identifier order.
    pub fn vehicles_with_few_stops(&self) -> (r: Vec<(VehicleID, RouteVariantID)>)
        requires
            self.wf(),
        ensures
            r@ == few_stop_pairs(*self, self.vehicles@.len()),
    {
        let mut r: Vec<(VehicleID, RouteVariantID)> = Vec::new();
        let mut v: usize = 0;
        while v < self.vehicles.len()
            invariant
                self.wf(),
                v <= self.vehicles@.len(),
                r@ == few_stop_pairs(*self, v as nat),
            decreases self.vehicles@.len() - v,
        {
            let ids = self.vehicle_to_possible_routes(VehicleID(v));
            proof {
                candidate_variants_def(*self, v as nat);
                let segs = vehicle_segments(self.journeys@, self.vehicle_ids.mapping(), v as nat);
                if segs.len() == 1 {
                    candidates_are_variants(
                        self.gtfs.routes@,
                        segs[0].2,
                        matching_services(self.gtfs.calendar, DateFilter::SingleDay(self.main_date)),
                    );
                }
            }
            let ghost base = r@;
            let mut k: usize = 0;
            proof {
                assert(ids@.take(0) =~= Seq::<RouteVariantID>::empty());
                assert(base + short_variants(*self, ids@.take(0)).map_values(
                    |id: RouteVariantID| (VehicleID(v), id),
                ) =~= base);
            }
            while k < ids.len()
                invariant
                    self.wf(),
                    k <= ids@.len(),
                    forall|q: int| 0 <= q < ids@.len() ==> has_variant(self.gtfs.routes@, #[trigger] ids@[q]),
                    r@ == base + short_variants(*self, ids@.take(k as int)).map_values(
                        |id: RouteVariantID| (VehicleID(v), id),
                    ),
                decreases ids@.len() - k,
            {
                let id = ids[k];
                assert(has_variant(self.gtfs.routes@, ids@[k as int]));
                let variant = self.gtfs.variant(id);
                let stops = variant.stops();
                proof {
                    assert(ids@.take(k + 1).drop_last() =~= ids@.take(k as int));
                    assert(ids@.take(k + 1).last() == id);
                }
                if stops.len() < 15 {
                    r.push((VehicleID(v), id));
                    proof {
                        let f = |id: RouteVariantID| (VehicleID(v), id);
                        assert(short_variants(*self, ids@.take(k + 1)) == short_variants(*self, ids@.take(k as int)).push(id));
                        assert(short_variants(*self, ids@.take(k as int)).push(id).map_values(f) =~= short_variants(
                            *self,
                            ids@.take(k as int),
                        ).map_values(f).push(f(id)));
                    }
                } else {
                    assert(short_variants(*self, ids@.take(k + 1)) == short_variants(*self, ids@.take(k as int)));
                }
                k += 1;
            }
            proof {
                assert(ids@.take(k as int) =~= ids@);
            }
            v += 1;
        }
        r
    }
}

} // verus!
