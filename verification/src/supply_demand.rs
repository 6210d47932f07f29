//! Per route short name, the vehicles serving it at least part of the day (supply) and the
//! scheduled trips (demand), matched up assuming a vehicle serves one trip at a time.

use vstd::prelude::*;

use crate::calendar::DateFilter;
use crate::gtfs::{increasing_ids, increasing_ids_unique, passes_filter, variant_at, variant_spec_facts, is_variant_at, VariantFilter, GTFS};
use crate::ids::TripID;
use crate::model::{Model, VehicleID};
use crate::routes::{RouteVariant, RouteVariantID};
use crate::text::{
    list_at, list_at_index, list_at_insert, list_at_update,
    has_key, insert_at_gap_keeps_sorted, search_sorted, strictly_sorted, text_lt, text_lt_irreflexive,
    text_lt_transitive, TextKeyed,
};
use crate::time::Time;
use crate::timetable::{intervals_overlap, sorted_disjoint, span_of, Timetable};
use crate::trips::Trip;
use crate::vehicle_to_routes::{
    all_legs, has_taps, matching_services, tapped_vehicle_is_mapped, vehicle_segments, Assignment, SegmentView,
};

verus! {

/// The scheduled trips of one route short name: each trip with its first arrival and last
/// departure.
pub type RouteDemand = (String, Vec<(TripID, Time, Time)>);

/// The variants running on the model's day, in increasing order.
pub open spec fn variants_of_day(m: Model) -> Seq<RouteVariantID> {
    choose|ids: Seq<RouteVariantID>|
        increasing_ids(ids) && forall|id: RouteVariantID|
            ids.contains(id) <==> exists|i: int, j: int|
                is_variant_at(m.gtfs.routes@, i, j) && (#[trigger] variant_at(m.gtfs.routes@, i, j)).variant_id == id
                    && matching_services(m.gtfs.calendar, DateFilter::SingleDay(m.main_date)).contains(
                    variant_at(m.gtfs.routes@, i, j).service_id.0@,
                )
}

/// One scheduled trip as demand: the trip, its first arrival and its last departure.
pub open spec fn trip_demand(t: Trip) -> (TripID, Time, Time) {
    (t.id, t.stop_times@[0].arrival_time, t.stop_times@.last().departure_time)
}

/// The trips of a variant as demand, in order.
pub open spec fn variant_demand(v: RouteVariant) -> Seq<(TripID, Time, Time)> {
    v.trips@.map_values(|t: Trip| trip_demand(t))
}

/// The demand of the variants `ids`, by route short name: each variant's trips are appended under
/// its route's short name; routes without one are left out.
pub open spec fn demand_from(g: GTFS, ids: Seq<RouteVariantID>) -> Map<Seq<char>, Seq<(TripID, Time, Time)>>
    decreases ids.len(),
{
    if ids.len() == 0 {
        Map::empty()
    } else {
        let d = demand_from(g, ids.drop_last());
        let id = ids.last();
        match g.parent_spec(id).short_name {
            Some(name) => {
                let before = if d.dom().contains(name@) {
                    d[name@]
                } else {
                    Seq::empty()
                };
                d.insert(name@, before + variant_demand(g.variant_spec(id)))
            },
            None => d,
        }
    }
}

/// All trips of the model's day, by route short name.
pub open spec fn day_demand(m: Model) -> Map<Seq<char>, Seq<(TripID, Time, Time)>> {
    demand_from(m.gtfs, variants_of_day(m))
}

/// A list of per-route demand, sorted by route short name, read as a map.
pub open spec fn demand_view(r: Seq<RouteDemand>) -> Map<Seq<char>, Seq<(TripID, Time, Time)>> {
    Map::new(
        |name: Seq<char>| has_key(r, name),
        |name: Seq<char>| r[choose|k: int| 0 <= k < r.len() && #[trigger] r[k].key_text() == name].1@,
    )
}

/// The view of a sorted list after one entry changes its trips but not its name.
proof fn demand_view_update(r: Seq<RouteDemand>, k: int, e: RouteDemand)
    requires
        strictly_sorted(r),
        0 <= k < r.len(),
        e.0@ == r[k].0@,
    ensures
        strictly_sorted(r.update(k, e)),
        demand_view(r.update(k, e)) == demand_view(r).insert(e.0@, e.1@),
{
    let t = r.update(k, e);
    assert forall|a: int, b: int| 0 <= a < b < t.len() implies crate::text::text_lt(
        (#[trigger] t[a]).key_text(),
        (#[trigger] t[b]).key_text(),
    ) by {
        assert(r[a].key_text() == t[a].key_text());
        assert(r[b].key_text() == t[b].key_text());
    }
    assert forall|name: Seq<char>| #[trigger] has_key(t, name) == has_key(r, name) by {
        if has_key(t, name) {
            let q = choose|q: int| 0 <= q < t.len() && #[trigger] t[q].key_text() == name;
            assert(r[q].key_text() == name);
        }
        if has_key(r, name) {
            let q = choose|q: int| 0 <= q < r.len() && #[trigger] r[q].key_text() == name;
            assert(t[q].key_text() == name);
        }
    }
    assert forall|name: Seq<char>| has_key(t, name) implies #[trigger] demand_view(t)[name] == demand_view(r).insert(
        e.0@,
        e.1@,
    )[name] by {
        let q = choose|q: int| 0 <= q < t.len() && #[trigger] t[q].key_text() == name;
        let p = choose|p: int| 0 <= p < r.len() && #[trigger] r[p].key_text() == name;
        if q != p {
            if q < p {
                assert(crate::text::text_lt(r[q].key_text(), r[p].key_text()));
            } else {
                assert(crate::text::text_lt(r[p].key_text(), r[q].key_text()));
            }
            crate::text::text_lt_irreflexive(name);
        }
        if q == k {
            assert(name == e.0@);
        } else {
            assert(name != e.0@) by {
                if name == e.0@ {
                    if q < k {
                        assert(crate::text::text_lt(r[q].key_text(), r[k].key_text()));
                    } else {
                        assert(crate::text::text_lt(r[k].key_text(), r[q].key_text()));
                    }
                    crate::text::text_lt_irreflexive(name);
                }
            }
        }
    }
    assert(demand_view(t) =~= demand_view(r).insert(e.0@, e.1@));
}

/// The view of a sorted list after inserting a new name at its gap.
proof fn demand_view_insert(r: Seq<RouteDemand>, k: int, e: RouteDemand)
    requires
        strictly_sorted(r),
        crate::text::gap_for(r, e.0@, k),
    ensures
        strictly_sorted(r.insert(k, e)),
        demand_view(r.insert(k, e)) == demand_view(r).insert(e.0@, e.1@),
        !demand_view(r).dom().contains(e.0@),
{
    let t = r.insert(k, e);
    insert_at_gap_keeps_sorted(r, e, k);
    if has_key(r, e.0@) {
        let q = choose|q: int| 0 <= q < r.len() && #[trigger] r[q].key_text() == e.0@;
        crate::text::text_lt_irreflexive(e.0@);
    }
    assert forall|name: Seq<char>| #[trigger] has_key(t, name) == (has_key(r, name) || name == e.0@) by {
        if has_key(t, name) {
            let q = choose|q: int| 0 <= q < t.len() && #[trigger] t[q].key_text() == name;
            if q < k {
                assert(r[q].key_text() == name);
            } else if q > k {
                assert(r[q - 1].key_text() == name);
            }
        }
        if has_key(r, name) {
            let q = choose|q: int| 0 <= q < r.len() && #[trigger] r[q].key_text() == name;
            if q < k {
                assert(t[q].key_text() == name);
            } else {
                assert(t[q + 1].key_text() == name);
            }
        }
        if name == e.0@ {
            assert(t[k].key_text() == name);
        }
    }
    assert forall|name: Seq<char>| has_key(t, name) implies #[trigger] demand_view(t)[name] == demand_view(r).insert(
        e.0@,
        e.1@,
    )[name] by {
        let q = choose|q: int| 0 <= q < t.len() && #[trigger] t[q].key_text() == name;
        if q == k {
            assert(name == e.0@);
        } else {
            let qq = if q < k { q } else { q - 1 };
            assert(r[qq] == t[q]);
            assert(has_key(r, name));
            let p = choose|p: int| 0 <= p < r.len() && #[trigger] r[p].key_text() == name;
            if p != qq {
                if p < qq {
                    assert(crate::text::text_lt(r[p].key_text(), r[qq].key_text()));
                } else {
                    assert(crate::text::text_lt(r[qq].key_text(), r[p].key_text()));
                }
                crate::text::text_lt_irreflexive(name);
            }
            assert(name != e.0@);
        }
    }
    assert(demand_view(t) =~= demand_view(r).insert(e.0@, e.1@));
}

/// The demand of one variant's trips.
fn variant_trips_demand(v: &RouteVariant) -> (r: Vec<(TripID, Time, Time)>)
    requires
        forall|k: int| 0 <= k < v.trips@.len() ==> (#[trigger] v.trips@[k]).stop_times@.len() > 0,
    ensures
        r@ == variant_demand(*v),
{
    let mut r: Vec<(TripID, Time, Time)> = Vec::new();
    let mut k: usize = 0;
    while k < v.trips.len()
        invariant
            forall|q: int| 0 <= q < v.trips@.len() ==> (#[trigger] v.trips@[q]).stop_times@.len() > 0,
            k <= v.trips@.len(),
            r@ == variant_demand(*v).take(k as int),
        decreases v.trips@.len() - k,
    {
        let trip = &v.trips[k];
        assert(trip.stop_times@.len() > 0);
        let (t1, t2) = trip.time_range();
        r.push((trip.id, t1, t2));
        k += 1;
        assert(r@ =~= variant_demand(*v).take(k as int));
    }
    assert(variant_demand(*v).take(k as int) =~= variant_demand(*v));
    r
}

impl Model {
    /// All trips of the day, by route short name, in the order of their variants: each with its
    /// first arrival and last departure. Variants whose route has no short name are left out.
    pub fn get_gtfs_trip_demand(&self) -> (r: Vec<RouteDemand>)
        requires
            self.wf(),
        ensures
            strictly_sorted(r@),
            demand_view(r@) == day_demand(*self),
    {
        let filter = VariantFilter {
            date_filter: DateFilter::SingleDay(self.main_date),
            minimum_trips_per_day: 0,
            description_substring: String::new(),
        };
        assert(filter.description_substring@ =~= Seq::<char>::empty());
        let ids = self.gtfs.variants_matching_filter(&filter);
        proof {
            let services = matching_services(self.gtfs.calendar, DateFilter::SingleDay(self.main_date));
            assert forall|v: RouteVariant| #[trigger] passes_filter(self.gtfs, v, filter, services) == services.contains(
                v.service_id.0@,
            ) by {
            }
            assert(increasing_ids(ids@) && forall|id: RouteVariantID|
                ids@.contains(id) <==> exists|i: int, j: int|
                    is_variant_at(self.gtfs.routes@, i, j) && (#[trigger] variant_at(self.gtfs.routes@, i, j)).variant_id == id
                        && services.contains(variant_at(self.gtfs.routes@, i, j).service_id.0@)) by {
                assert forall|id: RouteVariantID|
                    ids@.contains(id) <==> exists|i: int, j: int|
                        is_variant_at(self.gtfs.routes@, i, j) && (#[trigger] variant_at(self.gtfs.routes@, i, j)).variant_id == id
                            && services.contains(variant_at(self.gtfs.routes@, i, j).service_id.0@) by {
                    if ids@.contains(id) {
                        let (i, j) = choose|i: int, j: int|
                            is_variant_at(self.gtfs.routes@, i, j) && (#[trigger] variant_at(self.gtfs.routes@, i, j)).variant_id == id
                                && passes_filter(self.gtfs, variant_at(self.gtfs.routes@, i, j), filter, services);
                        assert(passes_filter(self.gtfs, variant_at(self.gtfs.routes@, i, j), filter, services));
                    }
                    if exists|i: int, j: int|
                        is_variant_at(self.gtfs.routes@, i, j) && (#[trigger] variant_at(self.gtfs.routes@, i, j)).variant_id == id
                            && services.contains(variant_at(self.gtfs.routes@, i, j).service_id.0@) {
                        let (i, j) = choose|i: int, j: int|
                            is_variant_at(self.gtfs.routes@, i, j) && (#[trigger] variant_at(self.gtfs.routes@, i, j)).variant_id == id
                                && services.contains(variant_at(self.gtfs.routes@, i, j).service_id.0@);
                        assert(passes_filter(self.gtfs, variant_at(self.gtfs.routes@, i, j), filter, services));
                    }
                }
            }
            let chosen = variants_of_day(*self);
            increasing_ids_unique(ids@, chosen);
            assert forall|q: int| 0 <= q < ids@.len() implies crate::gtfs::has_variant(self.gtfs.routes@, #[trigger] ids@[q]) by {
                assert(ids@.contains(ids@[q]));
            }
        }
        let mut r: Vec<RouteDemand> = Vec::new();
        let mut k: usize = 0;
        proof {
            assert(demand_view(r@) =~= Map::<Seq<char>, Seq<(TripID, Time, Time)>>::empty());
            assert(ids@.take(0) =~= Seq::<RouteVariantID>::empty());
        }
        while k < ids.len()
            invariant
                self.wf(),
                ids@ == variants_of_day(*self),
                k <= ids@.len(),
                strictly_sorted(r@),
                demand_view(r@) == demand_from(self.gtfs, ids@.take(k as int)),
                forall|q: int| 0 <= q < ids@.len() ==> crate::gtfs::has_variant(self.gtfs.routes@, #[trigger] ids@[q]),
            decreases ids@.len() - k,
        {
            let id = ids[k];
            proof {
                variant_spec_facts(self.gtfs, id);
                assert(ids@.take(k + 1).drop_last() =~= ids@.take(k as int));
                assert(ids@.take(k + 1).last() == id);
            }
            let route = self.gtfs.parent_of_variant(id);
            match &route.short_name {
                Some(name) => {
                    let variant = self.gtfs.variant(id);
                    let trips = variant_trips_demand(variant);
                    match search_sorted(&r, name.as_str()) {
                        Ok(q) => {
                            let ghost before = r@;
                            proof {
                                assert(demand_view(before).dom().contains(name@));
                                assert(demand_view(before)[name@] == before[q as int].1@) by {
                                    let p = choose|p: int| 0 <= p < before.len() && #[trigger] before[p].key_text() == name@;
                                    if p != q {
                                        if p < q {
                                            assert(crate::text::text_lt(before[p].key_text(), before[q as int].key_text()));
                                        } else {
                                            assert(crate::text::text_lt(before[q as int].key_text(), before[p].key_text()));
                                        }
                                        crate::text::text_lt_irreflexive(name@);
                                    }
                                }
                            }
                            let mut entry = r.remove(q);
                            let mut trips = trips;
                            entry.1.append(&mut trips);
                            r.insert(q, entry);
                            proof {
                                assert(r@ =~= before.update(q as int, r@[q as int]));
                                demand_view_update(before, q as int, r@[q as int]);
                            }
                        },
                        Err(q) => {
                            let ghost before = r@;
                            let entry = (name.clone(), trips);
                            proof {
                                assert(entry.0@ == name@);
                            }
                            r.insert(q, entry);
                            proof {
                                demand_view_insert(before, q as int, entry);
                                assert(Seq::<(TripID, Time, Time)>::empty() + variant_demand(self.gtfs.variant_spec(id)) =~= variant_demand(self.gtfs.variant_spec(id)));
                            }
                        },
                    }
                },
                None => {},
            }
            k += 1;
        }
        assert(ids@.take(k as int) =~= ids@);
        r
    }
}

/// The names strictly increase.
pub open spec fn names_increasing<V>(s: Seq<(Seq<char>, V)>) -> bool {
    forall|a: int, b: int| 0 <= a < b < s.len() ==> text_lt((#[trigger] s[a]).0, (#[trigger] s[b]).0)
}

/// `s` lists the entries of `m`, each name once, in increasing order.
pub open spec fn lists_map_in_order<V>(s: Seq<(Seq<char>, V)>, m: Map<Seq<char>, V>) -> bool {
    &&& names_increasing(s)
    &&& forall|name: Seq<char>|
        m.dom().contains(name) <==> exists|k: int| 0 <= k < s.len() && (#[trigger] s[k]).0 == name
    &&& forall|k: int| 0 <= k < s.len() ==> (#[trigger] s[k]).1 == m[s[k].0]
}

/// Only one list gives the entries of a map in increasing order of name.
pub proof fn lists_map_in_order_unique<V>(a: Seq<(Seq<char>, V)>, b: Seq<(Seq<char>, V)>, m: Map<Seq<char>, V>)
    requires
        lists_map_in_order(a, m),
        lists_map_in_order(b, m),
    ensures
        a == b,
    decreases a.len(),
{
    if a.len() == 0 {
        if b.len() > 0 {
            assert(m.dom().contains(b[0].0));
        }
        assert(a =~= b);
    } else {
        assert(m.dom().contains(a[0].0));
        let k = choose|k: int| 0 <= k < b.len() && (#[trigger] b[k]).0 == a[0].0;
        assert(m.dom().contains(b[0].0));
        let q = choose|q: int| 0 <= q < a.len() && (#[trigger] a[q]).0 == b[0].0;
        if k > 0 {
            assert(text_lt(b[0].0, b[k].0));
            if q > 0 {
                assert(text_lt(a[0].0, a[q].0));
                text_lt_transitive(a[0].0, b[0].0, a[0].0);
            }
            text_lt_irreflexive(a[0].0);
        }
        assert(b[0].0 == a[0].0);
        let rest = m.remove(a[0].0);
        let a2 = a.drop_first();
        let b2 = b.drop_first();
        assert(lists_map_in_order(a2, rest)) by {
            assert forall|name: Seq<char>| rest.dom().contains(name) <==> exists|k: int| 0 <= k < a2.len() && (#[trigger] a2[k]).0 == name by {
                if rest.dom().contains(name) {
                    let p = choose|p: int| 0 <= p < a.len() && (#[trigger] a[p]).0 == name;
                    assert(a2[p - 1].0 == name);
                }
                if exists|k: int| 0 <= k < a2.len() && (#[trigger] a2[k]).0 == name {
                    let p = choose|p: int| 0 <= p < a2.len() && (#[trigger] a2[p]).0 == name;
                    assert(a[p + 1].0 == name);
                    assert(text_lt(a[0].0, a[p + 1].0));
                    if name == a[0].0 {
                        text_lt_irreflexive(name);
                    }
                }
            }
            assert forall|k: int| 0 <= k < a2.len() implies (#[trigger] a2[k]).1 == rest[a2[k].0] by {
                assert(a[k + 1] == a2[k]);
                assert(text_lt(a[0].0, a[k + 1].0));
                if a2[k].0 == a[0].0 {
                    text_lt_irreflexive(a[0].0);
                }
            }
        }
        assert(lists_map_in_order(b2, rest)) by {
            assert forall|name: Seq<char>| rest.dom().contains(name) <==> exists|k: int| 0 <= k < b2.len() && (#[trigger] b2[k]).0 == name by {
                if rest.dom().contains(name) {
                    let p = choose|p: int| 0 <= p < b.len() && (#[trigger] b[p]).0 == name;
                    assert(b2[p - 1].0 == name);
                }
                if exists|k: int| 0 <= k < b2.len() && (#[trigger] b2[k]).0 == name {
                    let p = choose|p: int| 0 <= p < b2.len() && (#[trigger] b2[p]).0 == name;
                    assert(b[p + 1].0 == name);
                    assert(text_lt(b[0].0, b[p + 1].0));
                    if name == b[0].0 {
                        text_lt_irreflexive(name);
                    }
                }
            }
            assert forall|k: int| 0 <= k < b2.len() implies (#[trigger] b2[k]).1 == rest[b2[k].0] by {
                assert(b[k + 1] == b2[k]);
                assert(text_lt(b[0].0, b[k + 1].0));
                if b2[k].0 == b[0].0 {
                    text_lt_irreflexive(b[0].0);
                }
            }
        }
        lists_map_in_order_unique(a2, b2, rest);
        assert(a[0] == b[0]);
        assert(a =~= seq![a[0]] + a2);
        assert(b =~= seq![b[0]] + b2);
    }
}

/// The day's demand, route by route in increasing order of short name.
pub open spec fn sorted_demand(m: Model) -> Seq<(Seq<char>, Seq<(TripID, Time, Time)>)> {
    choose|s: Seq<(Seq<char>, Seq<(TripID, Time, Time)>)>| lists_map_in_order(s, day_demand(m))
}

/// A demand list read as pairs of plain values.
pub open spec fn demand_pairs(r: Seq<RouteDemand>) -> Seq<(Seq<char>, Seq<(TripID, Time, Time)>)> {
    r.map_values(|e: RouteDemand| (e.0@, e.1@))
}

/// Does vehicle `v` serve the route named `name` at some point, according to ticketing?
pub open spec fn serves(m: Model, v: nat, name: Seq<char>) -> bool {
    exists|k: int|
        0 <= k < vehicle_segments(m.journeys@, m.vehicle_ids.mapping(), v).len() && (#[trigger] vehicle_segments(
            m.journeys@,
            m.vehicle_ids.mapping(),
            v,
        )[k]).2 == name
}

/// The vehicles below `n` serving the route named `name`, in increasing order.
pub open spec fn vehicles_serving(m: Model, name: Seq<char>, n: nat) -> Seq<VehicleID>
    decreases n,
{
    if n == 0 {
        Seq::empty()
    } else if serves(m, (n - 1) as nat, name) {
        vehicles_serving(m, name, (n - 1) as nat).push(VehicleID((n - 1) as usize))
    } else {
        vehicles_serving(m, name, (n - 1) as nat)
    }
}

/// The supply of a route: every vehicle serving it at least part of the day.
pub open spec fn supply_of(m: Model, name: Seq<char>) -> Seq<VehicleID> {
    vehicles_serving(m, name, m.vehicles@.len())
}

/// Vehicles serving nothing add nothing to any supply.
proof fn vehicles_serving_skip(m: Model, name: Seq<char>, a: nat, b: nat)
    requires
        a <= b,
        forall|w: nat| a <= w < b ==> !#[trigger] has_taps(m.journeys@, m.vehicle_ids.mapping(), w as int),
    ensures
        vehicles_serving(m, name, a) == vehicles_serving(m, name, b),
    decreases b - a,
{
    if a < b {
        vehicles_serving_skip(m, name, a, (b - 1) as nat);
        let w = (b - 1) as nat;
        assert(!has_taps(m.journeys@, m.vehicle_ids.mapping(), w as int));
        let legs = crate::vehicle_to_routes::legs_of_vehicle(
            crate::vehicle_to_routes::all_legs(m.journeys@),
            m.vehicle_ids.mapping(),
            w,
        );
        assert(legs.len() == 0);
        assert(crate::vehicle_to_routes::segments_from(legs) =~= Seq::<SegmentView>::empty());
        assert(vehicle_segments(m.journeys@, m.vehicle_ids.mapping(), w) =~= Seq::<SegmentView>::empty());
        assert(!serves(m, w, name));
    }
}

/// Every vehicle serving a route below `n` is numbered below `n`, and they strictly increase.
proof fn vehicles_serving_below(m: Model, name: Seq<char>, n: nat)
    requires
        n <= usize::MAX,
    ensures
        forall|k: int| 0 <= k < vehicles_serving(m, name, n).len() ==> (#[trigger] vehicles_serving(m, name, n)[k]).0 < n,
        forall|a: int, b: int|
            0 <= a < b < vehicles_serving(m, name, n).len() ==> (#[trigger] vehicles_serving(m, name, n)[a]).0
                < (#[trigger] vehicles_serving(m, name, n)[b]).0,
    decreases n,
{
    if n > 0 {
        vehicles_serving_below(m, name, (n - 1) as nat);
        let prev = vehicles_serving(m, name, (n - 1) as nat);
        if serves(m, (n - 1) as nat, name) {
            let cur = prev.push(VehicleID((n - 1) as usize));
            assert(cur[prev.len() as int].0 == n - 1);
            assert forall|a: int, b: int| 0 <= a < b < cur.len() implies (#[trigger] cur[a]).0 < (#[trigger] cur[b]).0 by {
                assert(cur[a] == prev[a]);
                if b < prev.len() {
                    assert(cur[b] == prev[b]);
                }
            }
        }
    }
}

/// Does one of the first `n` segments serve the route named `name`?
pub open spec fn named_in(segs: Seq<SegmentView>, name: Seq<char>, n: int) -> bool {
    exists|q: int| 0 <= q < n && (#[trigger] segs[q]).2 == name
}

impl Model {
    /// Per route short name, every vehicle that served it at least part of the day according to
    /// ticketing, in increasing order; sorted by name.
    pub fn vehicles_per_route(&self) -> (r: Vec<(String, Vec<VehicleID>)>)
        requires
            self.wf(),
        ensures
            strictly_sorted(r@),
            forall|name: Seq<char>| #[trigger] list_at(r@, name) == supply_of(*self, name),
    {
        let assignments = self.vehicle_to_route_short_name();
        let ghost mapping = self.vehicle_ids.mapping();
        let vehicle_count = self.vehicles.len();
        let ghost n = vehicle_count as nat;
        proof {
            assert forall|q: int| 0 <= q < assignments@.len() implies (#[trigger] assignments@[q]).0.0 < n by {
                let v = assignments@[q].0.0 as nat;
                tapped_vehicle_is_mapped(all_legs(self.journeys@), mapping, v);
                let t = choose|t: Seq<char>| #[trigger] mapping.dom().contains(t) && mapping[t] == v;
            }
        }
        let mut supply: Vec<(String, Vec<VehicleID>)> = Vec::new();
        let mut done: usize = 0;
        let mut k: usize = 0;
        while k < assignments.len()
            invariant
                self.wf(),
                mapping == self.vehicle_ids.mapping(),
                n == self.vehicles@.len(),
                n <= usize::MAX,
                k <= assignments@.len(),
                done <= n,
                k < assignments@.len() ==> done <= assignments@[k as int].0.0,
                forall|a: int, b: int|
                    0 <= a < b < assignments@.len() ==> (#[trigger] assignments@[a]).0.0 < (#[trigger] assignments@[b]).0.0,
                forall|q: int|
                    0 <= q < assignments@.len() ==> {
                        &&& (#[trigger] assignments@[q]).0.0 < n
                        &&& assignments@[q].1.view_segments() == vehicle_segments(
                            self.journeys@,
                            mapping,
                            assignments@[q].0.0 as nat,
                        )
                    },
                forall|w: int|
                    0 <= w < n && #[trigger] has_taps(self.journeys@, mapping, w) ==> exists|q: int|
                        0 <= q < assignments@.len() && (#[trigger] assignments@[q]).0.0 == w,
                forall|q: int| 0 <= q < k ==> (#[trigger] assignments@[q]).0.0 < done,
                strictly_sorted(supply@),
                forall|name: Seq<char>| #[trigger] list_at(supply@, name) == vehicles_serving(*self, name, done as nat),
            decreases assignments@.len() - k,
        {
            let v = assignments[k].0;
            let segs = &assignments[k].1.segments;
            let ghost view = assignments@[k as int].1.view_segments();
            proof {
                assert forall|w: nat| done <= w < v.0 implies !#[trigger] has_taps(self.journeys@, mapping, w as int) by {
                    if has_taps(self.journeys@, mapping, w as int) {
                        let q = choose|q: int| 0 <= q < assignments@.len() && (#[trigger] assignments@[q]).0.0 == w;
                        if q < k {
                            assert(assignments@[q].0.0 < done);
                        } else if q > k {
                            assert(assignments@[k as int].0.0 < assignments@[q].0.0);
                        }
                    }
                }
                assert forall|name: Seq<char>| #[trigger] list_at(supply@, name) == vehicles_serving(*self, name, v.0 as nat) by {
                    vehicles_serving_skip(*self, name, done as nat, v.0 as nat);
                }
            }
            let mut s: usize = 0;
            while s < segs.len()
                invariant
                    segs@.map_values(crate::vehicle_to_routes::seg_view_fn()) == view,
                    s <= segs@.len(),
                    strictly_sorted(supply@),
                    forall|name: Seq<char>|
                        #[trigger] list_at(supply@, name) == vehicles_serving(*self, name, v.0 as nat) + if named_in(
                            view,
                            name,
                            s as int,
                        ) {
                            seq![v]
                        } else {
                            Seq::empty()
                        },
                decreases segs@.len() - s,
            {
                let name = &segs[s].2;
                let ghost nm = name@;
                assert(view[s as int].2 == nm);
                proof {
                    vehicles_serving_below(*self, nm, v.0 as nat);
                }
                let ghost before = supply@;
                match search_sorted(&supply, name.as_str()) {
                    Ok(q) => {
                        proof {
                            list_at_index(before, q as int);
                        }
                        let len = supply[q].1.len();
                        if len == 0 || supply[q].1[len - 1].0 != v.0 {
                            supply[q].1.push(v);
                            proof {
                                if named_in(view, nm, s as int) {
                                    let p = vehicles_serving(*self, nm, v.0 as nat).len();
                                    assert(before[q as int].1@[len - 1] == v);
                                    if p > 0 {
                                        assert(before[q as int].1@[len - 1] == vehicles_serving(*self, nm, v.0 as nat).push(v)[p as int]);
                                    }
                                }
                                assert(supply@ =~= before.update(q as int, supply@[q as int]));
                                list_at_update(before, q as int, supply@[q as int]);
                            }
                        } else {
                            proof {
                                if !named_in(view, nm, s as int) {
                                    let p = vehicles_serving(*self, nm, v.0 as nat).len();
                                    assert(before[q as int].1@ == vehicles_serving(*self, nm, v.0 as nat));
                                    assert(vehicles_serving(*self, nm, v.0 as nat)[len - 1].0 < v.0);
                                }
                            }
                        }
                    },
                    Err(q) => {
                        let entry = (name.clone(), vec![v]);
                        proof {
                            assert(entry.0@ == nm);
                            list_at_insert(before, q as int, entry);
                            assert(list_at(before, nm) == Seq::<VehicleID>::empty());
                            assert(entry.1@ =~= seq![v]);
                        }
                        supply.insert(q, entry);
                    },
                }
                proof {
                    assert forall|name2: Seq<char>|
                        #[trigger] list_at(supply@, name2) == vehicles_serving(*self, name2, v.0 as nat) + if named_in(
                            view,
                            name2,
                            s + 1,
                        ) {
                            seq![v]
                        } else {
                            Seq::empty()
                        } by {
                        if name2 == nm {
                            assert(named_in(view, name2, s + 1));
                        } else {
                            assert(named_in(view, name2, s + 1) == named_in(view, name2, s as int));
                        }
                    }
                }
                s += 1;
            }
            proof {
                assert forall|name: Seq<char>| #[trigger] list_at(supply@, name) == vehicles_serving(*self, name, (v.0 + 1) as nat) by {
                    assert(named_in(view, name, s as int) == serves(*self, v.0 as nat, name));
                }
                assert forall|q: int| 0 <= q < k + 1 implies (#[trigger] assignments@[q]).0.0 < v.0 + 1 by {
                    if q < k {
                        assert(assignments@[q].0.0 < assignments@[k as int].0.0);
                    }
                }
                if k + 1 < assignments@.len() {
                    assert(assignments@[k as int].0.0 < assignments@[k + 1].0.0);
                }
            }
            assert(v.0 < n);
            done = v.0 + 1;
            k += 1;
        }
        proof {
            assert forall|w: nat| done <= w < n implies !#[trigger] has_taps(self.journeys@, mapping, w as int) by {
                if has_taps(self.journeys@, mapping, w as int) {
                    let q = choose|q: int| 0 <= q < assignments@.len() && (#[trigger] assignments@[q]).0.0 == w;
                    assert(assignments@[q].0.0 < done);
                }
            }
            assert forall|name: Seq<char>| #[trigger] list_at(supply@, name) == supply_of(*self, name) by {
                vehicles_serving_skip(*self, name, done as nat, n as nat);
            }
        }
        supply
    }
}

/// What a timetable of trips holds.
pub type TripTimetable = Seq<(Time, Time, TripID)>;

/// The interval of one demanded trip.
pub open spec fn demand_span(d: (TripID, Time, Time)) -> (Time, Time) {
    (d.1, d.2)
}

/// Is `t` within the interval, ends included?
pub open spec fn within(t: Time, span: (Time, Time)) -> bool {
    span.0.ms() <= t.ms() && t.ms() <= span.1.ms()
}

/// Two trips clash when an end of one lies within the other, ends included: a vehicle cannot end
/// one trip and start another at the same moment.
pub open spec fn trips_clash(a: (Time, Time), b: (Time, Time)) -> bool {
    within(a.0, b) || within(a.1, b) || within(b.0, a) || within(b.1, a)
}

/// Two forward trips clash exactly when they share a moment, ends included: neither ends
/// strictly before the other starts. A trip ending when the next starts clashes with it.
pub proof fn clash_when_sharing_a_moment(a: (Time, Time), b: (Time, Time))
    requires
        a.0.ms() <= a.1.ms(),
        b.0.ms() <= b.1.ms(),
    ensures
        trips_clash(a, b) <==> !(a.1.ms() < b.0.ms() || b.1.ms() < a.0.ms()),
{
}

/// True when a trip over `span` clashes with no trip of the timetable.
pub open spec fn trip_free_in(entries: TripTimetable, span: (Time, Time)) -> bool {
    forall|i: int| 0 <= i < entries.len() ==> !trips_clash(span, span_of(#[trigger] entries[i]))
}

/// Where a trip ending at `end` goes: before the first trip that starts after it ends, or at the
/// back when there is none.
pub open spec fn trip_placed_at(entries: TripTimetable, end: Time, idx: int) -> bool {
    &&& 0 <= idx <= entries.len()
    &&& forall|j: int| 0 <= j < idx ==> (#[trigger] entries[j]).0.ms() <= end.ms()
    &&& idx < entries.len() ==> end.ms() < entries[idx].0.ms()
}

/// The timetable with `trip` added over `span`.
pub open spec fn with_trip(entries: TripTimetable, span: (Time, Time), trip: TripID) -> TripTimetable {
    let idx = choose|idx: int| trip_placed_at(entries, span.1, idx);
    entries.insert(idx, (span.0, span.1, trip))
}

/// Every trip runs forwards, trips are sorted by start, and no two clash.
pub open spec fn trips_apart(entries: TripTimetable) -> bool {
    &&& forall|i: int| 0 <= i < entries.len() ==> (#[trigger] entries[i]).0.ms() <= entries[i].1.ms()
    &&& forall|i: int, j: int|
        0 <= i < j < entries.len() ==> (#[trigger] entries[i]).0.ms() <= (#[trigger] entries[j]).0.ms()
    &&& forall|i: int, j: int|
        0 <= i < j < entries.len() ==> !trips_clash(span_of(#[trigger] entries[i]), span_of(#[trigger] entries[j]))
}

proof fn trip_placed_at_unique(entries: TripTimetable, end: Time, a: int, b: int)
    requires
        trip_placed_at(entries, end, a),
        trip_placed_at(entries, end, b),
    ensures
        a == b,
{
    if a < b {
        assert(end.ms() < entries[a].0.ms());
    } else if b < a {
        assert(end.ms() < entries[b].0.ms());
    }
}

proof fn trip_position(entries: TripTimetable, end: Time) -> (p: int)
    ensures
        trip_placed_at(entries, end, p),
    decreases entries.len(),
{
    if entries.len() == 0 {
        0
    } else if end.ms() < entries[0].0.ms() {
        0
    } else {
        let q = trip_position(entries.drop_first(), end);
        assert forall|j: int| 0 <= j < q + 1 implies (#[trigger] entries[j]).0.ms() <= end.ms() by {
            if j > 0 {
                assert(entries[j] == entries.drop_first()[j - 1]);
            }
        }
        q + 1
    }
}

/// Does a trip over `span` clash with no trip of the timetable?
fn trip_fits(tt: &Timetable<TripID>, span: (Time, Time)) -> (r: bool)
    ensures
        r == trip_free_in(tt.entries(), span),
{
    let mut i: usize = 0;
    while i < tt.0.len()
        invariant
            i <= tt.0.len(),
            forall|k: int| 0 <= k < i ==> !trips_clash(span, span_of(#[trigger] tt.entries()[k])),
        decreases tt.0.len() - i,
    {
        let (a, b) = (tt.0[i].0, tt.0[i].1);
        let clash = (span.0.0 >= a.0 && span.0.0 <= b.0) || (span.1.0 >= a.0 && span.1.0 <= b.0) || (a.0
            >= span.0.0 && a.0 <= span.1.0) || (b.0 >= span.0.0 && b.0 <= span.1.0);
        if clash {
            return false;
        }
        i += 1;
    }
    true
}

/// Adds `trip` over `span` before the first trip that starts after it ends.
fn add_trip(tt: &mut Timetable<TripID>, span: (Time, Time), trip: TripID)
    ensures
        final(tt).entries() == with_trip(old(tt).entries(), span, trip),
{
    let mut i: usize = 0;
    while i < tt.0.len()
        invariant
            i <= tt.0.len(),
            tt.entries() == old(tt).entries(),
            forall|j: int| 0 <= j < i ==> (#[trigger] tt.entries()[j]).0.ms() <= span.1.ms(),
        decreases tt.0.len() - i,
    {
        if span.1.0 < tt.0[i].0.0 {
            assert(trip_placed_at(old(tt).entries(), span.1, i as int));
            tt.0.insert(i, (span.0, span.1, trip));
            proof {
                let c = choose|idx: int| trip_placed_at(old(tt).entries(), span.1, idx);
                trip_placed_at_unique(old(tt).entries(), span.1, c, i as int);
            }
            return;
        }
        i += 1;
    }
    assert(trip_placed_at(old(tt).entries(), span.1, i as int));
    tt.0.push((span.0, span.1, trip));
    assert(tt.entries() == old(tt).entries().insert(i as int, (span.0, span.1, trip)));
    proof {
        let c = choose|idx: int| trip_placed_at(old(tt).entries(), span.1, idx);
        trip_placed_at_unique(old(tt).entries(), span.1, c, i as int);
    }
}

/// Adding a forward trip that clashes with none keeps a timetable whose trips are apart so.
pub proof fn with_trip_keeps_apart(entries: TripTimetable, span: (Time, Time), trip: TripID)
    requires
        trips_apart(entries),
        trip_free_in(entries, span),
        span.0.ms() <= span.1.ms(),
    ensures
        trips_apart(with_trip(entries, span, trip)),
        with_trip(entries, span, trip).len() == entries.len() + 1,
{
    let idx = trip_position(entries, span.1);
    let c = choose|i: int| trip_placed_at(entries, span.1, i);
    trip_placed_at_unique(entries, span.1, c, idx);
    let after = entries.insert(idx, (span.0, span.1, trip));
    assert(with_trip(entries, span, trip) == after);
    assert forall|j: int| 0 <= j < idx implies (#[trigger] entries[j]).1.ms() < span.0.ms() by {
        assert(!trips_clash(span, span_of(entries[j])));
    }
    assert forall|i: int| 0 <= i < after.len() implies (#[trigger] after[i]).0.ms() <= after[i].1.ms() by {
        if i < idx {
            assert(after[i] == entries[i]);
        } else if i > idx {
            assert(after[i] == entries[i - 1]);
        }
    }
    assert forall|i: int, j: int| 0 <= i < j < after.len() implies (#[trigger] after[i]).0.ms()
        <= (#[trigger] after[j]).0.ms() by {
        if j < idx {
            assert(after[i] == entries[i] && after[j] == entries[j]);
        } else if j == idx {
            assert(after[i] == entries[i]);
        } else if i == idx {
            assert(after[j] == entries[j - 1]);
            if j - 1 > idx {
                assert(entries[idx].0.ms() <= entries[j - 1].0.ms());
            }
        } else if i < idx {
            assert(after[i] == entries[i] && after[j] == entries[j - 1]);
        } else {
            assert(after[i] == entries[i - 1] && after[j] == entries[j - 1]);
        }
    }
    assert forall|i: int, j: int| 0 <= i < j < after.len() implies !trips_clash(
        span_of(#[trigger] after[i]),
        span_of(#[trigger] after[j]),
    ) by {
        if j < idx {
            assert(after[i] == entries[i] && after[j] == entries[j]);
        } else if j == idx {
            assert(after[i] == entries[i]);
            assert(!trips_clash(span, span_of(entries[i])));
        } else if i == idx {
            assert(after[j] == entries[j - 1]);
            assert(!trips_clash(span, span_of(entries[j - 1])));
        } else if i < idx {
            assert(after[i] == entries[i] && after[j] == entries[j - 1]);
        } else {
            assert(after[i] == entries[i - 1] && after[j] == entries[j - 1]);
        }
    }
}

/// Trips kept apart, ends included, also do not overlap as open intervals.
pub proof fn trips_apart_are_disjoint(entries: TripTimetable)
    requires
        trips_apart(entries),
    ensures
        sorted_disjoint(entries),
{
    assert forall|i: int, j: int| 0 <= i < j < entries.len() implies !intervals_overlap(
        span_of(#[trigger] entries[i]),
        span_of(#[trigger] entries[j]),
    ) by {
        assert(!trips_clash(span_of(entries[i]), span_of(entries[j])));
    }
}

/// `k` is the first vehicle of `supply` whose timetable has no trip clashing with `span`.
pub open spec fn first_free_vehicle(tts: Seq<TripTimetable>, supply: Seq<VehicleID>, span: (Time, Time), k: int) -> bool {
    &&& 0 <= k < supply.len()
    &&& trip_free_in(tts[supply[k].0 as int], span)
    &&& forall|q: int| 0 <= q < k ==> !trip_free_in(tts[(#[trigger] supply[q]).0 as int], span)
}

/// The timetable of each vehicle, and the trips no vehicle could take.
pub ghost struct Matching {
    pub timetables: Seq<TripTimetable>,
    pub unassigned: Seq<TripID>,
}

/// Gives a trip to the first vehicle of the supply with no trip clashing with it, if any.
pub open spec fn assign_trip(st: Matching, supply: Seq<VehicleID>, d: (TripID, Time, Time)) -> Matching {
    if exists|k: int| first_free_vehicle(st.timetables, supply, demand_span(d), k) {
        let k = choose|k: int| first_free_vehicle(st.timetables, supply, demand_span(d), k);
        let v = supply[k].0 as int;
        Matching {
            timetables: st.timetables.update(v, with_trip(st.timetables[v], demand_span(d), d.0)),
            unassigned: st.unassigned,
        }
    } else {
        Matching { timetables: st.timetables, unassigned: st.unassigned.push(d.0) }
    }
}

/// Gives each trip of the demand, in order, to the first vehicle with no trip clashing with it.
pub open spec fn assign_trips(st: Matching, supply: Seq<VehicleID>, demand: Seq<(TripID, Time, Time)>) -> Matching
    decreases demand.len(),
{
    if demand.len() == 0 {
        st
    } else {
        assign_trip(assign_trips(st, supply, demand.drop_last()), supply, demand.last())
    }
}

/// The timetables of a list of timetables.
pub open spec fn timetables_view(tts: Seq<Timetable<TripID>>) -> Seq<TripTimetable> {
    tts.map_values(|t: Timetable<TripID>| t.entries())
}

/// Gives each trip of `demand`, in order, to the first vehicle of `supply` none of whose trips
/// clashes with it (ends included); the trips no vehicle can take are added to `unassigned`.
pub fn assign(
    demand: &Vec<(TripID, Time, Time)>,
    supply: &Vec<VehicleID>,
    timetables: &mut Vec<Timetable<TripID>>,
    unassigned: &mut Vec<TripID>,
)
    requires
        forall|k: int| 0 <= k < supply@.len() ==> (#[trigger] supply@[k]).0 < old(timetables)@.len(),
    ensures
        final(timetables)@.len() == old(timetables)@.len(),
        (Matching { timetables: timetables_view(final(timetables)@), unassigned: final(unassigned)@ }) == assign_trips(
            Matching { timetables: timetables_view(old(timetables)@), unassigned: old(unassigned)@ },
            supply@,
            demand@,
        ),
{
    let ghost st0 = Matching { timetables: timetables_view(timetables@), unassigned: unassigned@ };
    let mut i: usize = 0;
    proof {
        assert(demand@.take(0) =~= Seq::<(TripID, Time, Time)>::empty());
    }
    while i < demand.len()
        invariant
            forall|k: int| 0 <= k < supply@.len() ==> (#[trigger] supply@[k]).0 < timetables@.len(),
            timetables@.len() == old(timetables)@.len(),
            st0 == (Matching { timetables: timetables_view(old(timetables)@), unassigned: old(unassigned)@ }),
            i <= demand@.len(),
            (Matching { timetables: timetables_view(timetables@), unassigned: unassigned@ }) == assign_trips(
                st0,
                supply@,
                demand@.take(i as int),
            ),
        decreases demand@.len() - i,
    {
        let d = demand[i];
        let span = (d.1, d.2);
        let ghost st = Matching { timetables: timetables_view(timetables@), unassigned: unassigned@ };
        proof {
            assert(demand@.take(i + 1).drop_last() =~= demand@.take(i as int));
            assert(demand@.take(i + 1).last() == d);
        }
        let mut k: usize = 0;
        let mut placed = false;
        while k < supply.len() && !placed
            invariant
                forall|q: int| 0 <= q < supply@.len() ==> (#[trigger] supply@[q]).0 < timetables@.len(),
                timetables@.len() == old(timetables)@.len(),
                k <= supply@.len(),
                span == demand_span(d),
                !placed ==> timetables_view(timetables@) == st.timetables,
                !placed ==> forall|q: int| 0 <= q < k ==> !trip_free_in(st.timetables[(#[trigger] supply@[q]).0 as int], span),
                placed ==> exists|c: int|
                    first_free_vehicle(st.timetables, supply@, span, c) && timetables_view(timetables@)
                        == st.timetables.update(
                        supply@[c].0 as int,
                        with_trip(st.timetables[supply@[c].0 as int], span, d.0),
                    ),
                unassigned@ == st.unassigned,
            decreases supply@.len() - k, (if placed { 0int } else { 1int }),
        {
            let v = supply[k].0;
            if trip_fits(&timetables[v], span) {
                let ghost before = timetables@;
                proof {
                    assert(timetables_view(before)[v as int] == before[v as int].entries());
                    assert(first_free_vehicle(st.timetables, supply@, span, k as int));
                }
                add_trip(&mut timetables[v], span, d.0);
                proof {
                    assert(timetables_view(timetables@) =~= st.timetables.update(
                        v as int,
                        with_trip(st.timetables[v as int], span, d.0),
                    )) by {
                        assert forall|w: int| 0 <= w < timetables@.len() && w != v implies #[trigger] timetables@[w] == before[w] by {
                        }
                    }
                }
                placed = true;
            } else {
                k += 1;
            }
        }
        if !placed {
            unassigned.push(d.0);
            proof {
                if exists|c: int| first_free_vehicle(st.timetables, supply@, span, c) {
                    let c = choose|c: int| first_free_vehicle(st.timetables, supply@, span, c);
                    assert(!trip_free_in(st.timetables[supply@[c].0 as int], span));
                }
            }
        } else {
            proof {
                let c = choose|c: int|
                    first_free_vehicle(st.timetables, supply@, span, c) && timetables_view(timetables@)
                        == st.timetables.update(
                        supply@[c].0 as int,
                        with_trip(st.timetables[supply@[c].0 as int], span, d.0),
                    );
                let c2 = choose|c: int| first_free_vehicle(st.timetables, supply@, span, c);
                if c2 < c {
                    assert(!trip_free_in(st.timetables[supply@[c2].0 as int], span));
                } else if c < c2 {
                    assert(!trip_free_in(st.timetables[supply@[c].0 as int], span));
                }
            }
        }
        i += 1;
    }
    assert(demand@.take(i as int) =~= demand@);
}

/// `i` is the first timetable with no trip clashing with `span`.
pub open spec fn first_free_timetable(tts: Seq<TripTimetable>, span: (Time, Time), i: int) -> bool {
    &&& 0 <= i < tts.len()
    &&& trip_free_in(tts[i], span)
    &&& forall|q: int| 0 <= q < i ==> !trip_free_in(#[trigger] tts[q], span)
}

/// Places a trip in the first timetable with no trip clashing with it, or in a new one.
pub open spec fn greedy_place(tts: Seq<TripTimetable>, d: (TripID, Time, Time)) -> Seq<TripTimetable> {
    if exists|i: int| first_free_timetable(tts, demand_span(d), i) {
        let i = choose|i: int| first_free_timetable(tts, demand_span(d), i);
        tts.update(i, with_trip(tts[i], demand_span(d), d.0))
    } else {
        tts.push(with_trip(Seq::empty(), demand_span(d), d.0))
    }
}

/// The timetables of the greedy placement of every trip, in order.
pub open spec fn greedy_timetables(demand: Seq<(TripID, Time, Time)>) -> Seq<TripTimetable>
    decreases demand.len(),
{
    if demand.len() == 0 {
        Seq::empty()
    } else {
        greedy_place(greedy_timetables(demand.drop_last()), demand.last())
    }
}

/// How many vehicles a greedy assignment needs to serve every trip: each trip goes to the first
/// vehicle with no trip clashing with it (ends included), and a new vehicle is added when none
/// is.
pub fn minimum_vehicles_needed(demand: Vec<(TripID, Time, Time)>) -> (r: usize)
    ensures
        r == greedy_timetables(demand@).len(),
{
    let mut timetables: Vec<Timetable<TripID>> = Vec::new();
    let mut i: usize = 0;
    proof {
        assert(demand@.take(0) =~= Seq::<(TripID, Time, Time)>::empty());
        assert(timetables_view(timetables@) =~= Seq::<TripTimetable>::empty());
    }
    while i < demand.len()
        invariant
            i <= demand@.len(),
            timetables@.len() <= i,
            timetables_view(timetables@) == greedy_timetables(demand@.take(i as int)),
        decreases demand@.len() - i,
    {
        let d = demand[i];
        let span = (d.1, d.2);
        let ghost tts = timetables_view(timetables@);
        proof {
            assert(demand@.take(i + 1).drop_last() =~= demand@.take(i as int));
            assert(demand@.take(i + 1).last() == d);
        }
        let mut k: usize = 0;
        while k < timetables.len() && !trip_fits(&timetables[k], span)
            invariant
                k <= timetables@.len(),
                tts == timetables_view(timetables@),
                forall|q: int| 0 <= q < k ==> !trip_free_in(#[trigger] tts[q], span),
            decreases timetables@.len() - k,
        {
            k += 1;
        }
        if k < timetables.len() {
            let ghost before = timetables@;
            proof {
                assert(first_free_timetable(tts, span, k as int));
                let c = choose|c: int| first_free_timetable(tts, demand_span(d), c);
                if c < k {
                    assert(!trip_free_in(tts[c], span));
                } else if k < c {
                    assert(!trip_free_in(tts[k as int], span));
                }
            }
            add_trip(&mut timetables[k], span, d.0);
            proof {
                assert forall|w: int| 0 <= w < timetables@.len() && w != k implies #[trigger] timetables@[w] == before[w] by {
                }
                assert(timetables_view(timetables@) =~= tts.update(k as int, with_trip(tts[k as int], span, d.0)));
            }
        } else {
            proof {
                if exists|c: int| first_free_timetable(tts, demand_span(d), c) {
                    let c = choose|c: int| first_free_timetable(tts, demand_span(d), c);
                    assert(!trip_free_in(tts[c], span));
                }
            }
            let mut tt: Timetable<TripID> = Timetable::new();
            add_trip(&mut tt, span, d.0);
            timetables.push(tt);
            assert(timetables_view(timetables@) =~= tts.push(with_trip(Seq::empty(), span, d.0)));
        }
        i += 1;
    }
    assert(demand@.take(i as int) =~= demand@);
    timetables.len()
}

/// A sorted demand list lists its own view in order.
proof fn demand_pairs_in_order(r: Seq<RouteDemand>)
    requires
        strictly_sorted(r),
    ensures
        lists_map_in_order(demand_pairs(r), demand_view(r)),
{
    let p = demand_pairs(r);
    assert forall|a: int, b: int| 0 <= a < b < p.len() implies text_lt((#[trigger] p[a]).0, (#[trigger] p[b]).0) by {
        assert(r[a].key_text() == p[a].0 && r[b].key_text() == p[b].0);
    }
    assert forall|name: Seq<char>|
        demand_view(r).dom().contains(name) <==> exists|k: int| 0 <= k < p.len() && (#[trigger] p[k]).0 == name by {
        if demand_view(r).dom().contains(name) {
            let k = choose|k: int| 0 <= k < r.len() && #[trigger] r[k].key_text() == name;
            assert(p[k].0 == name);
        }
        if exists|k: int| 0 <= k < p.len() && (#[trigger] p[k]).0 == name {
            let k = choose|k: int| 0 <= k < p.len() && (#[trigger] p[k]).0 == name;
            assert(r[k].key_text() == name);
        }
    }
    assert forall|k: int| 0 <= k < p.len() implies (#[trigger] p[k]).1 == demand_view(r)[p[k].0] by {
        let name = p[k].0;
        assert(r[k].key_text() == name);
        let q = choose|q: int| 0 <= q < r.len() && #[trigger] r[q].key_text() == name;
        if q != k {
            if q < k {
                assert(text_lt(r[q].key_text(), r[k].key_text()));
            } else {
                assert(text_lt(r[k].key_text(), r[q].key_text()));
            }
            text_lt_irreflexive(name);
        }
    }
}

/// Matches, route by route, the demand of each route to its supply.
pub open spec fn match_routes(st: Matching, m: Model, demand: Seq<(Seq<char>, Seq<(TripID, Time, Time)>)>) -> Matching
    decreases demand.len(),
{
    if demand.len() == 0 {
        st
    } else {
        assign_trips(match_routes(st, m, demand.drop_last()), supply_of(m, demand.last().0), demand.last().1)
    }
}

/// The matching of the whole day: vehicles start with empty timetables, and routes are taken in
/// increasing order of short name.
pub open spec fn supply_demand(m: Model) -> Matching {
    match_routes(
        Matching { timetables: Seq::new(m.vehicles@.len(), |i: int| Seq::empty()), unassigned: Seq::empty() },
        m,
        sorted_demand(m),
    )
}

/// The outcome of matching supply to demand.
pub struct SupplyDemandMatching {
    /// The trips given to each vehicle, by vehicle identifier.
    pub timetables: Vec<Timetable<TripID>>,
    /// The trips no vehicle could take, in the order they were considered.
    pub unassigned_trips: Vec<TripID>,
}

impl Model {
    /// Per route short name, the vehicles serving it at least part of the day (supply) and all
    /// of the day's trips (demand), matched up assuming a vehicle serves one trip at a time: each
    /// trip goes to the first vehicle of its route with no trip clashing with it, ends included.
    pub fn supply_demand_matching(&self) -> (r: SupplyDemandMatching)
        requires
            self.wf(),
        ensures
            r.timetables@.len() == self.vehicles@.len(),
            (Matching { timetables: timetables_view(r.timetables@), unassigned: r.unassigned_trips@ }) == supply_demand(*self),
    {
        let supply = self.vehicles_per_route();
        let n = self.vehicles.len();
        let mut timetables: Vec<Timetable<TripID>> = Vec::new();
        while timetables.len() < n
            invariant
                timetables@.len() <= n,
                forall|i: int| 0 <= i < timetables@.len() ==> (#[trigger] timetables@[i]).entries() == Seq::<(Time, Time, TripID)>::empty(),
            decreases n - timetables@.len(),
        {
            timetables.push(Timetable::new());
        }
        let demand = self.get_gtfs_trip_demand();
        let ghost order = demand_pairs(demand@);
        proof {
            demand_pairs_in_order(demand@);
            let chosen = sorted_demand(*self);
            lists_map_in_order_unique(order, chosen, day_demand(*self));
        }
        let mut unassigned: Vec<TripID> = Vec::new();
        let ghost st0 = Matching { timetables: timetables_view(timetables@), unassigned: unassigned@ };
        proof {
            assert(st0.timetables =~= Seq::new(self.vehicles@.len(), |i: int| Seq::<(Time, Time, TripID)>::empty()));
            assert(order.take(0) =~= Seq::<(Seq<char>, Seq<(TripID, Time, Time)>)>::empty());
        }
        let mut k: usize = 0;
        while k < demand.len()
            invariant
                self.wf(),
                strictly_sorted(supply@),
                forall|name: Seq<char>| #[trigger] list_at(supply@, name) == supply_of(*self, name),
                order == demand_pairs(demand@),
                order == sorted_demand(*self),
                timetables@.len() == n,
                n == self.vehicles@.len(),
                k <= demand@.len(),
                st0 == (Matching { timetables: Seq::new(self.vehicles@.len(), |i: int| Seq::empty()), unassigned: Seq::empty() }),
                (Matching { timetables: timetables_view(timetables@), unassigned: unassigned@ }) == match_routes(
                    st0,
                    *self,
                    order.take(k as int),
                ),
            decreases demand@.len() - k,
        {
            let entry = &demand[k];
            let ghost name = entry.0@;
            proof {
                assert(order.take(k + 1).drop_last() =~= order.take(k as int));
                assert(order.take(k + 1).last() == (name, entry.1@));
                vehicles_serving_below(*self, name, self.vehicles@.len());
            }
            let empty: Vec<VehicleID> = Vec::new();
            let found = search_sorted(&supply, entry.0.as_str());
            let vehicles: &Vec<VehicleID> = match found {
                Ok(q) => {
                    proof {
                        list_at_index(supply@, q as int);
                        assert(supply@[q as int].key_text() == name);
                        assert(list_at(supply@, name) == supply@[q as int].1@);
                    }
                    &supply[q].1
                },
                Err(_) => {
                    proof {
                        assert(!has_key(supply@, name));
                        assert(list_at(supply@, name) == Seq::<VehicleID>::empty());
                        assert(empty@ =~= Seq::<VehicleID>::empty());
                    }
                    &empty
                },
            };
            assert(vehicles@ == supply_of(*self, name));
            assign(&entry.1, vehicles, &mut timetables, &mut unassigned);
            k += 1;
        }
        assert(order.take(k as int) =~= order);
        SupplyDemandMatching { timetables, unassigned_trips: unassigned }
    }
}

/// Every trip of the demand runs forwards.
pub open spec fn forward_demand(demand: Seq<(TripID, Time, Time)>) -> bool {
    forall|k: int| 0 <= k < demand.len() ==> (#[trigger] demand[k]).1.ms() <= demand[k].2.ms()
}

/// A vehicle serves one trip at a time: giving out forward trips keeps every vehicle's
/// timetable sorted with no two trips clashing, ends included, and the vehicles stay the same.
pub proof fn assigned_trips_one_at_a_time(st: Matching, supply: Seq<VehicleID>, demand: Seq<(TripID, Time, Time)>)
    requires
        forall|v: int| 0 <= v < st.timetables.len() ==> trips_apart(#[trigger] st.timetables[v]),
        forall|k: int| 0 <= k < supply.len() ==> (#[trigger] supply[k]).0 < st.timetables.len(),
        forward_demand(demand),
    ensures
        assign_trips(st, supply, demand).timetables.len() == st.timetables.len(),
        forall|v: int|
            0 <= v < st.timetables.len() ==> trips_apart(#[trigger] assign_trips(st, supply, demand).timetables[v]),
    decreases demand.len(),
{
    if demand.len() > 0 {
        let rest = demand.drop_last();
        assert(forward_demand(rest)) by {
            assert forall|k: int| 0 <= k < rest.len() implies (#[trigger] rest[k]).1.ms() <= rest[k].2.ms() by {
                assert(rest[k] == demand[k]);
            }
        }
        assigned_trips_one_at_a_time(st, supply, rest);
        let mid = assign_trips(st, supply, rest);
        let d = demand.last();
        assert(d == demand[demand.len() - 1]);
        if exists|k: int| first_free_vehicle(mid.timetables, supply, demand_span(d), k) {
            let k = choose|k: int| first_free_vehicle(mid.timetables, supply, demand_span(d), k);
            let v = supply[k].0 as int;
            with_trip_keeps_apart(mid.timetables[v], demand_span(d), d.0);
        }
    }
}

/// The greedy placement uses vehicles that each serve one trip at a time, when the trips run
/// forwards.
pub proof fn greedy_vehicles_one_trip_at_a_time(demand: Seq<(TripID, Time, Time)>)
    requires
        forward_demand(demand),
    ensures
        forall|i: int| 0 <= i < greedy_timetables(demand).len() ==> trips_apart(#[trigger] greedy_timetables(demand)[i]),
    decreases demand.len(),
{
    if demand.len() > 0 {
        let rest = demand.drop_last();
        assert(forward_demand(rest)) by {
            assert forall|k: int| 0 <= k < rest.len() implies (#[trigger] rest[k]).1.ms() <= rest[k].2.ms() by {
                assert(rest[k] == demand[k]);
            }
        }
        greedy_vehicles_one_trip_at_a_time(rest);
        let tts = greedy_timetables(rest);
        let d = demand.last();
        assert(d == demand[demand.len() - 1]);
        if exists|i: int| first_free_timetable(tts, demand_span(d), i) {
            let i = choose|i: int| first_free_timetable(tts, demand_span(d), i);
            with_trip_keeps_apart(tts[i], demand_span(d), d.0);
        } else {
            let empty = Seq::<(Time, Time, TripID)>::empty();
            with_trip_keeps_apart(empty, demand_span(d), d.0);
            let next = tts.push(with_trip(empty, demand_span(d), d.0));
            assert forall|i: int| 0 <= i < next.len() implies trips_apart(#[trigger] next[i]) by {
                if i < tts.len() {
                    assert(next[i] == tts[i]);
                }
            }
        }
    }
}

/// The timetable with a trip added holds that trip.
proof fn with_trip_holds_it(entries: TripTimetable, span: (Time, Time), trip: TripID)
    ensures
        with_trip(entries, span, trip).contains((span.0, span.1, trip)),
        with_trip(entries, span, trip).len() == entries.len() + 1,
{
    let p = trip_position(entries, span.1);
    let c = choose|idx: int| trip_placed_at(entries, span.1, idx);
    trip_placed_at_unique(entries, span.1, c, p);
    assert(entries.insert(p, (span.0, span.1, trip))[p] == (span.0, span.1, trip));
}

/// The greedy count adds a vehicle for a trip only when needed: the trip gets a new vehicle
/// exactly when it clashes with some trip of every vehicle so far; otherwise it goes to the
/// first vehicle it clashes with nothing of, and no other vehicle changes.
pub proof fn greedy_adds_vehicle_only_when_needed(demand: Seq<(TripID, Time, Time)>, d: (TripID, Time, Time))
    ensures
        ({
            let before = greedy_timetables(demand);
            let after = greedy_timetables(demand.push(d));
            let span = demand_span(d);
            &&& after.len() == before.len() || after.len() == before.len() + 1
            &&& (after.len() == before.len() + 1) == (forall|i: int|
                0 <= i < before.len() ==> !trip_free_in(#[trigger] before[i], span))
            &&& after.len() == before.len() + 1 ==> after.last().contains((d.1, d.2, d.0)) && forall|j: int|
                0 <= j < before.len() ==> #[trigger] after[j] == before[j]
            &&& after.len() == before.len() ==> exists|i: int|
                0 <= i < before.len() && trip_free_in(before[i], span) && (forall|j: int|
                    0 <= j < i ==> !trip_free_in(#[trigger] before[j], span)) && after[i].contains((d.1, d.2, d.0))
                    && (forall|j: int| 0 <= j < before.len() && j != i ==> #[trigger] after[j] == before[j])
        }),
{
    let before = greedy_timetables(demand);
    let span = demand_span(d);
    assert(demand.push(d).drop_last() =~= demand);
    assert(demand.push(d).last() == d);
    let after = greedy_timetables(demand.push(d));
    assert(after == greedy_place(before, d));
    if exists|i: int| first_free_timetable(before, span, i) {
        let i = choose|i: int| first_free_timetable(before, span, i);
        with_trip_holds_it(before[i], span, d.0);
        assert(after == before.update(i, with_trip(before[i], span, d.0)));
        assert(trip_free_in(before[i], span));
    } else {
        with_trip_holds_it(Seq::empty(), span, d.0);
        assert forall|i: int| 0 <= i < before.len() implies !trip_free_in(#[trigger] before[i], span) by {
            if trip_free_in(before[i], span) {
                let f = first_free_of(before, span, i);
            }
        }
    }
}

/// When some timetable is free over `span`, one is the first.
proof fn first_free_of(tts: Seq<TripTimetable>, span: (Time, Time), i: int) -> (f: int)
    requires
        0 <= i < tts.len(),
        trip_free_in(tts[i], span),
    ensures
        first_free_timetable(tts, span, f),
    decreases i,
{
    if exists|j: int| 0 <= j < i && trip_free_in(tts[j], span) {
        let j = choose|j: int| 0 <= j < i && trip_free_in(tts[j], span);
        first_free_of(tts, span, j)
    } else {
        i
    }
}

/// Supply matching leaves a trip unassigned exactly when it clashes with some trip of every
/// vehicle supplying its route; otherwise the trip goes into the timetable of the first such
/// vehicle it clashes with nothing of, and no other timetable changes.
pub proof fn trip_unassigned_only_when_every_vehicle_clashes(st: Matching, supply: Seq<VehicleID>, d: (TripID, Time, Time))
    requires
        forall|k: int| 0 <= k < supply.len() ==> (#[trigger] supply[k]).0 < st.timetables.len(),
    ensures
        ({
            let next = assign_trip(st, supply, d);
            let span = demand_span(d);
            &&& next.unassigned == st.unassigned.push(d.0) || next.unassigned == st.unassigned
            &&& (next.unassigned == st.unassigned.push(d.0)) == (forall|k: int|
                0 <= k < supply.len() ==> !trip_free_in(st.timetables[(#[trigger] supply[k]).0 as int], span))
            &&& next.unassigned == st.unassigned ==> exists|k: int|
                0 <= k < supply.len() && trip_free_in(st.timetables[supply[k].0 as int], span) && next.timetables[supply[k].0 as int].contains((d.1, d.2, d.0))
                    && (forall|v: int| 0 <= v < st.timetables.len() && v != supply[k].0 ==> #[trigger] next.timetables[v] == st.timetables[v])
        }),
{
    let span = demand_span(d);
    let next = assign_trip(st, supply, d);
    assert(st.unassigned.push(d.0).len() == st.unassigned.len() + 1);
    if exists|k: int| first_free_vehicle(st.timetables, supply, span, k) {
        let k = choose|k: int| first_free_vehicle(st.timetables, supply, span, k);
        let v = supply[k].0 as int;
        with_trip_holds_it(st.timetables[v], span, d.0);
        assert(next.timetables == st.timetables.update(v, with_trip(st.timetables[v], span, d.0)));
        assert(next.unassigned != st.unassigned.push(d.0));
    } else {
        assert forall|k: int| 0 <= k < supply.len() implies !trip_free_in(st.timetables[(#[trigger] supply[k]).0 as int], span) by {
            if trip_free_in(st.timetables[supply[k].0 as int], span) {
                let f = first_free_supplier(st.timetables, supply, span, k);
            }
        }
    }
}

/// When some vehicle of the supply is free over `span`, one is the first.
proof fn first_free_supplier(tts: Seq<TripTimetable>, supply: Seq<VehicleID>, span: (Time, Time), k: int) -> (f: int)
    requires
        0 <= k < supply.len(),
        trip_free_in(tts[supply[k].0 as int], span),
    ensures
        first_free_vehicle(tts, supply, span, f),
    decreases k,
{
    if exists|j: int| 0 <= j < k && trip_free_in(tts[supply[j].0 as int], span) {
        let j = choose|j: int| 0 <= j < k && trip_free_in(tts[supply[j].0 as int], span);
        first_free_supplier(tts, supply, span, j)
    } else {
        k
    }
}

} // verus!
