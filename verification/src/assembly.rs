//! Building the schedule from the tables of a GTFS feed.

use vstd::prelude::*;

use crate::calendar::Calendar;
use crate::gtfs::{increasing_ids, insert_id, is_variant_at, variant_at, GTFS};
use crate::routes::{variant_stops, Route, RouteVariant, RouteVariantID};
use crate::sort::{key_fn, stable_sorted_by, stable_sorted_contains, stable_sorted_is_sorted_permutation};
use crate::stops::Stop;
use crate::text::{
    gap_for, has_key, list_at, list_at_index, list_at_insert, list_at_update, search_sorted, strictly_sorted,
    text_lt, total_listed, total_listed_insert, total_listed_update, TextKeyed,
};
use crate::trips::Trip;
use crate::variants::{group_variants, lists_keys_of, trips_with_key, variant_from_group, variant_keys, trip_key};

verus! {

/// The trips of the route identified by `id`, in order.
pub open spec fn trips_of_route(trips: Seq<Trip>, id: Seq<char>) -> Seq<Trip>
    decreases trips.len(),
{
    if trips.len() == 0 {
        Seq::empty()
    } else if trips.last().route_id.0@ == id {
        trips_of_route(trips.drop_last(), id).push(trips.last())
    } else {
        trips_of_route(trips.drop_last(), id)
    }
}

/// The positions of the routes that have trips, in order.
pub open spec fn routes_with_trips(routes: Seq<Route>, trips: Seq<Trip>) -> Seq<int>
    decreases routes.len(),
{
    if routes.len() == 0 {
        Seq::empty()
    } else if trips_of_route(trips, routes.last().route_id.0@).len() > 0 {
        routes_with_trips(routes.drop_last(), trips).push(routes.len() - 1)
    } else {
        routes_with_trips(routes.drop_last(), trips)
    }
}

/// How many variants the first `k` routes have.
pub open spec fn variants_before(routes: Seq<Route>, k: int) -> nat
    decreases k,
{
    if k <= 0 {
        0
    } else {
        variants_before(routes, k - 1) + routes[k - 1].variants@.len()
    }
}

/// `r` is the route `from` with its trips grouped into variants numbered from `first`.
pub open spec fn route_with_variants(r: Route, from: Route, trips: Seq<Trip>, first: nat) -> bool {
    let own = trips_of_route(trips, from.route_id.0@);
    &&& r.route_id == from.route_id
    &&& r.route_type == from.route_type
    &&& r.short_name == from.short_name
    &&& r.long_name == from.long_name
    &&& r.description == from.description
    &&& r.variants@.len() == variant_keys(own).len()
    &&& lists_keys_of(variant_keys(own), own)
    &&& forall|j: int|
        0 <= j < r.variants@.len() ==> variant_from_group(
            #[trigger] r.variants@[j],
            from.route_id,
            (first + j) as nat,
            variant_keys(own)[j],
            own,
        )
}

/// Does a variant of the routes visit stop `s` with identifier `id`?
pub open spec fn visits_stop(routes: Seq<Route>, id: RouteVariantID, s: int) -> bool {
    exists|i: int, j: int|
        is_variant_at(routes, i, j) && (#[trigger] variant_at(routes, i, j)).variant_id == id && variant_stops(
            variant_at(routes, i, j),
        ).contains(crate::ids::StopID(s as usize))
}

/// The trips of a route are trips of the whole list.
proof fn trips_of_route_from(trips: Seq<Trip>, id: Seq<char>, x: Trip)
    requires
        trips_of_route(trips, id).contains(x),
    ensures
        trips.contains(x),
    decreases trips.len(),
{
    let rest = trips_of_route(trips.drop_last(), id);
    if rest.contains(x) {
        trips_of_route_from(trips.drop_last(), id, x);
        let i = choose|i: int| 0 <= i < trips.drop_last().len() && trips.drop_last()[i] == x;
        assert(trips[i] == x);
    } else {
        assert(trips[trips.len() - 1] == x);
    }
}

/// The trips with a key are trips of the list.
proof fn trips_with_key_from(trips: Seq<Trip>, k: crate::variants::VariantKey, x: Trip)
    requires
        trips_with_key(trips, k).contains(x),
    ensures
        trips.contains(x),
    decreases trips.len(),
{
    let rest = trips_with_key(trips.drop_last(), k);
    if rest.contains(x) {
        trips_with_key_from(trips.drop_last(), k, x);
        let i = choose|i: int| 0 <= i < trips.drop_last().len() && trips.drop_last()[i] == x;
        assert(trips[i] == x);
    } else {
        assert(trips[trips.len() - 1] == x);
    }
}

/// A key of some trip has trips.
proof fn key_has_trips(trips: Seq<Trip>, k: crate::variants::VariantKey, i: int)
    requires
        0 <= i < trips.len(),
        trip_key(trips[i]) == k,
    ensures
        trips_with_key(trips, k).len() > 0,
    decreases trips.len(),
{
    if i < trips.len() - 1 {
        key_has_trips(trips.drop_last(), k, i);
    }
}

/// Every trip of a variant made from `trips` is one of `trips`.
proof fn variant_trip_from(v: RouteVariant, route_id: crate::routes::RouteID, id: nat, k: crate::variants::VariantKey, trips: Seq<Trip>, m: int)
    requires
        variant_from_group(v, route_id, id, k, trips),
        0 <= m < v.trips@.len(),
    ensures
        trips.contains(v.trips@[m]),
{
    assert(v.trips@.contains(v.trips@[m]));
    stable_sorted_contains(trips_with_key(trips, k), key_fn::<Trip>(), v.trips@[m]);
    trips_with_key_from(trips, k, v.trips@[m]);
}

/// Earlier routes number their variants below later ones.
proof fn variants_before_grows(routes: Seq<Route>, i: int, k: int)
    requires
        0 <= i < k <= routes.len(),
    ensures
        variants_before(routes, i) + routes[i].variants@.len() <= variants_before(routes, k),
    decreases k,
{
    if i < k - 1 {
        variants_before_grows(routes, i, k - 1);
    }
}

/// Adding a route does not change how many variants come before the earlier ones.
proof fn variants_before_push(routes: Seq<Route>, x: Route, k: int)
    requires
        0 <= k <= routes.len(),
    ensures
        variants_before(routes.push(x), k) == variants_before(routes, k),
    decreases k,
{
    if k > 0 {
        variants_before_push(routes, x, k - 1);
    }
}

/// The routes of a prefix that have trips.
proof fn routes_with_trips_step(routes: Seq<Route>, trips: Seq<Trip>, r: int)
    requires
        0 <= r < routes.len(),
    ensures
        routes_with_trips(routes.take(r + 1), trips) == if trips_of_route(trips, routes[r].route_id.0@).len() > 0 {
            routes_with_trips(routes.take(r), trips).push(r)
        } else {
            routes_with_trips(routes.take(r), trips)
        },
{
    assert(routes.take(r + 1).drop_last() =~= routes.take(r));
    assert(routes.take(r + 1).last() == routes[r]);
}

/// The positions of the routes with trips are increasing positions of routes.
proof fn routes_with_trips_bounds(routes: Seq<Route>, trips: Seq<Trip>)
    ensures
        forall|k: int|
            0 <= k < routes_with_trips(routes, trips).len() ==> 0 <= #[trigger] routes_with_trips(routes, trips)[k]
                < routes.len(),
    decreases routes.len(),
{
    if routes.len() > 0 {
        routes_with_trips_bounds(routes.drop_last(), trips);
        let rest = routes_with_trips(routes.drop_last(), trips);
        assert forall|k: int|
            0 <= k < routes_with_trips(routes, trips).len() implies 0 <= #[trigger] routes_with_trips(routes, trips)[k]
                < routes.len() by {
            if k < rest.len() {
                assert(routes_with_trips(routes, trips)[k] == rest[k]);
            }
        }
    }
}

/// The trips of each route identifier, sorted by identifier.
fn trips_by_route(trips: Vec<Trip>) -> (r: Vec<(String, Vec<Trip>)>)
    ensures
        strictly_sorted(r@),
        total_listed(r@) == trips@.len(),
        forall|name: Seq<char>| #[trigger] list_at(r@, name) == trips_of_route(trips@, name),
{
    let ghost input = trips@;
    let mut per_route: Vec<(String, Vec<Trip>)> = Vec::new();
    for trip in it: trips.into_iter()
        invariant
            it.seq() == input,
            strictly_sorted(per_route@),
            total_listed(per_route@) == it.index(),
            forall|name: Seq<char>| #[trigger] list_at(per_route@, name) == trips_of_route(input.take(it.index() as int), name),
    {
        let ghost idx = it.index();
        let ghost before = per_route@;
        proof {
            assert(input.take(idx + 1).drop_last() =~= input.take(idx as int));
            assert(input.take(idx + 1).last() == trip);
        }
        match search_sorted(&per_route, trip.route_id.0.as_str()) {
            Ok(q) => {
                proof {
                    list_at_index(before, q as int);
                }
                per_route[q].1.push(trip);
                proof {
                    assert(per_route@ =~= before.update(q as int, per_route@[q as int]));
                    list_at_update(before, q as int, per_route@[q as int]);
                    total_listed_update(before, q as int, per_route@[q as int]);
                }
            },
            Err(q) => {
                let name = trip.route_id.0.clone();
                let mut list: Vec<Trip> = Vec::new();
                list.push(trip);
                let entry = (name, list);
                proof {
                    list_at_insert(before, q as int, entry);
                    total_listed_insert(before, q as int, entry);
                    assert(entry.1@ =~= Seq::<Trip>::empty().push(trip));
                }
                per_route.insert(q, entry);
            },
        }
    }
    proof {
        assert(input.take(input.len() as int) =~= input);
    }
    per_route
}

/// Takes the trips of the route named `name` out of the lists.
fn take_route_trips(per_route: &mut Vec<(String, Vec<Trip>)>, name: &str) -> (list: Vec<Trip>)
    requires
        strictly_sorted(old(per_route)@),
    ensures
        strictly_sorted(final(per_route)@),
        list@ == list_at(old(per_route)@, name@),
        total_listed(final(per_route)@) + list@.len() == total_listed(old(per_route)@),
        forall|other: Seq<char>| other != name@ ==> #[trigger] list_at(final(per_route)@, other) == list_at(old(per_route)@, other),
{
    let ghost before = per_route@;
    let mut list: Vec<Trip> = Vec::new();
    match search_sorted(per_route, name) {
        Ok(q) => {
            proof {
                list_at_index(before, q as int);
            }
            std::mem::swap(&mut list, &mut per_route[q].1);
            proof {
                assert(per_route@ =~= before.update(q as int, per_route@[q as int]));
                list_at_update(before, q as int, per_route@[q as int]);
                total_listed_update(before, q as int, per_route@[q as int]);
            }
        },
        Err(_) => {
            assert(list@ =~= Seq::<Trip>::empty());
        },
    }
    list
}

/// The routes with trips, each with its trips grouped into variants numbered on from zero.
fn routes_with_variants(routes: Vec<Route>, per_route: Vec<(String, Vec<Trip>)>, Ghost(input): Ghost<Seq<Trip>>) -> (out: Vec<Route>)
    requires
        strictly_sorted(routes@),
        forall|i: int| 0 <= i < routes@.len() ==> (#[trigger] routes@[i]).variants@.len() == 0,
        strictly_sorted(per_route@),
        total_listed(per_route@) == input.len(),
        input.len() <= usize::MAX,
        forall|name: Seq<char>| #[trigger] list_at(per_route@, name) == trips_of_route(input, name),
    ensures
        strictly_sorted(out@),
        out@.len() == routes_with_trips(routes@, input).len(),
        forall|k: int|
            0 <= k < out@.len() ==> route_with_variants(
                #[trigger] out@[k],
                routes@[routes_with_trips(routes@, input)[k]],
                input,
                variants_before(out@, k),
            ),
{
    let ghost in_routes = routes@;
    let mut per_route = per_route;
    let mut counter: usize = 0;
    let ghost mut used: nat = 0;
    let mut out: Vec<Route> = Vec::new();
    proof {
        assert(in_routes.take(0) =~= Seq::<Route>::empty());
    }
    for route in it: routes.into_iter()
        invariant
            it.seq() == in_routes,
            strictly_sorted(in_routes),
            forall|i: int| 0 <= i < in_routes.len() ==> (#[trigger] in_routes[i]).variants@.len() == 0,
            strictly_sorted(per_route@),
            used + total_listed(per_route@) == input.len(),
            input.len() <= usize::MAX,
            counter <= used,
            forall|r: int|
                it.index() <= r < in_routes.len() ==> #[trigger] list_at(per_route@, in_routes[r].route_id.0@)
                    == trips_of_route(input, in_routes[r].route_id.0@),
            out@.len() == routes_with_trips(in_routes.take(it.index() as int), input).len(),
            counter == variants_before(out@, out@.len() as int),
            forall|k: int|
                0 <= k < out@.len() ==> route_with_variants(
                    #[trigger] out@[k],
                    in_routes[routes_with_trips(in_routes.take(it.index() as int), input)[k]],
                    input,
                    variants_before(out@, k),
                ),
            strictly_sorted(out@),
            forall|k: int|
                0 <= k < out@.len() ==> #[trigger] out@[k].route_id == in_routes[routes_with_trips(
                    in_routes.take(it.index() as int),
                    input,
                )[k]].route_id,
    {
        let ghost r = it.index();
        proof {
            routes_with_trips_step(in_routes, input, r as int);
            routes_with_trips_bounds(in_routes.take(r as int), input);
            assert(route == in_routes[r as int]);
        }
        let mut route = route;
        let ghost before = per_route@;
        let list = take_route_trips(&mut per_route, route.route_id.0.as_str());
        proof {
            assert(list@ == trips_of_route(input, route.route_id.0@));
            assert forall|r2: int|
                r + 1 <= r2 < in_routes.len() implies #[trigger] list_at(per_route@, in_routes[r2].route_id.0@)
                    == trips_of_route(input, in_routes[r2].route_id.0@) by {
                assert(text_lt(in_routes[r as int].key_text(), in_routes[r2].key_text()));
                crate::text::text_lt_irreflexive(in_routes[r as int].key_text());
            }
        }
        if list.len() > 0 {
            let ghost before_out = out@;
            let ghost kept_before = routes_with_trips(in_routes.take(r as int), input);
            let ghost first = counter as nat;
            let ghost list_len = list@.len();
            let ghost old_route = route;
            group_variants(&mut counter, &mut route, list);
            proof {
                used = used + list_len;
            }
            out.push(route);
            proof {
                let kept = routes_with_trips(in_routes.take(r + 1), input);
                assert(kept == kept_before.push(r as int));
                assert forall|k: int| 0 <= k <= before_out.len() implies variants_before(out@, k) == variants_before(before_out, k) by {
                    variants_before_push(before_out, route, k);
                }
                assert(variants_before(out@, before_out.len() as int) == first);
                assert(counter == variants_before(out@, out@.len() as int));
                assert(old_route == in_routes[r as int]);
                assert(old_route.variants@.len() == 0);
                let own = trips_of_route(input, in_routes[r as int].route_id.0@);
                assert(own == list@);
                assert forall|j: int| 0 <= j < route.variants@.len() implies variant_from_group(
                    #[trigger] route.variants@[j],
                    in_routes[r as int].route_id,
                    (first + j) as nat,
                    variant_keys(own)[j],
                    own,
                ) by {
                    assert(route.variants@[old_route.variants@.len() + j] == route.variants@[j]);
                }
                assert(route_with_variants(route, in_routes[r as int], input, first));
                assert forall|k: int|
                    0 <= k < out@.len() implies route_with_variants(
                        #[trigger] out@[k],
                        in_routes[kept[k]],
                        input,
                        variants_before(out@, k),
                    ) by {
                    if k < before_out.len() {
                        assert(out@[k] == before_out[k]);
                        assert(kept[k] == kept_before[k]);
                    } else {
                        assert(out@[k] == route);
                        assert(kept[k] == r);
                    }
                }
                assert forall|k: int|
                    0 <= k < out@.len() implies #[trigger] out@[k].route_id == in_routes[kept[k]].route_id by {
                    if k < before_out.len() {
                        assert(out@[k] == before_out[k]);
                        assert(kept[k] == kept_before[k]);
                    }
                }
                assert forall|a: int, b: int| 0 <= a < b < out@.len() implies text_lt(
                    (#[trigger] out@[a]).key_text(),
                    (#[trigger] out@[b]).key_text(),
                ) by {
                    if b == before_out.len() {
                        assert(out@[a] == before_out[a]);
                        assert(kept_before[a] < r);
                        assert(out@[a].route_id == in_routes[kept_before[a]].route_id);
                    } else {
                        assert(out@[a] == before_out[a] && out@[b] == before_out[b]);
                    }
                }
            }
        } else {
            proof {
                assert(routes_with_trips(in_routes.take(r + 1), input) == routes_with_trips(in_routes.take(r as int), input));
            }
        }
    }
    proof {
        assert(in_routes.take(in_routes.len() as int) =~= in_routes);
    }
    out
}

/// The stops keep what they hold, but the variants they list.
pub open spec fn same_stop_fields(a: Stop, b: Stop) -> bool {
    &&& a.id == b.id
    &&& a.orig_id == b.orig_id
    &&& a.code == b.code
    &&& a.name == b.name
    &&& a.description == b.description
}

/// `after` lists the variants that `before` lists and those that `extra` admits, and no others.
pub open spec fn lists_plus(after: Stop, before: Stop, extra: spec_fn(RouteVariantID) -> bool) -> bool {
    forall|id: RouteVariantID|
        #![trigger after.route_variants@.contains(id)]
        #![trigger before.route_variants@.contains(id)]
        #![trigger extra(id)]
        after.route_variants@.contains(id) <==> (before.route_variants@.contains(id) || extra(id))
}

/// Each stop of `stop_list` lists variant `vid` too.
fn add_variant_to_stops(stops: &mut Vec<Stop>, stop_list: &Vec<crate::ids::StopID>, vid: RouteVariantID)
    requires
        forall|s: int| 0 <= s < old(stops)@.len() ==> increasing_ids((#[trigger] old(stops)@[s]).route_variants@),
        forall|k: int| 0 <= k < stop_list@.len() ==> (#[trigger] stop_list@[k]).0 < old(stops)@.len(),
    ensures
        final(stops)@.len() == old(stops)@.len(),
        forall|s: int|
            0 <= s < final(stops)@.len() ==> {
                &&& same_stop_fields(#[trigger] final(stops)@[s], old(stops)@[s])
                &&& increasing_ids(final(stops)@[s].route_variants@)
                &&& lists_plus(
                    final(stops)@[s],
                    old(stops)@[s],
                    |id: RouteVariantID| id == vid && stop_list@.contains(crate::ids::StopID(s as usize)),
                )
            },
{
    let ghost start = stops@;
    let n = stops.len();
    let mut k: usize = 0;
    while k < stop_list.len()
        invariant
            stops@.len() == n,
            start.len() == n,
            start == old(stops)@,
            forall|k2: int| 0 <= k2 < stop_list@.len() ==> (#[trigger] stop_list@[k2]).0 < n,
            k <= stop_list@.len(),
            forall|s: int|
                0 <= s < n ==> {
                    &&& same_stop_fields(#[trigger] stops@[s], start[s])
                    &&& increasing_ids(stops@[s].route_variants@)
                    &&& lists_plus(
                        stops@[s],
                        start[s],
                        |id: RouteVariantID| id == vid && stop_list@.take(k as int).contains(crate::ids::StopID(s as usize)),
                    )
                },
        decreases stop_list@.len() - k,
    {
        let st = stop_list[k].0;
        let ghost before = stops@;
        insert_id(&mut stops[st].route_variants, vid);
        proof {
            let taken = stop_list@.take(k as int);
            let taken2 = stop_list@.take(k + 1);
            assert(taken2 =~= taken.push(stop_list@[k as int]));
            assert forall|s: int|
                0 <= s < n implies {
                    &&& same_stop_fields(#[trigger] stops@[s], start[s])
                    &&& increasing_ids(stops@[s].route_variants@)
                    &&& lists_plus(
                        stops@[s],
                        start[s],
                        |id: RouteVariantID| id == vid && taken2.contains(crate::ids::StopID(s as usize)),
                    )
                } by {
                let me = crate::ids::StopID(s as usize);
                assert(same_stop_fields(before[s], start[s]));
                assert(lists_plus(before[s], start[s], |id: RouteVariantID| id == vid && taken.contains(me)));
                if s != st {
                    assert(stops@[s] == before[s]);
                    assert(taken2.contains(me) == taken.contains(me)) by {
                        if taken2.contains(me) {
                            let p = choose|p: int| 0 <= p < taken2.len() && #[trigger] taken2[p] == me;
                            if p < k {
                                assert(taken[p] == taken2[p]);
                            }
                        }
                        if taken.contains(me) {
                            let p = choose|p: int| 0 <= p < taken.len() && #[trigger] taken[p] == me;
                            assert(taken2[p] == taken[p]);
                        }
                    }
                } else {
                    assert(taken2[k as int] == me);
                    assert(taken2.contains(me));
                }
            }
        }
        k += 1;
    }
    assert(stop_list@.take(k as int) =~= stop_list@);
}

/// Variant `id` of a route before route `i`, or of route `i` before variant `j`, visits stop `s`.
pub open spec fn seen_stop(routes: Seq<Route>, id: RouteVariantID, s: int, i: int, j: int) -> bool {
    exists|a: int, b: int|
        is_variant_at(routes, a, b) && (a < i || (a == i && b < j)) && (#[trigger] variant_at(routes, a, b)).variant_id
            == id && variant_stops(variant_at(routes, a, b)).contains(crate::ids::StopID(s as usize))
}

/// Each stop lists, besides the variants it listed, those of `routes` visiting it.
fn add_route_variants(stops: &mut Vec<Stop>, routes: &Vec<Route>)
    requires
        forall|s: int| 0 <= s < old(stops)@.len() ==> increasing_ids((#[trigger] old(stops)@[s]).route_variants@),
        forall|i: int, j: int|
            is_variant_at(routes@, i, j) ==> (#[trigger] variant_at(routes@, i, j)).trips@.len() > 0,
        forall|i: int, j: int, k: int|
            is_variant_at(routes@, i, j) && 0 <= k < variant_stops(variant_at(routes@, i, j)).len() ==> (#[trigger] variant_stops(
                variant_at(routes@, i, j),
            )[k]).0 < old(stops)@.len(),
    ensures
        final(stops)@.len() == old(stops)@.len(),
        forall|s: int|
            0 <= s < final(stops)@.len() ==> {
                &&& same_stop_fields(#[trigger] final(stops)@[s], old(stops)@[s])
                &&& increasing_ids(final(stops)@[s].route_variants@)
                &&& lists_plus(final(stops)@[s], old(stops)@[s], |id: RouteVariantID| visits_stop(routes@, id, s))
            },
{
    let ghost start = stops@;
    let n = stops.len();
    let mut i: usize = 0;
    let mut j: usize = 0;
    while i < routes.len()
        invariant
            stops@.len() == n,
            start.len() == n,
            start == old(stops)@,
            forall|i2: int, j2: int|
                is_variant_at(routes@, i2, j2) ==> (#[trigger] variant_at(routes@, i2, j2)).trips@.len() > 0,
            forall|i2: int, j2: int, k2: int|
                is_variant_at(routes@, i2, j2) && 0 <= k2 < variant_stops(variant_at(routes@, i2, j2)).len() ==> (#[trigger] variant_stops(
                    variant_at(routes@, i2, j2),
                )[k2]).0 < n,
            i <= routes@.len(),
            i < routes@.len() ==> j <= routes@[i as int].variants@.len(),
            i == routes@.len() ==> j == 0,
            forall|s: int|
                0 <= s < n ==> {
                    &&& same_stop_fields(#[trigger] stops@[s], start[s])
                    &&& increasing_ids(stops@[s].route_variants@)
                    &&& lists_plus(
                        stops@[s],
                        start[s],
                        |id: RouteVariantID| seen_stop(routes@, id, s, i as int, j as int),
                    )
                },
        decreases routes@.len() - i, routes@[i as int].variants@.len() - j,
    {
        if j < routes[i].variants.len() {
            let variant = &routes[i].variants[j];
            assert(*variant == variant_at(routes@, i as int, j as int));
            assert(is_variant_at(routes@, i as int, j as int));
            let stop_list = variant.stops();
            let vid = variant.variant_id;
            let ghost before = stops@;
            assert forall|k: int| 0 <= k < stop_list@.len() implies (#[trigger] stop_list@[k]).0 < n by {
                assert(is_variant_at(routes@, i as int, j as int));
                assert(stop_list@[k] == variant_stops(variant_at(routes@, i as int, j as int))[k]);
            }
            add_variant_to_stops(stops, &stop_list, vid);
            proof {
                assert forall|s: int|
                    0 <= s < n implies {
                        &&& same_stop_fields(#[trigger] stops@[s], start[s])
                        &&& increasing_ids(stops@[s].route_variants@)
                        &&& lists_plus(
                            stops@[s],
                            start[s],
                            |id: RouteVariantID| seen_stop(routes@, id, s, i as int, j + 1),
                        )
                    } by {
                    let me = crate::ids::StopID(s as usize);
                    assert(same_stop_fields(before[s], start[s]));
                    assert(lists_plus(before[s], start[s], |id: RouteVariantID| seen_stop(routes@, id, s, i as int, j as int)));
                    assert(lists_plus(stops@[s], before[s], |id: RouteVariantID| id == vid && stop_list@.contains(me)));
                    assert forall|id: RouteVariantID|
                        seen_stop(routes@, id, s, i as int, j + 1) <==> (seen_stop(routes@, id, s, i as int, j as int) || (
                        id == vid && stop_list@.contains(me))) by {
                        if seen_stop(routes@, id, s, i as int, j + 1) {
                            let (a, b) = choose|a: int, b: int|
                                is_variant_at(routes@, a, b) && (a < i || (a == i && b < j + 1)) && (#[trigger] variant_at(
                                    routes@,
                                    a,
                                    b,
                                )).variant_id == id && variant_stops(variant_at(routes@, a, b)).contains(me);
                            if !(a == i && b == j) {
                                assert(seen_stop(routes@, id, s, i as int, j as int));
                            }
                        }
                        if id == vid && stop_list@.contains(me) {
                            assert(variant_at(routes@, i as int, j as int).variant_id == id);
                            assert(is_variant_at(routes@, i as int, j as int));
                        }
                    }
                }
            }
            j += 1;
        } else {
            proof {
                assert forall|s: int|
                    0 <= s < n implies {
                        &&& same_stop_fields(#[trigger] stops@[s], start[s])
                        &&& increasing_ids(stops@[s].route_variants@)
                        &&& lists_plus(
                            stops@[s],
                            start[s],
                            |id: RouteVariantID| seen_stop(routes@, id, s, i + 1, 0),
                        )
                    } by {
                    assert(lists_plus(stops@[s], start[s], |id: RouteVariantID| seen_stop(routes@, id, s, i as int, j as int)));
                    assert forall|id: RouteVariantID|
                        seen_stop(routes@, id, s, i as int, j as int) == seen_stop(routes@, id, s, i + 1, 0) by {
                        if seen_stop(routes@, id, s, i + 1, 0) {
                            let (a, b) = choose|a: int, b: int|
                                is_variant_at(routes@, a, b) && (a < i + 1 || (a == i + 1 && b < 0)) && (#[trigger] variant_at(
                                    routes@,
                                    a,
                                    b,
                                )).variant_id == id && variant_stops(variant_at(routes@, a, b)).contains(
                                    crate::ids::StopID(s as usize),
                                );
                            assert(a < i || (a == i && b < j));
                        }
                    }
                }
            }
            i += 1;
            j = 0;
        }
    }
    proof {
        assert forall|s: int|
            0 <= s < n implies lists_plus(stops@[s], start[s], |id: RouteVariantID| visits_stop(routes@, id, s)) by {
            assert(lists_plus(stops@[s], start[s], |id: RouteVariantID| seen_stop(routes@, id, s, i as int, 0)));
            assert forall|id: RouteVariantID| seen_stop(routes@, id, s, i as int, 0) == visits_stop(routes@, id, s) by {
                if visits_stop(routes@, id, s) {
                    let (a, b) = choose|a: int, b: int|
                        is_variant_at(routes@, a, b) && (#[trigger] variant_at(routes@, a, b)).variant_id == id
                            && variant_stops(variant_at(routes@, a, b)).contains(crate::ids::StopID(s as usize));
                    assert(a < i);
                }
            }
        }
    }
}

/// What a variant built for a route in `routes_with_variants` is made of.
proof fn assembled_variant(out: Seq<Route>, from: Route, trips: Seq<Trip>, k: int, j: int)
    requires
        0 <= k < out.len(),
        route_with_variants(out[k], from, trips, variants_before(out, k)),
        0 <= j < out[k].variants@.len(),
    ensures
        out[k].variants@[j].trips@.len() > 0,
        out[k].variants@[j].route_id == out[k].route_id,
        out[k].variants@[j].variant_id.0 == variants_before(out, k) + j,
        forall|m: int| 0 <= m < out[k].variants@[j].trips@.len() ==> trips.contains(#[trigger] out[k].variants@[j].trips@[m]),
{
    let own = trips_of_route(trips, from.route_id.0@);
    let v = out[k].variants@[j];
    let key = variant_keys(own)[j];
    assert(variant_from_group(v, from.route_id, (variants_before(out, k) + j) as nat, key, own));
    assert(variant_keys(own).contains(key));
    let i = choose|i: int| 0 <= i < own.len() && trip_key(#[trigger] own[i]) == key;
    key_has_trips(own, key, i);
    stable_sorted_is_sorted_permutation(trips_with_key(own, key), key_fn::<Trip>());
    assert forall|m: int| 0 <= m < v.trips@.len() implies trips.contains(#[trigger] v.trips@[m]) by {
        variant_trip_from(v, from.route_id, (variants_before(out, k) + j) as nat, key, own, m);
        trips_of_route_from(trips, from.route_id.0@, v.trips@[m]);
    }
}

impl GTFS {
    /// Builds the schedule from its tables: the trips of each route are grouped into variants,
    /// numbered on from zero route by route; routes without trips are dropped, and so are trips
    /// of unknown routes; each stop then lists the variants whose first trip visits it.
    pub fn assemble(stops: Vec<Stop>, routes: Vec<Route>, trips: Vec<Trip>, calendar: Calendar) -> (g: GTFS)
        requires
            calendar.wf(),
            forall|i: int| 0 <= i < stops@.len() ==> (#[trigger] stops@[i]).id.0 == i,
            forall|i: int| 0 <= i < stops@.len() ==> (#[trigger] stops@[i]).route_variants@.len() == 0,
            strictly_sorted(routes@),
            forall|i: int| 0 <= i < routes@.len() ==> (#[trigger] routes@[i]).variants@.len() == 0,
            forall|t: int| 0 <= t < trips@.len() ==> (#[trigger] trips@[t]).stop_times@.len() > 0,
            forall|t: int, k: int|
                0 <= t < trips@.len() && 0 <= k < trips@[t].stop_times@.len() ==> (#[trigger] trips@[t].stop_times@[k]).stop_id.0
                    < stops@.len(),
        ensures
            g.wf(),
            g.calendar == calendar,
            g.routes@.len() == routes_with_trips(routes@, trips@).len(),
            forall|k: int|
                0 <= k < g.routes@.len() ==> route_with_variants(
                    #[trigger] g.routes@[k],
                    routes@[routes_with_trips(routes@, trips@)[k]],
                    trips@,
                    variants_before(g.routes@, k),
                ),
            g.stops@.len() == stops@.len(),
            forall|s: int|
                0 <= s < g.stops@.len() ==> {
                    &&& same_stop_fields(#[trigger] g.stops@[s], stops@[s])
                    &&& forall|id: RouteVariantID|
                        g.stops@[s].route_variants@.contains(id) <==> visits_stop(g.routes@, id, s)
                },
    {
        let ghost input = trips@;
        let ghost in_stops = stops@;
        let ghost in_routes = routes@;
        let total = trips.len();
        assert(input.len() == total);
        let per_route = trips_by_route(trips);
        let built = routes_with_variants(routes, per_route, Ghost(input));
        proof {
            assert forall|i: int, j: int| is_variant_at(built@, i, j) implies {
                &&& (#[trigger] variant_at(built@, i, j)).trips@.len() > 0
                &&& variant_at(built@, i, j).route_id == built@[i].route_id
                &&& variant_at(built@, i, j).variant_id.0 == variants_before(built@, i) + j
                &&& forall|m: int|
                    0 <= m < variant_at(built@, i, j).trips@.len() ==> input.contains(
                        #[trigger] variant_at(built@, i, j).trips@[m],
                    )
            } by {
                assembled_variant(built@, in_routes[routes_with_trips(in_routes, input)[i]], input, i, j);
            }
            assert forall|i: int, j: int, k: int|
                is_variant_at(built@, i, j) && 0 <= k < variant_stops(variant_at(built@, i, j)).len() implies (#[trigger] variant_stops(
                    variant_at(built@, i, j),
                )[k]).0 < in_stops.len() by {
                let v = variant_at(built@, i, j);
                assert(input.contains(v.trips@[0]));
                let t = choose|t: int| 0 <= t < input.len() && input[t] == v.trips@[0];
                assert(variant_stops(v)[k] == input[t].stop_times@[k].stop_id);
            }
            assert forall|s: int| 0 <= s < in_stops.len() implies increasing_ids((#[trigger] in_stops[s]).route_variants@) by {
                assert(in_stops[s].route_variants@.len() == 0);
            }
        }
        let mut stops = stops;
        add_route_variants(&mut stops, &built);
        proof {
            assert forall|i: int, j: int, k: int, l: int|
                is_variant_at(built@, i, j) && is_variant_at(built@, k, l) && (i != k || j != l) implies (#[trigger] variant_at(
                    built@,
                    i,
                    j,
                )).variant_id != (#[trigger] variant_at(built@, k, l)).variant_id by {
                if i < k {
                    variants_before_grows(built@, i, k);
                } else if k < i {
                    variants_before_grows(built@, k, i);
                }
            }
            assert forall|s: int| 0 <= s < stops@.len() implies forall|id: RouteVariantID|
                (#[trigger] stops@[s]).route_variants@.contains(id) <==> visits_stop(built@, id, s) by {
                assert(lists_plus(stops@[s], in_stops[s], |id: RouteVariantID| visits_stop(built@, id, s)));
                assert(in_stops[s].route_variants@.len() == 0);
            }
        }
        GTFS { stops, routes: built, calendar }
    }
}

} // verus!
