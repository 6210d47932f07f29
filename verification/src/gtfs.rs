use vstd::prelude::*;

use crate::calendar::{describe_days, service_matches, Calendar, DateFilter, ServiceID};
use crate::routes::{describe_route, describe_variant, Route, RouteVariant, RouteVariantID};
use crate::stops::Stop;
use crate::text::{
    contains_text, find_text, has_key, key_set, keyed_map, keyed_map_at, search_sorted,
    strictly_sorted, TextKeyed,
};

verus! {

/// A transit schedule: stops, routes with their variants and trips, and the service calendar.
#[derive(Clone, Debug)]
pub struct GTFS {
    /// Stop `i` has identifier `i`.
    pub stops: Vec<Stop>,
    /// Sorted by route identifier.
    pub routes: Vec<Route>,
    pub calendar: Calendar,
}

/// Filter for route variants.
pub struct VariantFilter {
    pub date_filter: DateFilter,
    pub minimum_trips_per_day: usize,
    /// Only variants whose description contains this text; empty keeps all.
    pub description_substring: String,
}

/// Position `(i, j)` is a variant: variant `j` of route `i`.
pub open spec fn is_variant_at(routes: Seq<Route>, i: int, j: int) -> bool {
    0 <= i < routes.len() && 0 <= j < routes[i].variants@.len()
}

/// The variant at a position.
pub open spec fn variant_at(routes: Seq<Route>, i: int, j: int) -> RouteVariant {
    routes[i].variants@[j]
}

/// The identifiers of all variants, route by route.
pub open spec fn variant_ids(routes: Seq<Route>) -> Seq<RouteVariantID>
    decreases routes.len(),
{
    if routes.len() == 0 {
        Seq::empty()
    } else {
        variant_ids(routes.drop_last()) + routes.last().variants@.map_values(
            |v: RouteVariant| v.variant_id,
        )
    }
}

/// Is some variant identified by `id`?
pub open spec fn has_variant(routes: Seq<Route>, id: RouteVariantID) -> bool {
    exists|i: int, j: int| is_variant_at(routes, i, j) && (#[trigger] variant_at(routes, i, j)).variant_id == id
}

impl GTFS {
    /// Stops are numbered by position, routes are sorted and carry their own variants, no two
    /// variants share an identifier, every variant has a trip, and every trip has stop times.
    pub open spec fn wf(&self) -> bool {
        &&& self.calendar.wf()
        &&& strictly_sorted(self.routes@)
        &&& forall|i: int| 0 <= i < self.stops@.len() ==> (#[trigger] self.stops@[i]).id.0 == i
        &&& forall|i: int, j: int|
            is_variant_at(self.routes@, i, j) ==> {
                &&& (#[trigger] variant_at(self.routes@, i, j)).trips@.len() > 0
                &&& variant_at(self.routes@, i, j).route_id.0@ == self.routes@[i].route_id.0@
                &&& forall|k: int|
                    0 <= k < variant_at(self.routes@, i, j).trips@.len() ==> (#[trigger] variant_at(
                        self.routes@,
                        i,
                        j,
                    ).trips@[k]).stop_times@.len() > 0
            }
        &&& forall|i: int, j: int, k: int, l: int|
            is_variant_at(self.routes@, i, j) && is_variant_at(self.routes@, k, l) && (i != k || j
                != l) ==> (#[trigger] variant_at(self.routes@, i, j)).variant_id
                != (#[trigger] variant_at(self.routes@, k, l)).variant_id
    }

    /// The variant identified by `id`.
    pub open spec fn variant_spec(&self, id: RouteVariantID) -> RouteVariant {
        let (i, j) = choose|i: int, j: int|
            is_variant_at(self.routes@, i, j) && (#[trigger] variant_at(self.routes@, i, j)).variant_id == id;
        variant_at(self.routes@, i, j)
    }

    /// The route holding the variant identified by `id`.
    pub open spec fn parent_spec(&self, id: RouteVariantID) -> Route {
        let (i, j) = choose|i: int, j: int|
            is_variant_at(self.routes@, i, j) && (#[trigger] variant_at(self.routes@, i, j)).variant_id == id;
        self.routes@[i]
    }

    /// A schedule with nothing in it.
    pub fn empty() -> (g: Self)
        ensures
            g.wf(),
            g.stops@.len() == 0,
            g.routes@.len() == 0,
            g.calendar.services@.len() == 0,
    {
        GTFS { stops: Vec::new(), routes: Vec::new(), calendar: Calendar::new() }
    }

    fn find(&self, id: RouteVariantID) -> (r: (usize, usize))
        requires
            self.wf(),
            has_variant(self.routes@, id),
        ensures
            is_variant_at(self.routes@, r.0 as int, r.1 as int),
            variant_at(self.routes@, r.0 as int, r.1 as int) == self.variant_spec(id),
            self.routes@[r.0 as int] == self.parent_spec(id),
    {
        let mut i: usize = 0;
        while i < self.routes.len()
            invariant
                self.wf(),
                has_variant(self.routes@, id),
                i <= self.routes.len(),
                forall|a: int, b: int|
                    0 <= a < i && is_variant_at(self.routes@, a, b) ==> (#[trigger] variant_at(
                        self.routes@,
                        a,
                        b,
                    )).variant_id != id,
            decreases self.routes.len() - i,
        {
            let route = &self.routes[i];
            let mut j: usize = 0;
            while j < route.variants.len()
                invariant
                    self.wf(),
                    i < self.routes.len(),
                    route == self.routes@[i as int],
                    j <= route.variants.len(),
                    forall|b: int|
                        0 <= b < j ==> (#[trigger] variant_at(self.routes@, i as int, b)).variant_id != id,
                decreases route.variants.len() - j,
            {
                if route.variants[j].variant_id.0 == id.0 {
                    proof {
                        assert(variant_at(self.routes@, i as int, j as int).variant_id == id);
                        let (a, b) = choose|a: int, b: int|
                            is_variant_at(self.routes@, a, b) && (#[trigger] variant_at(self.routes@, a, b)).variant_id == id;
                        if a != i || b != j {
                            assert(variant_at(self.routes@, a, b).variant_id != variant_at(self.routes@, i as int, j as int).variant_id);
                        }
                    }
                    return (i, j);
                }
                j += 1;
            }
            i += 1;
        }
        proof {
            let (a, b) = choose|a: int, b: int|
                is_variant_at(self.routes@, a, b) && (#[trigger] variant_at(self.routes@, a, b)).variant_id == id;
            assert(variant_at(self.routes@, a, b).variant_id != id);
        }
        (0, 0)
    }

    /// The variant identified by `id`, which must exist.
    pub fn variant(&self, id: RouteVariantID) -> (v: &RouteVariant)
        requires
            self.wf(),
            has_variant(self.routes@, id),
        ensures
            *v == self.variant_spec(id),
            v.variant_id == id,
            v.trips@.len() > 0,
    {
        let (i, j) = self.find(id);
        &self.routes[i].variants[j]
    }

    /// The route holding the variant identified by `id`, which must exist.
    pub fn parent_of_variant(&self, id: RouteVariantID) -> (r: &Route)
        requires
            self.wf(),
            has_variant(self.routes@, id),
        ensures
            *r == self.parent_spec(id),
            exists|j: int| 0 <= j < r.variants@.len() && r.variants@[j] == self.variant_spec(id),
    {
        let (i, j) = self.find(id);
        &self.routes[i]
    }

    /// The identifiers of every variant, route by route.
    pub fn all_variants(&self) -> (r: Vec<RouteVariantID>)
        ensures
            r@ == variant_ids(self.routes@),
    {
        let mut r: Vec<RouteVariantID> = Vec::new();
        let mut i: usize = 0;
        while i < self.routes.len()
            invariant
                i <= self.routes.len(),
                r@ == variant_ids(self.routes@.take(i as int)),
            decreases self.routes.len() - i,
        {
            let route = &self.routes[i];
            let mut j: usize = 0;
            let ghost start = r@;
            while j < route.variants.len()
                invariant
                    j <= route.variants.len(),
                    route == self.routes@[i as int],
                    r@ == start + route.variants@.take(j as int).map_values(
                        |v: RouteVariant| v.variant_id,
                    ),
                decreases route.variants.len() - j,
            {
                r.push(route.variants[j].variant_id);
                j += 1;
                assert(r@ =~= start + route.variants@.take(j as int).map_values(
                    |v: RouteVariant| v.variant_id,
                ));
            }
            assert(route.variants@.take(j as int) =~= route.variants@);
            assert(self.routes@.take(i + 1).drop_last() =~= self.routes@.take(i as int));
            i += 1;
        }
        assert(self.routes@.take(i as int) =~= self.routes@);
        r
    }
}

/// How `RouteVariant::describe` reads a variant of the schedule: with the description of its
/// route and of its service's days.
pub open spec fn variant_description(g: GTFS, v: RouteVariant) -> Seq<char> {
    describe_variant(
        v,
        describe_route(keyed_map(g.routes@)[v.route_id.0@]),
        describe_days(g.calendar.by_id()[v.service_id.0@].days_of_week),
    )
}

/// Does a variant pass the filter, given the services running on the filtered days?
pub open spec fn passes_filter(g: GTFS, v: RouteVariant, filter: VariantFilter, services: Set<Seq<char>>) -> bool {
    &&& services.contains(v.service_id.0@)
    &&& v.trips@.len() >= filter.minimum_trips_per_day
    &&& (filter.description_substring@.len() == 0 || contains_text(
        variant_description(g, v),
        filter.description_substring@,
    ))
}

/// The identifiers strictly increase.
pub open spec fn increasing_ids(ids: Seq<RouteVariantID>) -> bool {
    forall|a: int, b: int| 0 <= a < b < ids.len() ==> (#[trigger] ids[a]).0 < (#[trigger] ids[b]).0
}

/// Adds an identifier to a strictly increasing list, unless it is there already.
pub(crate) fn insert_id(ids: &mut Vec<RouteVariantID>, id: RouteVariantID)
    requires
        increasing_ids(old(ids)@),
    ensures
        increasing_ids(final(ids)@),
        forall|x: RouteVariantID| final(ids)@.contains(x) <==> (old(ids)@.contains(x) || x == id),
{
    let mut i: usize = 0;
    while i < ids.len() && ids[i].0 < id.0
        invariant
            i <= ids@.len(),
            ids@ == old(ids)@,
            forall|k: int| 0 <= k < i ==> (#[trigger] ids@[k]).0 < id.0,
        decreases ids@.len() - i,
    {
        i += 1;
    }
    if i < ids.len() && ids[i].0 == id.0 {
        assert(ids@.contains(id)) by {
            assert(ids@[i as int] == id);
        }
        return;
    }
    let ghost before = ids@;
    ids.insert(i, id);
    proof {
        assert forall|a: int, b: int| 0 <= a < b < ids@.len() implies (#[trigger] ids@[a]).0 < (#[trigger] ids@[b]).0 by {
            if b < i {
                assert(ids@[a] == before[a] && ids@[b] == before[b]);
            } else if b == i {
                assert(ids@[a] == before[a]);
            } else if a == i {
                assert(ids@[b] == before[b - 1]);
            } else if a < i {
                assert(ids@[a] == before[a] && ids@[b] == before[b - 1]);
            } else {
                assert(ids@[a] == before[a - 1] && ids@[b] == before[b - 1]);
            }
        }
        assert(before == old(ids)@);
        assert forall|x: RouteVariantID| #[trigger] ids@.contains(x) <==> (before.contains(x) || x == id) by {
            if ids@.contains(x) {
                let k = choose|k: int| 0 <= k < ids@.len() && ids@[k] == x;
                if k < i {
                    assert(before[k] == x);
                } else if k > i {
                    assert(before[k - 1] == x);
                }
            }
            if before.contains(x) {
                let k = choose|k: int| 0 <= k < before.len() && before[k] == x;
                if k < i {
                    assert(ids@[k] == x);
                } else {
                    assert(ids@[k + 1] == x);
                }
            }
            if x == id {
                assert(ids@[i as int] == x);
            }
        }
    }
}

impl GTFS {
    /// The variants running on the filtered days with at least the minimum number of trips, and
    /// whose description contains the filter's text (any description, when the text is empty).
    /// In increasing order.
    pub fn variants_matching_filter(&self, filter: &VariantFilter) -> (r: Vec<RouteVariantID>)
        requires
            self.wf(),
        ensures
            increasing_ids(r@),
            forall|id: RouteVariantID|
                r@.contains(id) <==> exists|i: int, j: int|
                    is_variant_at(self.routes@, i, j) && (#[trigger] variant_at(self.routes@, i, j)).variant_id == id
                        && passes_filter(
                        *self,
                        variant_at(self.routes@, i, j),
                        *filter,
                        crate::vehicle_to_routes::matching_services(self.calendar, filter.date_filter),
                    ),
    {
        let services = self.calendar.services_matching_dates(&filter.date_filter);
        let ghost matching = crate::vehicle_to_routes::matching_services(self.calendar, filter.date_filter);
        assert(key_set(services@) =~= matching);
        let check_text = filter.description_substring.unicode_len() > 0;
        let mut r: Vec<RouteVariantID> = Vec::new();
        let mut i: usize = 0;
        while i < self.routes.len()
            invariant
                self.wf(),
                strictly_sorted(services@),
                key_set(services@) == matching,
                matching == crate::vehicle_to_routes::matching_services(self.calendar, filter.date_filter),
                check_text == (filter.description_substring@.len() > 0),
                i <= self.routes@.len(),
                increasing_ids(r@),
                forall|id: RouteVariantID|
                    r@.contains(id) <==> exists|a: int, b: int|
                        0 <= a < i && is_variant_at(self.routes@, a, b) && (#[trigger] variant_at(self.routes@, a, b)).variant_id
                            == id && passes_filter(*self, variant_at(self.routes@, a, b), *filter, matching),
            decreases self.routes@.len() - i,
        {
            let route = &self.routes[i];
            let mut j: usize = 0;
            while j < route.variants.len()
                invariant
                    self.wf(),
                    strictly_sorted(services@),
                    key_set(services@) == matching,
                    matching == crate::vehicle_to_routes::matching_services(self.calendar, filter.date_filter),
                    check_text == (filter.description_substring@.len() > 0),
                    i < self.routes@.len(),
                    *route == self.routes@[i as int],
                    j <= route.variants@.len(),
                    increasing_ids(r@),
                    forall|id: RouteVariantID|
                        r@.contains(id) <==> exists|a: int, b: int|
                            ((0 <= a < i) || (a == i && 0 <= b < j)) && is_variant_at(self.routes@, a, b)
                                && (#[trigger] variant_at(self.routes@, a, b)).variant_id == id && passes_filter(
                                *self,
                                variant_at(self.routes@, a, b),
                                *filter,
                                matching,
                            ),
                decreases route.variants@.len() - j,
            {
                let variant = &route.variants[j];
                assert(*variant == variant_at(self.routes@, i as int, j as int));
                let running = search_sorted(&services, variant.service_id.0.as_str()).is_ok();
                let mut keep = running && variant.trips.len() >= filter.minimum_trips_per_day;
                if keep && check_text {
                    assert(self.routes@[i as int].key_text() == variant.route_id.0@);
                    assert(has_key(self.routes@, variant.route_id.0@));
                    assert(has_key(services@, variant.service_id.0@));
                    assert(key_set(services@).contains(variant.service_id.0@));
                    assert(has_key(self.calendar.services@, variant.service_id.0@));
                    let text = variant.describe(self);
                    keep = find_text(text.as_str(), filter.description_substring.as_str());
                }
                assert(keep == passes_filter(*self, *variant, *filter, matching));
                let ghost before = r@;
                if keep {
                    insert_id(&mut r, variant.variant_id);
                }
                proof {
                    assert forall|id: RouteVariantID|
                        r@.contains(id) <==> exists|a: int, b: int|
                            ((0 <= a < i) || (a == i && 0 <= b < j + 1)) && is_variant_at(self.routes@, a, b)
                                && (#[trigger] variant_at(self.routes@, a, b)).variant_id == id && passes_filter(
                                *self,
                                variant_at(self.routes@, a, b),
                                *filter,
                                matching,
                            ) by {
                        if r@.contains(id) && !before.contains(id) {
                            assert(variant_at(self.routes@, i as int, j as int).variant_id == id);
                        }
                        if exists|a: int, b: int|
                            ((0 <= a < i) || (a == i && 0 <= b < j + 1)) && is_variant_at(self.routes@, a, b)
                                && (#[trigger] variant_at(self.routes@, a, b)).variant_id == id && passes_filter(
                                *self,
                                variant_at(self.routes@, a, b),
                                *filter,
                                matching,
                            ) {
                            let (a, b) = choose|a: int, b: int|
                                ((0 <= a < i) || (a == i && 0 <= b < j + 1)) && is_variant_at(self.routes@, a, b)
                                    && (#[trigger] variant_at(self.routes@, a, b)).variant_id == id && passes_filter(
                                    *self,
                                    variant_at(self.routes@, a, b),
                                    *filter,
                                    matching,
                                );
                            if a == i && b == j {
                                assert(r@.contains(id));
                            } else {
                                assert(before.contains(id));
                            }
                        }
                    }
                }
                j += 1;
            }
            proof {
                assert forall|id: RouteVariantID|
                    r@.contains(id) <==> exists|a: int, b: int|
                        0 <= a < i + 1 && is_variant_at(self.routes@, a, b) && (#[trigger] variant_at(self.routes@, a, b)).variant_id
                            == id && passes_filter(*self, variant_at(self.routes@, a, b), *filter, matching) by {
                    if r@.contains(id) {
                        let (a, b) = choose|a: int, b: int|
                            ((0 <= a < i) || (a == i && 0 <= b < j)) && is_variant_at(self.routes@, a, b)
                                && (#[trigger] variant_at(self.routes@, a, b)).variant_id == id && passes_filter(
                                *self,
                                variant_at(self.routes@, a, b),
                                *filter,
                                matching,
                            );
                    }
                    if exists|a: int, b: int|
                        0 <= a < i + 1 && is_variant_at(self.routes@, a, b) && (#[trigger] variant_at(self.routes@, a, b)).variant_id
                            == id && passes_filter(*self, variant_at(self.routes@, a, b), *filter, matching) {
                        let (a, b) = choose|a: int, b: int|
                            0 <= a < i + 1 && is_variant_at(self.routes@, a, b) && (#[trigger] variant_at(self.routes@, a, b)).variant_id
                                == id && passes_filter(*self, variant_at(self.routes@, a, b), *filter, matching);
                        assert(((0 <= a < i) || (a == i && 0 <= b < j)));
                    }
                }
            }
            i += 1;
        }
        r
    }
}

/// What the schedule's well-formedness says of the variant identified by `id`.
pub proof fn variant_spec_facts(g: GTFS, id: RouteVariantID)
    requires
        g.wf(),
        has_variant(g.routes@, id),
    ensures
        g.variant_spec(id).variant_id == id,
        g.variant_spec(id).trips@.len() > 0,
        forall|k: int| 0 <= k < g.variant_spec(id).trips@.len() ==> (#[trigger] g.variant_spec(id).trips@[k]).stop_times@.len() > 0,
        g.variant_spec(id).route_id.0@ == g.parent_spec(id).route_id.0@,
        exists|i: int| 0 <= i < g.routes@.len() && g.routes@[i] == g.parent_spec(id),
{
    let (i, j) = choose|i: int, j: int|
        is_variant_at(g.routes@, i, j) && (#[trigger] variant_at(g.routes@, i, j)).variant_id == id;
    assert(g.variant_spec(id) == variant_at(g.routes@, i, j));
    assert(g.parent_spec(id) == g.routes@[i]);
    assert forall|k: int| 0 <= k < g.variant_spec(id).trips@.len() implies (#[trigger] g.variant_spec(id).trips@[k]).stop_times@.len() > 0 by {
        assert(variant_at(g.routes@, i, j).trips@[k].stop_times@.len() > 0);
    }
}

/// Two strictly increasing lists of identifiers with the same elements are the same list.
pub proof fn increasing_ids_unique(a: Seq<RouteVariantID>, b: Seq<RouteVariantID>)
    requires
        increasing_ids(a),
        increasing_ids(b),
        forall|x: RouteVariantID| a.contains(x) <==> b.contains(x),
    ensures
        a == b,
    decreases a.len(),
{
    if a.len() == 0 {
        if b.len() > 0 {
            assert(b.contains(b[0]));
        }
        assert(a =~= b);
    } else {
        assert(a.contains(a[0]));
        let k = choose|k: int| 0 <= k < b.len() && b[k] == a[0];
        assert(b.contains(b[0]));
        let m = choose|m: int| 0 <= m < a.len() && a[m] == b[0];
        if k > 0 {
            assert(b[0].0 < b[k].0);
            if m > 0 {
                assert(a[0].0 < a[m].0);
            }
        }
        assert(b[0] == a[0]);
        let a2 = a.drop_first();
        let b2 = b.drop_first();
        assert forall|x: RouteVariantID| a2.contains(x) <==> b2.contains(x) by {
            if a2.contains(x) {
                let p = choose|p: int| 0 <= p < a2.len() && a2[p] == x;
                assert(a[p + 1] == x);
                assert(a.contains(x));
                let q = choose|q: int| 0 <= q < b.len() && b[q] == x;
                if q == 0 {
                    assert(a[0].0 < a[p + 1].0);
                }
                assert(b2[q - 1] == x);
            }
            if b2.contains(x) {
                let p = choose|p: int| 0 <= p < b2.len() && b2[p] == x;
                assert(b[p + 1] == x);
                assert(b.contains(x));
                let q = choose|q: int| 0 <= q < a.len() && a[q] == x;
                if q == 0 {
                    assert(b[0].0 < b[p + 1].0);
                }
                assert(a2[q - 1] == x);
            }
        }
        increasing_ids_unique(a2, b2);
        assert(a =~= seq![a[0]] + a2);
        assert(b =~= seq![b[0]] + b2);
    }
}

impl GTFS {
    /// The variants whose service runs on the filtered days, in increasing order.
    pub fn variants_matching_dates(&self, filter: &DateFilter) -> (r: Vec<RouteVariantID>)
        requires
            self.wf(),
        ensures
            increasing_ids(r@),
            forall|id: RouteVariantID|
                r@.contains(id) <==> exists|i: int, j: int|
                    is_variant_at(self.routes@, i, j) && (#[trigger] variant_at(self.routes@, i, j)).variant_id == id
                        && crate::vehicle_to_routes::matching_services(self.calendar, *filter).contains(
                        variant_at(self.routes@, i, j).service_id.0@,
                    ),
    {
        let all_days = VariantFilter {
            date_filter: *filter,
            minimum_trips_per_day: 0,
            description_substring: String::new(),
        };
        assert(all_days.description_substring@ =~= Seq::<char>::empty());
        let r = self.variants_matching_filter(&all_days);
        proof {
            let services = crate::vehicle_to_routes::matching_services(self.calendar, *filter);
            assert forall|v: RouteVariant| #[trigger] passes_filter(*self, v, all_days, services) == services.contains(
                v.service_id.0@,
            ) by {}
        }
        r
    }
}

} // verus!
