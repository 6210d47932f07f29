//! Grouping a route's trips into variants.

use vstd::prelude::*;

use crate::calendar::ServiceID;
use crate::ids::StopID;
use crate::routes::{Route, RouteID, RouteVariant, RouteVariantID, ShapeID};
use crate::sort::{key_fn, stable_sort, stable_sorted_by, stable_sorted_contains, stable_sorted_is_sorted_permutation, SortKey};
use crate::stop_times::StopTime;
use crate::text::{
    compare_text, copy_opt_text, text_lt, text_lt_irreflexive, text_lt_total, text_lt_transitive, TextOrder,
};
use crate::trips::Trip;

verus! {

/// What groups trips into one variant: the stops visited, the headsign, the service and the shape.
pub ghost struct VariantKey {
    pub stops: Seq<StopID>,
    pub headsign: Option<Seq<char>>,
    pub service: Seq<char>,
    pub shape: Seq<char>,
}

/// The stops a trip visits, in order.
pub open spec fn trip_stops(t: Trip) -> Seq<StopID> {
    t.stop_times@.map_values(|st: StopTime| st.stop_id)
}

/// The text of an optional text.
pub open spec fn opt_view(o: Option<String>) -> Option<Seq<char>> {
    match o {
        Some(s) => Some(s@),
        None => None,
    }
}

/// The variant a trip belongs to.
pub open spec fn trip_key(t: Trip) -> VariantKey {
    VariantKey { stops: trip_stops(t), headsign: opt_view(t.headsign), service: t.service_id.0@, shape: t.shape_id.0@ }
}

/// `a` and `b` agree on their first `n` stops.
pub open spec fn stops_agree(a: Seq<StopID>, b: Seq<StopID>, n: int) -> bool {
    forall|j: int| 0 <= j < n ==> a[j] == b[j]
}

/// Lexicographic order on stop sequences, by stop number; a proper prefix comes first.
pub open spec fn stops_lt(a: Seq<StopID>, b: Seq<StopID>) -> bool {
    (exists|i: int| 0 <= i < a.len() && i < b.len() && stops_agree(a, b, i) && a[i].0 < b[i].0) || (a.len()
        < b.len() && stops_agree(a, b, a.len() as int))
}

/// No text comes before none; texts compare as texts.
pub open spec fn opt_text_lt(a: Option<Seq<char>>, b: Option<Seq<char>>) -> bool {
    match (a, b) {
        (None, Some(_)) => true,
        (Some(x), Some(y)) => text_lt(x, y),
        _ => false,
    }
}

/// The order of variant keys: by stops, then headsign, then service, then shape.
pub open spec fn key_lt(a: VariantKey, b: VariantKey) -> bool {
    ||| stops_lt(a.stops, b.stops)
    ||| a.stops == b.stops && opt_text_lt(a.headsign, b.headsign)
    ||| a.stops == b.stops && a.headsign == b.headsign && text_lt(a.service, b.service)
    ||| a.stops == b.stops && a.headsign == b.headsign && a.service == b.service && text_lt(a.shape, b.shape)
}

proof fn stops_lt_irreflexive(a: Seq<StopID>)
    ensures
        !stops_lt(a, a),
{
}

proof fn stops_lt_transitive(a: Seq<StopID>, b: Seq<StopID>, c: Seq<StopID>)
    requires
        stops_lt(a, b),
        stops_lt(b, c),
    ensures
        stops_lt(a, c),
{
    if exists|i: int| 0 <= i < a.len() && i < b.len() && stops_agree(a, b, i) && a[i].0 < b[i].0 {
        let i = choose|i: int| 0 <= i < a.len() && i < b.len() && stops_agree(a, b, i) && a[i].0 < b[i].0;
        if exists|j: int| 0 <= j < b.len() && j < c.len() && stops_agree(b, c, j) && b[j].0 < c[j].0 {
            let j = choose|j: int| 0 <= j < b.len() && j < c.len() && stops_agree(b, c, j) && b[j].0 < c[j].0;
            let k = if i < j { i } else { j };
            assert(stops_agree(a, c, k));
        } else {
            assert(stops_agree(a, c, i));
        }
    } else {
        if exists|j: int| 0 <= j < b.len() && j < c.len() && stops_agree(b, c, j) && b[j].0 < c[j].0 {
            let j = choose|j: int| 0 <= j < b.len() && j < c.len() && stops_agree(b, c, j) && b[j].0 < c[j].0;
            if j < a.len() {
                assert(stops_agree(a, c, j));
            } else {
                assert(stops_agree(a, c, a.len() as int));
            }
        } else {
            assert(stops_agree(a, c, a.len() as int));
        }
    }
}

proof fn stops_lt_total(a: Seq<StopID>, b: Seq<StopID>)
    ensures
        stops_lt(a, b) || a == b || stops_lt(b, a),
    decreases a.len(),
{
    if a.len() > 0 && b.len() > 0 {
        if a[0].0 < b[0].0 {
            assert(stops_agree(a, b, 0));
        } else if b[0].0 < a[0].0 {
            assert(stops_agree(b, a, 0));
        } else {
            stops_lt_total(a.drop_first(), b.drop_first());
            let a2 = a.drop_first();
            let b2 = b.drop_first();
            assert(a[0] == b[0]);
            assert forall|k: int| 0 <= k < a2.len() && k < b2.len() && a2[k] == b2[k] implies a[k + 1] == b[k + 1] by {
            }
            if stops_lt(a2, b2) {
                if exists|i: int| 0 <= i < a2.len() && i < b2.len() && stops_agree(a2, b2, i) && a2[i].0 < b2[i].0 {
                    let i = choose|i: int| 0 <= i < a2.len() && i < b2.len() && stops_agree(a2, b2, i) && a2[i].0 < b2[i].0;
                    assert forall|j: int| 0 <= j < i + 1 implies a[j] == b[j] by {
                        if j > 0 {
                            assert(a2[j - 1] == b2[j - 1]);
                        }
                    }
                    assert(stops_agree(a, b, i + 1));
                    assert(a[i + 1] == a2[i] && b[i + 1] == b2[i]);
                } else {
                    assert forall|j: int| 0 <= j < a.len() implies a[j] == b[j] by {
                        if j > 0 {
                            assert(a2[j - 1] == b2[j - 1]);
                        }
                    }
                    assert(stops_agree(a, b, a.len() as int));
                }
            } else if stops_lt(b2, a2) {
                if exists|i: int| 0 <= i < b2.len() && i < a2.len() && stops_agree(b2, a2, i) && b2[i].0 < a2[i].0 {
                    let i = choose|i: int| 0 <= i < b2.len() && i < a2.len() && stops_agree(b2, a2, i) && b2[i].0 < a2[i].0;
                    assert forall|j: int| 0 <= j < i + 1 implies b[j] == a[j] by {
                        if j > 0 {
                            assert(b2[j - 1] == a2[j - 1]);
                        }
                    }
                    assert(stops_agree(b, a, i + 1));
                    assert(a[i + 1] == a2[i] && b[i + 1] == b2[i]);
                } else {
                    assert forall|j: int| 0 <= j < b.len() implies b[j] == a[j] by {
                        if j > 0 {
                            assert(b2[j - 1] == a2[j - 1]);
                        }
                    }
                    assert(stops_agree(b, a, b.len() as int));
                }
            } else {
                assert(a =~= b) by {
                    assert(a[0] == b[0]);
                    assert forall|k: int| 0 <= k < a.len() implies a[k] == b[k] by {
                        if k > 0 {
                            assert(a[k] == a2[k - 1]);
                            assert(b[k] == b2[k - 1]);
                        }
                    }
                }
            }
        }
    } else if a.len() == 0 && b.len() > 0 {
        assert(stops_agree(a, b, 0));
    } else if b.len() == 0 && a.len() > 0 {
        assert(stops_agree(b, a, 0));
    } else {
        assert(a =~= b);
    }
}

/// No key comes before itself.
pub proof fn key_lt_irreflexive(a: VariantKey)
    ensures
        !key_lt(a, a),
{
    stops_lt_irreflexive(a.stops);
    text_lt_irreflexive(a.service);
    text_lt_irreflexive(a.shape);
    if let Some(h) = a.headsign {
        text_lt_irreflexive(h);
    }
}

/// The order of keys is transitive.
pub proof fn key_lt_transitive(a: VariantKey, b: VariantKey, c: VariantKey)
    requires
        key_lt(a, b),
        key_lt(b, c),
    ensures
        key_lt(a, c),
{
    if stops_lt(a.stops, b.stops) && stops_lt(b.stops, c.stops) {
        stops_lt_transitive(a.stops, b.stops, c.stops);
    }
    if a.stops == b.stops && b.stops == c.stops {
        if a.headsign == b.headsign && b.headsign == c.headsign {
            if a.service == b.service && b.service == c.service {
                text_lt_transitive(a.shape, b.shape, c.shape);
            } else if text_lt(a.service, b.service) && text_lt(b.service, c.service) {
                text_lt_transitive(a.service, b.service, c.service);
            }
        } else if opt_text_lt(a.headsign, b.headsign) && opt_text_lt(b.headsign, c.headsign) {
            if let (Some(x), Some(y), Some(z)) = (a.headsign, b.headsign, c.headsign) {
                text_lt_transitive(x, y, z);
            }
        }
    }
}

/// Any two keys compare one way or the other, or are the same.
pub proof fn key_lt_total(a: VariantKey, b: VariantKey)
    ensures
        key_lt(a, b) || a == b || key_lt(b, a),
{
    stops_lt_total(a.stops, b.stops);
    text_lt_total(a.service, b.service);
    text_lt_total(a.shape, b.shape);
    if let (Some(x), Some(y)) = (a.headsign, b.headsign) {
        text_lt_total(x, y);
    }
}

/// Does the first list of stops come first?
fn compare_stops(a: &Vec<StopTime>, b: &Vec<StopTime>) -> (r: TextOrder)
    ensures
        r == TextOrder::Before <==> stops_lt(a@.map_values(|st: StopTime| st.stop_id), b@.map_values(|st: StopTime| st.stop_id)),
        r == TextOrder::Same <==> a@.map_values(|st: StopTime| st.stop_id) == b@.map_values(|st: StopTime| st.stop_id),
        r == TextOrder::After <==> stops_lt(b@.map_values(|st: StopTime| st.stop_id), a@.map_values(|st: StopTime| st.stop_id)),
{
    let ghost sa = a@.map_values(|st: StopTime| st.stop_id);
    let ghost sb = b@.map_values(|st: StopTime| st.stop_id);
    proof {
        stops_lt_total(sa, sb);
        stops_lt_irreflexive(sa);
        if stops_lt(sa, sb) && stops_lt(sb, sa) {
            stops_lt_transitive(sa, sb, sa);
        }
    }
    let mut i: usize = 0;
    while i < a.len() && i < b.len()
        invariant
            i <= a@.len(),
            i <= b@.len(),
            sa == a@.map_values(|st: StopTime| st.stop_id),
            sb == b@.map_values(|st: StopTime| st.stop_id),
            stops_agree(sa, sb, i as int),
        decreases a@.len() - i,
    {
        let x = a[i].stop_id.0;
        let y = b[i].stop_id.0;
        if x < y {
            assert(sa[i as int].0 < sb[i as int].0);
            return TextOrder::Before;
        }
        if y < x {
            assert(stops_agree(sb, sa, i as int));
            assert(sb[i as int].0 < sa[i as int].0);
            return TextOrder::After;
        }
        assert(sa[i as int] == sb[i as int]);
        i += 1;
    }
    if a.len() < b.len() {
        TextOrder::Before
    } else if b.len() < a.len() {
        assert(stops_agree(sb, sa, sb.len() as int));
        TextOrder::After
    } else {
        assert(sa =~= sb);
        TextOrder::Same
    }
}

/// Compares two optional texts, none first.
fn compare_opt_text(a: &Option<String>, b: &Option<String>) -> (r: TextOrder)
    ensures
        r == TextOrder::Before <==> opt_text_lt(opt_view(*a), opt_view(*b)),
        r == TextOrder::Same <==> opt_view(*a) == opt_view(*b),
        r == TextOrder::After <==> opt_text_lt(opt_view(*b), opt_view(*a)),
{
    match (a, b) {
        (None, None) => TextOrder::Same,
        (None, Some(_)) => TextOrder::Before,
        (Some(_), None) => TextOrder::After,
        (Some(x), Some(y)) => compare_text(x.as_str(), y.as_str()),
    }
}

/// Compares the variant keys of two trips.
fn compare_trip_keys(a: &Trip, b: &Trip) -> (r: TextOrder)
    ensures
        r == TextOrder::Before <==> key_lt(trip_key(*a), trip_key(*b)),
        r == TextOrder::Same <==> trip_key(*a) == trip_key(*b),
        r == TextOrder::After <==> key_lt(trip_key(*b), trip_key(*a)),
{
    proof {
        key_lt_irreflexive(trip_key(*a));
        key_lt_total(trip_key(*a), trip_key(*b));
        if key_lt(trip_key(*a), trip_key(*b)) && key_lt(trip_key(*b), trip_key(*a)) {
            key_lt_transitive(trip_key(*a), trip_key(*b), trip_key(*a));
        }
    }
    let s = compare_stops(&a.stop_times, &b.stop_times);
    if s != TextOrder::Same {
        return s;
    }
    let h = compare_opt_text(&a.headsign, &b.headsign);
    if h != TextOrder::Same {
        return h;
    }
    let v = compare_text(a.service_id.0.as_str(), b.service_id.0.as_str());
    if v != TextOrder::Same {
        return v;
    }
    compare_text(a.shape_id.0.as_str(), b.shape_id.0.as_str())
}

impl SortKey for Trip {
    open spec fn key(&self) -> int {
        if self.stop_times@.len() == 0 {
            0
        } else {
            self.stop_times@[0].arrival_time.ms()
        }
    }

    fn key_of(&self) -> (k: i128) {
        if self.stop_times.len() == 0 {
            0
        } else {
            self.stop_times[0].arrival_time.0 as i128
        }
    }
}

/// The trips with key `k`, in order.
pub open spec fn trips_with_key(trips: Seq<Trip>, k: VariantKey) -> Seq<Trip>
    decreases trips.len(),
{
    if trips.len() == 0 {
        Seq::empty()
    } else if trip_key(trips.last()) == k {
        trips_with_key(trips.drop_last(), k).push(trips.last())
    } else {
        trips_with_key(trips.drop_last(), k)
    }
}

/// The keys strictly increase.
pub open spec fn keys_increasing(ks: Seq<VariantKey>) -> bool {
    forall|a: int, b: int| 0 <= a < b < ks.len() ==> key_lt(#[trigger] ks[a], #[trigger] ks[b])
}

/// `ks` lists the keys of `trips`, each once, in increasing order.
pub open spec fn lists_keys_of(ks: Seq<VariantKey>, trips: Seq<Trip>) -> bool {
    &&& keys_increasing(ks)
    &&& forall|k: VariantKey| ks.contains(k) <==> exists|i: int| 0 <= i < trips.len() && trip_key(#[trigger] trips[i]) == k
}

/// The distinct keys of `trips`, in increasing order.
pub open spec fn variant_keys(trips: Seq<Trip>) -> Seq<VariantKey> {
    choose|ks: Seq<VariantKey>| lists_keys_of(ks, trips)
}

/// A variant made of the trips of `trips` with key `k`: identified by `id`, on route `route_id`,
/// its trips sorted by their first arrival, keeping their order on ties.
pub open spec fn variant_from_group(v: RouteVariant, route_id: RouteID, id: nat, k: VariantKey, trips: Seq<Trip>) -> bool {
    &&& v.route_id == route_id
    &&& v.variant_id.0 == id
    &&& v.trips@ == stable_sorted_by(trips_with_key(trips, k), key_fn::<Trip>())
    &&& opt_view(v.headsign) == k.headsign
    &&& v.service_id.0@ == k.service
    &&& v.shape_id.0@ == k.shape
}

/// Every trip with key `k` has key `k`.
proof fn trips_with_key_have_key(trips: Seq<Trip>, k: VariantKey)
    ensures
        forall|j: int| 0 <= j < trips_with_key(trips, k).len() ==> trip_key(#[trigger] trips_with_key(trips, k)[j]) == k,
        trips_with_key(trips, k).len() <= trips.len(),
    decreases trips.len(),
{
    if trips.len() > 0 {
        trips_with_key_have_key(trips.drop_last(), k);
    }
}

/// A trip is among the trips with its own key.
proof fn trip_with_its_key(trips: Seq<Trip>, i: int)
    requires
        0 <= i < trips.len(),
    ensures
        trips_with_key(trips, trip_key(trips[i])).contains(trips[i]),
    decreases trips.len(),
{
    let k = trip_key(trips[i]);
    if i == trips.len() - 1 {
        let w = trips_with_key(trips, k);
        assert(w[w.len() - 1] == trips[i]);
    } else {
        trip_with_its_key(trips.drop_last(), i);
        let rest = trips_with_key(trips.drop_last(), k);
        let p = choose|p: int| 0 <= p < rest.len() && rest[p] == trips[i];
        if trip_key(trips.last()) == k {
            assert(rest.push(trips.last())[p] == trips[i]);
        }
    }
}

/// Grouping a route's trips into variants puts every trip in exactly one variant: the one of its
/// combination of stops, headsign, service and shape.
pub proof fn each_trip_in_one_variant(variants: Seq<RouteVariant>, route_id: RouteID, first: nat, trips: Seq<Trip>, i: int)
    requires
        variants.len() == variant_keys(trips).len(),
        lists_keys_of(variant_keys(trips), trips),
        forall|j: int|
            0 <= j < variants.len() ==> variant_from_group(
                #[trigger] variants[j],
                route_id,
                (first + j) as nat,
                variant_keys(trips)[j],
                trips,
            ),
        0 <= i < trips.len(),
    ensures
        exists|j: int| 0 <= j < variants.len() && (#[trigger] variants[j]).trips@.contains(trips[i]),
        forall|a: int, b: int|
            0 <= a < variants.len() && 0 <= b < variants.len() && (#[trigger] variants[a]).trips@.contains(trips[i])
                && (#[trigger] variants[b]).trips@.contains(trips[i]) ==> a == b,
{
    broadcast use vstd::seq_lib::group_to_multiset_ensures;
    let ks = variant_keys(trips);
    let x = trips[i];
    let k = trip_key(x);
    assert(ks.contains(k));
    let j = choose|j: int| 0 <= j < ks.len() && ks[j] == k;
    assert(variant_from_group(variants[j], route_id, (first + j) as nat, ks[j], trips));
    trip_with_its_key(trips, i);
    stable_sorted_is_sorted_permutation(trips_with_key(trips, k), key_fn::<Trip>());
    assert(trips_with_key(trips, k).to_multiset().count(x) > 0);
    assert(variants[j].trips@.contains(x));
    assert forall|a: int, b: int|
        0 <= a < variants.len() && 0 <= b < variants.len() && (#[trigger] variants[a]).trips@.contains(x)
            && (#[trigger] variants[b]).trips@.contains(x) implies a == b by {
        assert(variant_from_group(variants[a], route_id, (first + a) as nat, ks[a], trips));
        assert(variant_from_group(variants[b], route_id, (first + b) as nat, ks[b], trips));
        stable_sorted_contains(trips_with_key(trips, ks[a]), key_fn::<Trip>(), x);
        stable_sorted_contains(trips_with_key(trips, ks[b]), key_fn::<Trip>(), x);
        trips_with_key_have_key(trips, ks[a]);
        trips_with_key_have_key(trips, ks[b]);
        let pa = choose|p: int| 0 <= p < trips_with_key(trips, ks[a]).len() && trips_with_key(trips, ks[a])[p] == x;
        let pb = choose|p: int| 0 <= p < trips_with_key(trips, ks[b]).len() && trips_with_key(trips, ks[b])[p] == x;
        assert(ks[a] == k && ks[b] == k);
        if a < b {
            assert(key_lt(ks[a], ks[b]));
            key_lt_irreflexive(k);
        } else if b < a {
            assert(key_lt(ks[b], ks[a]));
            key_lt_irreflexive(k);
        }
    }
}

/// Only one list gives the keys of some trips in increasing order.
proof fn keys_list_unique(a: Seq<VariantKey>, b: Seq<VariantKey>, trips: Seq<Trip>)
    requires
        keys_increasing(a),
        keys_increasing(b),
        forall|k: VariantKey| a.contains(k) <==> b.contains(k),
    ensures
        a == b,
    decreases a.len(),
{
    if a.len() == 0 {
        if b.len() > 0 {
            assert(b.contains(b[0]));
        }
        assert(a =~= b);
    } else {
        assert(a.contains(a[0]));
        let k = choose|k: int| 0 <= k < b.len() && b[k] == a[0];
        assert(b.contains(b[0]));
        let m = choose|m: int| 0 <= m < a.len() && a[m] == b[0];
        if k > 0 {
            assert(key_lt(b[0], b[k]));
            if m > 0 {
                assert(key_lt(a[0], a[m]));
                key_lt_transitive(a[0], b[0], a[0]);
            }
            key_lt_irreflexive(a[0]);
        }
        let a2 = a.drop_first();
        let b2 = b.drop_first();
        assert forall|x: VariantKey| a2.contains(x) <==> b2.contains(x) by {
            if a2.contains(x) {
                let p = choose|p: int| 0 <= p < a2.len() && a2[p] == x;
                assert(a[p + 1] == x);
                assert(a.contains(x));
                let q = choose|q: int| 0 <= q < b.len() && b[q] == x;
                if q == 0 {
                    assert(key_lt(a[0], a[p + 1]));
                    key_lt_irreflexive(x);
                }
                assert(b2[q - 1] == x);
            }
            if b2.contains(x) {
                let p = choose|p: int| 0 <= p < b2.len() && b2[p] == x;
                assert(b[p + 1] == x);
                assert(b.contains(x));
                let q = choose|q: int| 0 <= q < a.len() && a[q] == x;
                if q == 0 {
                    assert(key_lt(b[0], b[p + 1]));
                    key_lt_irreflexive(x);
                }
                assert(a2[q - 1] == x);
            }
        }
        keys_list_unique(a2, b2, trips);
        assert(a =~= seq![a[0]] + a2);
        assert(b =~= seq![b[0]] + b2);
    }
}

/// Groups a route's trips into variants, one per distinct combination of stops, headsign,
/// service and shape, in increasing order of that combination; each variant's trips are sorted
/// by their first arrival. The variants are appended to the route, numbered from `id_counter`
/// on, which is advanced past them.
pub fn group_variants(id_counter: &mut usize, route: &mut Route, trips: Vec<Trip>)
    requires
        *old(id_counter) + trips@.len() <= usize::MAX,
    ensures
        final(route).route_id == old(route).route_id,
        final(route).route_type == old(route).route_type,
        final(route).short_name == old(route).short_name,
        final(route).long_name == old(route).long_name,
        final(route).description == old(route).description,
        final(route).variants@.len() == old(route).variants@.len() + variant_keys(trips@).len(),
        forall|j: int| 0 <= j < old(route).variants@.len() ==> final(route).variants@[j] == old(route).variants@[j],
        forall|k: int|
            0 <= k < variant_keys(trips@).len() ==> variant_from_group(
                #[trigger] final(route).variants@[old(route).variants@.len() + k],
                old(route).route_id,
                (*old(id_counter) + k) as nat,
                variant_keys(trips@)[k],
                trips@,
            ),
        *final(id_counter) == *old(id_counter) + variant_keys(trips@).len(),
        variant_keys(trips@).len() <= trips@.len(),
        lists_keys_of(variant_keys(trips@), trips@),
{
    let ghost input = trips@;
    let mut groups: Vec<Vec<Trip>> = Vec::new();
    let ghost mut ks: Seq<VariantKey> = Seq::empty();
    let mut rest = trips;
    let mut i: usize = 0;
    let total = rest.len();
    while rest.len() > 0
        invariant
            total == input.len(),
            i + rest@.len() == total,
            rest@ == input.subrange(i as int, total as int),
            ks.len() == groups@.len(),
            ks.len() <= i,
            keys_increasing(ks),
            forall|g: int| 0 <= g < groups@.len() ==> (#[trigger] groups@[g])@ == trips_with_key(input.take(i as int), ks[g]),
            forall|g: int| 0 <= g < groups@.len() ==> (#[trigger] groups@[g])@.len() > 0,
            forall|k: VariantKey| ks.contains(k) <==> exists|j: int| 0 <= j < i && trip_key(#[trigger] input[j]) == k,
        decreases rest@.len(),
    {
        let trip = rest.remove(0);
        let ghost tk = trip_key(trip);
        proof {
            assert(trip == input[i as int]);
            assert(rest@ =~= input.subrange(i + 1, total as int));
            assert(input.take(i + 1).drop_last() =~= input.take(i as int));
            assert(input.take(i + 1).last() == trip);
        }
        let mut lo: usize = 0;
        let mut hi: usize = groups.len();
        let mut found = false;
        while lo < hi && !found
            invariant
                0 <= lo <= hi <= groups@.len(),
                ks.len() == groups@.len(),
                keys_increasing(ks),
                forall|g: int| 0 <= g < groups@.len() ==> (#[trigger] groups@[g])@ == trips_with_key(input.take(i as int), ks[g]),
                forall|g: int| 0 <= g < groups@.len() ==> (#[trigger] groups@[g])@.len() > 0,
                !found ==> forall|g: int| 0 <= g < lo ==> key_lt(#[trigger] ks[g], tk),
                !found ==> forall|g: int| hi <= g < groups@.len() ==> key_lt(tk, #[trigger] ks[g]),
                found ==> lo < groups@.len() && ks[lo as int] == tk,
                tk == trip_key(trip),
            decreases hi - lo, (if found { 0int } else { 1int }),
        {
            let mid = lo + (hi - lo) / 2;
            proof {
                trips_with_key_have_key(input.take(i as int), ks[mid as int]);
                assert(trip_key(groups@[mid as int]@[0]) == ks[mid as int]);
            }
            match compare_trip_keys(&groups[mid][0], &trip) {
                TextOrder::Before => {
                    assert forall|g: int| 0 <= g < mid + 1 implies key_lt(#[trigger] ks[g], tk) by {
                        if g < mid {
                            key_lt_transitive(ks[g], ks[mid as int], tk);
                        }
                    }
                    lo = mid + 1;
                },
                TextOrder::Same => {
                    lo = mid;
                    found = true;
                },
                TextOrder::After => {
                    assert forall|g: int| mid <= g < groups@.len() implies key_lt(tk, #[trigger] ks[g]) by {
                        if g > mid {
                            key_lt_transitive(tk, ks[mid as int], ks[g]);
                        }
                    }
                    hi = mid;
                },
            }
        }
        let ghost before = groups@;
        let ghost old_ks = ks;
        if found {
            groups[lo].push(trip);
            proof {
                assert forall|g: int| 0 <= g < groups@.len() implies (#[trigger] groups@[g])@ == trips_with_key(
                    input.take(i + 1),
                    ks[g],
                ) by {
                    if g != lo {
                        assert(groups@[g] == before[g]);
                        if ks[g] == tk {
                            if g < lo {
                                key_lt_irreflexive(tk);
                                assert(key_lt(ks[g], ks[lo as int]));
                            } else {
                                key_lt_irreflexive(tk);
                                assert(key_lt(ks[lo as int], ks[g]));
                            }
                        }
                    }
                }
                assert forall|g: int| 0 <= g < groups@.len() implies (#[trigger] groups@[g])@.len() > 0 by {
                    if g != lo {
                        assert(groups@[g] == before[g]);
                    }
                }
                assert forall|k: VariantKey| ks.contains(k) <==> exists|j: int| 0 <= j < i + 1 && trip_key(#[trigger] input[j]) == k by {
                    if k == tk {
                        assert(ks[lo as int] == k);
                        assert(trip_key(input[i as int]) == k);
                    }
                }
            }
        } else {
            let mut group: Vec<Trip> = Vec::new();
            group.push(trip);
            proof {
                ks = ks.insert(lo as int, tk);
                if exists|j: int| 0 <= j < i && trip_key(#[trigger] input[j]) == tk {
                    assert(old_ks.contains(tk));
                    let g = choose|g: int| 0 <= g < old_ks.len() && old_ks[g] == tk;
                    key_lt_irreflexive(tk);
                    if g < lo {
                        assert(key_lt(old_ks[g], tk));
                    } else {
                        assert(key_lt(tk, old_ks[g]));
                    }
                }
                trips_with_key_have_key(input.take(i as int), tk);
                assert(trips_with_key(input.take(i as int), tk).len() == 0) by {
                    if trips_with_key(input.take(i as int), tk).len() > 0 {
                        let x = trips_with_key(input.take(i as int), tk)[0];
                        assert(trip_key(x) == tk);
                        lemma_member_of_prefix(input.take(i as int), tk);
                    }
                }
                assert(group@ =~= trips_with_key(input.take(i + 1), tk));
            }
            groups.insert(lo, group);
            proof {
                assert forall|a: int, b: int| 0 <= a < b < ks.len() implies key_lt(#[trigger] ks[a], #[trigger] ks[b]) by {
                    if b < lo {
                        assert(ks[a] == old_ks[a] && ks[b] == old_ks[b]);
                    } else if b == lo {
                        assert(ks[a] == old_ks[a]);
                    } else if a == lo {
                        assert(ks[b] == old_ks[b - 1]);
                    } else if a < lo {
                        assert(ks[a] == old_ks[a] && ks[b] == old_ks[b - 1]);
                    } else {
                        assert(ks[a] == old_ks[a - 1] && ks[b] == old_ks[b - 1]);
                    }
                }
                assert forall|g: int| 0 <= g < groups@.len() implies (#[trigger] groups@[g])@ == trips_with_key(
                    input.take(i + 1),
                    ks[g],
                ) by {
                    if g != lo {
                        let og = if g < lo { g } else { g - 1 };
                        assert(groups@[g] == before[og]);
                        assert(ks[g] == old_ks[og]);
                        if old_ks[og] == tk {
                            key_lt_irreflexive(tk);
                        }
                    }
                }
                assert forall|g: int| 0 <= g < groups@.len() implies (#[trigger] groups@[g])@.len() > 0 by {
                    if g < lo {
                        assert(groups@[g] == before[g]);
                    } else if g > lo {
                        assert(groups@[g] == before[g - 1]);
                    }
                }
                assert forall|k: VariantKey| ks.contains(k) <==> exists|j: int| 0 <= j < i + 1 && trip_key(#[trigger] input[j]) == k by {
                    if ks.contains(k) {
                        let g = choose|g: int| 0 <= g < ks.len() && ks[g] == k;
                        if g < lo {
                            assert(old_ks[g] == k);
                            assert(old_ks.contains(k));
                        } else if g > lo {
                            assert(old_ks[g - 1] == k);
                            assert(old_ks.contains(k));
                        } else {
                            assert(trip_key(input[i as int]) == k);
                        }
                    }
                    if exists|j: int| 0 <= j < i + 1 && trip_key(#[trigger] input[j]) == k {
                        if k == tk {
                            assert(ks[lo as int] == k);
                        } else {
                            let j = choose|j: int| 0 <= j < i + 1 && trip_key(#[trigger] input[j]) == k;
                            assert(j < i);
                            assert(old_ks.contains(k));
                            let g = choose|g: int| 0 <= g < old_ks.len() && old_ks[g] == k;
                            if g < lo {
                                assert(ks[g] == k);
                            } else {
                                assert(ks[g + 1] == k);
                            }
                        }
                    }
                }
            }
        }
        i += 1;
    }
    proof {
        assert(input.take(i as int) =~= input);
        assert(lists_keys_of(ks, input));
        let chosen = variant_keys(input);
        keys_list_unique(ks, chosen, input);
    }
    let ghost n0 = route.variants@.len();
    let ghost counter0 = *id_counter;
    let ghost old_route = *route;
    let mut g: usize = 0;
    let group_count = groups.len();
    while g < group_count
        invariant
            group_count == groups@.len(),
            ks.len() == group_count,
            ks == variant_keys(input),
            counter0 + input.len() <= usize::MAX,
            ks.len() <= input.len(),
            g <= group_count,
            *id_counter == counter0 + g,
            forall|q: int| g <= q < group_count ==> (#[trigger] groups@[q])@ == trips_with_key(input, ks[q]),
            forall|q: int| g <= q < group_count ==> (#[trigger] groups@[q])@.len() > 0,
            route.route_id == old_route.route_id,
            route.route_type == old_route.route_type,
            route.short_name == old_route.short_name,
            route.long_name == old_route.long_name,
            route.description == old_route.description,
            route.variants@.len() == n0 + g,
            forall|j: int| 0 <= j < n0 ==> route.variants@[j] == old_route.variants@[j],
            forall|k: int|
                0 <= k < g ==> variant_from_group(
                    #[trigger] route.variants@[n0 + k],
                    old_route.route_id,
                    (counter0 + k) as nat,
                    ks[k],
                    input,
                ),
        decreases group_count - g,
    {
        let mut members: Vec<Trip> = Vec::new();
        let ghost before = groups@;
        std::mem::swap(&mut members, &mut groups[g]);
        proof {
            assert(members@ == before[g as int]@);
            assert forall|q: int| g < q < group_count implies (#[trigger] groups@[q])@ == trips_with_key(input, ks[q]) && groups@[q]@.len() > 0 by {
                assert(groups@[q] == before[q]);
            }
            trips_with_key_have_key(input, ks[g as int]);
        }
        let ghost unsorted = members@;
        let sorted = stable_sort(members);
        proof {
            crate::sort::stable_sorted_is_sorted_permutation(unsorted, key_fn::<Trip>());
            assert(sorted@.contains(sorted@[0]));
            crate::sort::stable_sorted_contains(unsorted, key_fn::<Trip>(), sorted@[0]);
            let p = choose|p: int| 0 <= p < unsorted.len() && unsorted[p] == sorted@[0];
            assert(trip_key(sorted@[0]) == ks[g as int]);
        }
        let headsign = copy_opt_text(&sorted[0].headsign);
        let service_id = ServiceID(sorted[0].service_id.0.clone());
        let shape_id = ShapeID(sorted[0].shape_id.0.clone());
        let variant = RouteVariant {
            route_id: RouteID(route.route_id.0.clone()),
            variant_id: RouteVariantID(*id_counter),
            trips: sorted,
            headsign,
            service_id,
            shape_id,
        };
        assert(variant_from_group(variant, old_route.route_id, (counter0 + g) as nat, ks[g as int], input));
        let ghost before_variants = route.variants@;
        route.variants.push(variant);
        proof {
            assert forall|j: int| 0 <= j < n0 implies route.variants@[j] == old_route.variants@[j] by {
                assert(route.variants@[j] == before_variants[j]);
            }
            assert forall|k: int|
                0 <= k < g + 1 implies variant_from_group(
                    #[trigger] route.variants@[n0 + k],
                    old_route.route_id,
                    (counter0 + k) as nat,
                    ks[k],
                    input,
                ) by {
                if k < g {
                    assert(route.variants@[n0 + k] == before_variants[n0 + k]);
                }
            }
        }
        *id_counter = *id_counter + 1;
        g += 1;
    }
}

/// A trip of a prefix with key `k` means the key occurs in the prefix.
proof fn lemma_member_of_prefix(trips: Seq<Trip>, k: VariantKey)
    requires
        trips_with_key(trips, k).len() > 0,
    ensures
        exists|j: int| 0 <= j < trips.len() && trip_key(#[trigger] trips[j]) == k,
    decreases trips.len(),
{
    if trip_key(trips.last()) == k {
        assert(trip_key(trips[trips.len() - 1]) == k);
    } else {
        lemma_member_of_prefix(trips.drop_last(), k);
        let j = choose|j: int| 0 <= j < trips.drop_last().len() && trip_key(#[trigger] trips.drop_last()[j]) == k;
        assert(trips[j] == trips.drop_last()[j]);
    }
}

} // verus!
