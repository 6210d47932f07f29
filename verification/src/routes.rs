use vstd::prelude::*;
use vstd::string::*;

use crate::calendar::{describe_days, ServiceID};
use crate::format::{debug_text, decimal, rust_debug_text, usize_text};
use crate::ids::StopID;
use crate::text::TextKeyed;
use crate::gtfs::{variant_description, GTFS};
use crate::error::LoadError;
use crate::text::{copy_opt_text, has_key, insert_at_gap_keeps_sorted, keyed_map_at, search_sorted, strictly_sorted};
use crate::trips::Trip;

verus! {

#[derive(Clone, Debug, PartialEq, Eq, PartialOrd, Ord, Hash)]
pub struct RouteID(pub String);

#[derive(Clone, Debug, PartialEq, Eq, PartialOrd, Ord, Hash)]
pub struct ShapeID(pub String);

impl TextKeyed for RouteID {
    open spec fn key_text(&self) -> Seq<char> {
        self.0@
    }

    fn key_str(&self) -> (r: &str) {
        self.0.as_str()
    }
}

/// The kind of vehicle serving a route, as coded in `routes.txt`.
#[derive(Clone, Copy, Debug, PartialEq, Eq, Structural)]
pub enum RouteType {
    Tram,
    Subway,
    Rail,
    Bus,
    Ferry,
    CableTram,
    AerialLift,
    Furnicular,
    Trolleybus,
    Monorail,
}

/// The route type with a given code (0 to 7, 11 and 12).
pub open spec fn route_type_of_code(n: u8) -> Option<RouteType> {
    if n == 0 {
        Some(RouteType::Tram)
    } else if n == 1 {
        Some(RouteType::Subway)
    } else if n == 2 {
        Some(RouteType::Rail)
    } else if n == 3 {
        Some(RouteType::Bus)
    } else if n == 4 {
        Some(RouteType::Ferry)
    } else if n == 5 {
        Some(RouteType::CableTram)
    } else if n == 6 {
        Some(RouteType::AerialLift)
    } else if n == 7 {
        Some(RouteType::Furnicular)
    } else if n == 11 {
        Some(RouteType::Trolleybus)
    } else if n == 12 {
        Some(RouteType::Monorail)
    } else {
        None
    }
}

/// The name of a route type as `Debug` prints it.
pub open spec fn route_type_name(t: RouteType) -> Seq<char> {
    match t {
        RouteType::Tram => "Tram"@,
        RouteType::Subway => "Subway"@,
        RouteType::Rail => "Rail"@,
        RouteType::Bus => "Bus"@,
        RouteType::Ferry => "Ferry"@,
        RouteType::CableTram => "CableTram"@,
        RouteType::AerialLift => "AerialLift"@,
        RouteType::Furnicular => "Furnicular"@,
        RouteType::Trolleybus => "Trolleybus"@,
        RouteType::Monorail => "Monorail"@,
    }
}

impl RouteType {
    /// Every route type, in code order.
    pub fn all() -> (r: Vec<Self>)
        ensures
            r@ == seq![
                RouteType::Tram,
                RouteType::Subway,
                RouteType::Rail,
                RouteType::Bus,
                RouteType::Ferry,
                RouteType::CableTram,
                RouteType::AerialLift,
                RouteType::Furnicular,
                RouteType::Trolleybus,
                RouteType::Monorail,
            ],
    {
        let r = vec![
            RouteType::Tram,
            RouteType::Subway,
            RouteType::Rail,
            RouteType::Bus,
            RouteType::Ferry,
            RouteType::CableTram,
            RouteType::AerialLift,
            RouteType::Furnicular,
            RouteType::Trolleybus,
            RouteType::Monorail,
        ];
        assert(r@ =~= seq![
            RouteType::Tram,
            RouteType::Subway,
            RouteType::Rail,
            RouteType::Bus,
            RouteType::Ferry,
            RouteType::CableTram,
            RouteType::AerialLift,
            RouteType::Furnicular,
            RouteType::Trolleybus,
            RouteType::Monorail,
        ]);
        r
    }

    /// The route type with the given code, if any.
    pub fn from_code(n: u8) -> (r: Option<Self>)
        ensures
            r == route_type_of_code(n),
    {
        if n == 0 {
            Some(RouteType::Tram)
        } else if n == 1 {
            Some(RouteType::Subway)
        } else if n == 2 {
            Some(RouteType::Rail)
        } else if n == 3 {
            Some(RouteType::Bus)
        } else if n == 4 {
            Some(RouteType::Ferry)
        } else if n == 5 {
            Some(RouteType::CableTram)
        } else if n == 6 {
            Some(RouteType::AerialLift)
        } else if n == 7 {
            Some(RouteType::Furnicular)
        } else if n == 11 {
            Some(RouteType::Trolleybus)
        } else if n == 12 {
            Some(RouteType::Monorail)
        } else {
            None
        }
    }

    /// The name `Debug` prints.
    pub fn name(&self) -> (r: String)
        ensures
            r@ == route_type_name(*self),
    {
        match self {
            RouteType::Tram => String::from_str("Tram"),
            RouteType::Subway => String::from_str("Subway"),
            RouteType::Rail => String::from_str("Rail"),
            RouteType::Bus => String::from_str("Bus"),
            RouteType::Ferry => String::from_str("Ferry"),
            RouteType::CableTram => String::from_str("CableTram"),
            RouteType::AerialLift => String::from_str("AerialLift"),
            RouteType::Furnicular => String::from_str("Furnicular"),
            RouteType::Trolleybus => String::from_str("Trolleybus"),
            RouteType::Monorail => String::from_str("Monorail"),
        }
    }
}

/// A route from `routes.txt`, with its trips grouped into variants.
#[derive(Clone, Debug)]
pub struct Route {
    pub route_id: RouteID,
    pub route_type: RouteType,
    pub short_name: Option<String>,
    pub long_name: Option<String>,
    pub description: Option<String>,
    pub variants: Vec<RouteVariant>,
}

impl TextKeyed for Route {
    open spec fn key_text(&self) -> Seq<char> {
        self.route_id.0@
    }

    fn key_str(&self) -> (r: &str) {
        self.route_id.0.as_str()
    }
}

#[derive(Clone, Copy, Debug, PartialEq, Eq, PartialOrd, Ord, Hash, Structural)]
pub struct RouteVariantID(pub usize);

/// The trips of a route that share stops, headsign, service and shape.
#[derive(Clone, Debug)]
pub struct RouteVariant {
    pub route_id: RouteID,
    pub variant_id: RouteVariantID,
    /// Sorted by the arrival at the first stop.
    pub trips: Vec<Trip>,
    pub headsign: Option<String>,
    pub service_id: ServiceID,
    pub shape_id: ShapeID,
}

/// The first name a route has: short, long, description, or else its identifier as `Debug`
/// prints it.
pub open spec fn route_label(r: Route) -> Seq<char> {
    match r.short_name {
        Some(x) => x@,
        None => match r.long_name {
            Some(x) => x@,
            None => match r.description {
                Some(x) => x@,
                None => "RouteID("@ + rust_debug_text(r.route_id.0@) + ")"@,
            },
        },
    }
}

/// How `Route::describe` reads a route: its label and type.
pub open spec fn describe_route(r: Route) -> Seq<char> {
    route_label(r) + " ("@ + route_type_name(r.route_type) + ")"@
}

impl Route {
    pub fn describe(&self) -> (r: String)
        ensures
            r@ == describe_route(*self),
    {
        let mut name = match &self.short_name {
            Some(x) => x.clone(),
            None => match &self.long_name {
                Some(x) => x.clone(),
                None => match &self.description {
                    Some(x) => x.clone(),
                    None => {
                        let mut s = String::from_str("RouteID(");
                        let inner = debug_text(self.route_id.0.as_str());
                        s.append(inner.as_str());
                        s.append(")");
                        s
                    },
                },
            },
        };
        let ty = self.route_type.name();
        name.append(" (");
        name.append(ty.as_str());
        name.append(")");
        name
    }
}

/// The stops of a variant: those of its first trip.
pub open spec fn variant_stops(v: RouteVariant) -> Seq<StopID> {
    v.trips@[0].stop_times@.map_values(|st: crate::stop_times::StopTime| st.stop_id)
}

/// How a variant identifier prints with `Debug`.
pub open spec fn variant_id_text(id: RouteVariantID) -> Seq<char> {
    "RouteVariantID("@ + decimal(id.0 as nat) + ")"@
}

/// How `RouteVariant::describe` reads a variant, given the description of its route and of
/// its service's days.
pub open spec fn describe_variant(v: RouteVariant, route_text: Seq<char>, days_text: Seq<char>) -> Seq<char> {
    let headsign = match v.headsign {
        Some(x) => variant_id_text(v.variant_id) + " ("@ + x@ + ")"@,
        None => variant_id_text(v.variant_id),
    };
    " "@ + route_text + " "@ + headsign + " - "@ + days_text + ", "@ + decimal(v.trips@.len() as nat)
        + " trips"@
}

impl RouteVariant {
    /// The stops of the first trip, in order. The variant must have a trip.
    pub fn stops(&self) -> (r: Vec<StopID>)
        requires
            self.trips@.len() > 0,
        ensures
            r@ == variant_stops(*self),
    {
        let trip = &self.trips[0];
        let mut r: Vec<StopID> = Vec::new();
        let mut i: usize = 0;
        while i < trip.stop_times.len()
            invariant
                i <= trip.stop_times.len(),
                trip == self.trips@[0],
                r@ == trip.stop_times@.take(i as int).map_values(
                    |st: crate::stop_times::StopTime| st.stop_id,
                ),
            decreases trip.stop_times.len() - i,
        {
            r.push(trip.stop_times[i].stop_id);
            i += 1;
            assert(r@ =~= trip.stop_times@.take(i as int).map_values(
                |st: crate::stop_times::StopTime| st.stop_id,
            ));
        }
        assert(trip.stop_times@.take(i as int) =~= trip.stop_times@);
        r
    }

    /// How `Debug` prints the variant's identifier.
    fn id_text(&self) -> (r: String)
        ensures
            r@ == variant_id_text(self.variant_id),
    {
        let mut s = String::from_str("RouteVariantID(");
        let n = usize_text(self.variant_id.0);
        s.append(n.as_str());
        s.append(")");
        s
    }

    /// A one-line description, given the description of the route and of the service's days.
    pub fn describe_with(&self, route_text: &str, days_text: &str) -> (r: String)
        ensures
            r@ == describe_variant(*self, route_text@, days_text@),
    {
        let mut headsign = self.id_text();
        match &self.headsign {
            Some(x) => {
                headsign.append(" (");
                headsign.append(x.as_str());
                headsign.append(")");
            },
            None => {},
        }
        let mut s = String::from_str(" ");
        s.append(route_text);
        s.append(" ");
        s.append(headsign.as_str());
        s.append(" - ");
        s.append(days_text);
        s.append(", ");
        let n = usize_text(self.trips.len());
        s.append(n.as_str());
        s.append(" trips");
        s
    }
}

impl RouteVariant {
    /// A one-line description: the route, the variant with its headsign, the service's days, and
    /// the number of trips. The route and the service must be in the schedule.
    pub fn describe(&self, gtfs: &GTFS) -> (r: String)
        requires
            gtfs.wf(),
            has_key(gtfs.routes@, self.route_id.0@),
            has_key(gtfs.calendar.services@, self.service_id.0@),
        ensures
            r@ == variant_description(*gtfs, *self),
    {
        let ri = search_sorted(&gtfs.routes, self.route_id.0.as_str());
        let si = search_sorted(&gtfs.calendar.services, self.service_id.0.as_str());
        match (ri, si) {
            (Ok(ri), Ok(si)) => {
                proof {
                    keyed_map_at(gtfs.routes@, ri as int);
                    keyed_map_at(gtfs.calendar.services@, si as int);
                }
                let route_text = gtfs.routes[ri].describe();
                let days_text = gtfs.calendar.services[si].days_of_week.describe();
                self.describe_with(route_text.as_str(), days_text.as_str())
            },
            _ => {
                proof {
                    assert(false);
                }
                String::new()
            },
        }
    }
}

/// One row of `routes.txt`.
pub struct RouteRecord {
    pub route_id: RouteID,
    pub route_type: u8,
    pub route_short_name: Option<String>,
    pub route_long_name: Option<String>,
    pub route_desc: Option<String>,
}

/// What is wrong with row `i`, given the rows before it: an unknown route type, or an identifier
/// already used.
#[verifier::opaque]
pub open spec fn route_record_error(records: Seq<RouteRecord>, i: int) -> Option<LoadError> {
    let r = records[i];
    if route_type_of_code(r.route_type) is None {
        Some(LoadError::UnknownRouteType(r.route_type))
    } else if exists|j: int| 0 <= j < i && (#[trigger] records[j]).route_id.0@ == r.route_id.0@ {
        Some(LoadError::DuplicateRoute(r.route_id.0))
    } else {
        None
    }
}

/// The route read from a row, before its trips are grouped into variants.
pub open spec fn route_from_record(route: Route, r: RouteRecord) -> bool {
    &&& route.route_id == r.route_id
    &&& route_type_of_code(r.route_type) == Some(route.route_type)
    &&& route.short_name == r.route_short_name
    &&& route.long_name == r.route_long_name
    &&& route.description == r.route_desc
    &&& route.variants@.len() == 0
}

/// Some route was read from the row.
pub open spec fn has_route_from(routes: Seq<Route>, r: RouteRecord) -> bool {
    exists|k: int| 0 <= k < routes.len() && route_from_record(#[trigger] routes[k], r)
}

/// The route was read from one of the first `n` rows.
pub open spec fn read_from_rows(records: Seq<RouteRecord>, n: int, route: Route) -> bool {
    exists|j: int| 0 <= j < n && route_from_record(route, #[trigger] records[j])
}

/// Reads the rows of `routes.txt`, in file order: the routes sorted by identifier. Fails at the
/// first row with an unknown route type or a repeated identifier.
pub fn load(records: Vec<RouteRecord>) -> (r: Result<Vec<Route>, LoadError>)
    ensures
        match r {
            Ok(routes) => {
                &&& strictly_sorted(routes@)
                &&& routes@.len() == records@.len()
                &&& forall|i: int| 0 <= i < records@.len() ==> route_record_error(records@, i) is None
                &&& forall|i: int| 0 <= i < records@.len() ==> has_route_from(routes@, #[trigger] records@[i])
                &&& forall|k: int|
                    0 <= k < routes@.len() ==> read_from_rows(records@, records@.len() as int, #[trigger] routes@[k])
            },
            Err(e) => exists|i: int|
                0 <= i < records@.len() && route_record_error(records@, i) == Some(e) && forall|j: int|
                    0 <= j < i ==> (#[trigger] route_record_error(records@, j)) is None,
        },
{
    let mut routes: Vec<Route> = Vec::new();
    let mut i: usize = 0;
    while i < records.len()
        invariant
            i <= records@.len(),
            strictly_sorted(routes@),
            routes@.len() == i,
            forall|j: int| 0 <= j < i ==> (#[trigger] route_record_error(records@, j)) is None,
            forall|j: int| 0 <= j < i ==> has_route_from(routes@, #[trigger] records@[j]),
            forall|k: int| 0 <= k < routes@.len() ==> read_from_rows(records@, i as int, #[trigger] routes@[k]),
        decreases records@.len() - i,
    {
        let rec = &records[i];
        let route_type = match RouteType::from_code(rec.route_type) {
            Some(t) => t,
            None => {
                assert(route_record_error(records@, i as int) == Some(LoadError::UnknownRouteType(rec.route_type))) by {
                    reveal(route_record_error);
                }
                return Err(LoadError::UnknownRouteType(rec.route_type));
            },
        };
        match search_sorted(&routes, rec.route_id.0.as_str()) {
            Ok(k) => {
                proof {
                    assert(read_from_rows(records@, i as int, routes@[k as int]));
                    let j = choose|j: int| 0 <= j < i && route_from_record(routes@[k as int], #[trigger] records@[j]);
                    assert(records@[j].route_id.0@ == rec.route_id.0@);
                    assert(route_record_error(records@, i as int) == Some(LoadError::DuplicateRoute(rec.route_id.0))) by {
                        reveal(route_record_error);
                    }
                }
                return Err(LoadError::DuplicateRoute(rec.route_id.0.clone()));
            },
            Err(k) => {
                let route = Route {
                    route_id: RouteID(rec.route_id.0.clone()),
                    route_type,
                    short_name: copy_opt_text(&rec.route_short_name),
                    long_name: copy_opt_text(&rec.route_long_name),
                    description: copy_opt_text(&rec.route_desc),
                    variants: Vec::new(),
                };
                proof {
                    assert(route_from_record(route, *rec));
                    assert(route_record_error(records@, i as int) is None) by {
                        reveal(route_record_error);
                        if exists|j: int| 0 <= j < i && (#[trigger] records@[j]).route_id.0@ == rec.route_id.0@ {
                            let j = choose|j: int| 0 <= j < i && (#[trigger] records@[j]).route_id.0@ == rec.route_id.0@;
                            assert(has_route_from(routes@, records@[j]));
                            let q = choose|q: int| 0 <= q < routes@.len() && route_from_record(#[trigger] routes@[q], records@[j]);
                            assert(routes@[q].key_text() == rec.route_id.0@);
                            crate::text::text_lt_irreflexive(rec.route_id.0@);
                        }
                    }
                    insert_at_gap_keeps_sorted(routes@, route, k as int);
                }
                let ghost before = routes@;
                routes.insert(k, route);
                proof {
                    assert forall|j: int| 0 <= j < i + 1 implies has_route_from(routes@, #[trigger] records@[j]) by {
                        if j < i {
                            assert(has_route_from(before, records@[j]));
                            let q = choose|q: int| 0 <= q < before.len() && route_from_record(#[trigger] before[q], records@[j]);
                            if q < k {
                                assert(routes@[q] == before[q]);
                            } else {
                                assert(routes@[q + 1] == before[q]);
                            }
                        } else {
                            assert(routes@[k as int] == route);
                        }
                    }
                    assert forall|q: int| 0 <= q < routes@.len() implies read_from_rows(records@, i + 1, #[trigger] routes@[q]) by {
                        if q < k {
                            assert(routes@[q] == before[q]);
                            assert(read_from_rows(records@, i as int, before[q]));
                        } else if q > k {
                            assert(routes@[q] == before[q - 1]);
                            assert(read_from_rows(records@, i as int, before[q - 1]));
                        } else {
                            assert(route_from_record(routes@[q], records@[i as int]));
                        }
                    }
                }
            },
        }
        i += 1;
    }
    Ok(routes)
}

} // verus!
