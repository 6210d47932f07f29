//! Reading a whole GTFS feed: the tables in the order the feed is read, then the schedule.

use vstd::prelude::*;

use crate::assembly::{route_with_variants, routes_with_trips, same_stop_fields, variants_before, visits_stop};
use crate::calendar::{apply_exceptions, calendar_from, load as load_calendar, load_exceptions, CalendarRecord, DateRecord};
use crate::error::LoadError;
use crate::gtfs::GTFS;
use crate::ids::IdError;
use crate::routes::{
    has_route_from, load as load_routes, read_from_rows, route_from_record, route_record_error, Route, RouteRecord,
    RouteVariantID,
};
use crate::sort::{key_fn, stable_sorted_by, stable_sorted_contains};
use crate::stop_times::{
    load as load_stop_times, row_stop_time, rows_of_trip, stop_time_error, trip_stop_times, StopTime,
    StopTimeRecord,
};
use crate::stops::{distinct_stop_ids, load as load_stops, repeats_stop_id, stop_from_record, Stop, StopRecord};
use crate::text::strictly_sorted;
use crate::trips::{
    attach_stop_times, direction_value, load as load_trips, trip_record_error, Trip, TripRecord,
};

verus! {

/// The rows of the files of a feed.
pub struct FeedTables {
    pub stops: Vec<StopRecord>,
    pub routes: Vec<RouteRecord>,
    pub trips: Vec<TripRecord>,
    pub stop_times: Vec<StopTimeRecord>,
    pub calendar: Vec<CalendarRecord>,
    pub calendar_dates: Vec<DateRecord>,
}

/// Each stop identifier of the rows, with the row that has it.
pub open spec fn stop_index(records: Seq<StopRecord>) -> Map<Seq<char>, nat> {
    Map::new(
        |t: Seq<char>| exists|i: int| 0 <= i < records.len() && (#[trigger] records[i]).stop_id.0@ == t,
        |t: Seq<char>| (choose|i: int| 0 <= i < records.len() && (#[trigger] records[i]).stop_id.0@ == t) as nat,
    )
}

/// Each trip identifier of the rows, with the row that has it.
pub open spec fn trip_index(records: Seq<TripRecord>) -> Map<Seq<char>, nat> {
    Map::new(
        |t: Seq<char>| exists|i: int| 0 <= i < records.len() && (#[trigger] records[i]).trip_id.0@ == t,
        |t: Seq<char>| (choose|i: int| 0 <= i < records.len() && (#[trigger] records[i]).trip_id.0@ == t) as nat,
    )
}

/// The stop times of the trip of row `t`.
pub open spec fn times_of_trip(tables: FeedTables, t: int) -> Seq<StopTime> {
    trip_stop_times(tables.stop_times@, stop_index(tables.stops@), trip_index(tables.trips@), t as nat)
}

/// The trip of row `i`, with its stop times.
pub open spec fn trip_with_times(t: Trip, r: TripRecord, i: int, times: Seq<StopTime>) -> bool {
    &&& t.id.0 == i
    &&& t.orig_id == r.trip_id
    &&& t.route_id == r.route_id
    &&& t.shape_id == r.shape_id
    &&& t.service_id == r.service_id
    &&& t.headsign == r.trip_headsign
    &&& direction_value(r.direction_id) == Some(t.outbound_direction)
    &&& t.stop_times@ == times
}

/// No stop identifier repeats.
pub open spec fn stops_ok(tables: FeedTables) -> bool {
    distinct_stop_ids(tables.stops@, tables.stops@.len() as int)
}

/// No route row is malformed.
pub open spec fn routes_ok(tables: FeedTables) -> bool {
    forall|i: int| 0 <= i < tables.routes@.len() ==> (#[trigger] route_record_error(tables.routes@, i)) is None
}

/// No trip row is malformed.
pub open spec fn trips_ok(tables: FeedTables) -> bool {
    forall|i: int| 0 <= i < tables.trips@.len() ==> (#[trigger] trip_record_error(tables.trips@, i)) is None
}

/// No stop time row is malformed.
pub open spec fn times_ok(tables: FeedTables) -> bool {
    forall|i: int|
        0 <= i < tables.stop_times@.len() ==> stop_time_error(
            #[trigger] tables.stop_times@[i],
            stop_index(tables.stops@),
            trip_index(tables.trips@),
        ) is None
}

/// Every trip has stop times.
pub open spec fn all_trips_timed(tables: FeedTables) -> bool {
    forall|t: int| 0 <= t < tables.trips@.len() ==> (#[trigger] times_of_trip(tables, t)).len() > 0
}

/// The tables of the schedule itself read without error.
pub open spec fn schedule_ok(tables: FeedTables) -> bool {
    &&& stops_ok(tables)
    &&& routes_ok(tables)
    &&& trips_ok(tables)
    &&& times_ok(tables)
    &&& all_trips_timed(tables)
}

/// Reading the feed stops with error `e`: at the first bad row of the first table that has
/// one, in the order stops, routes, trips, stop times, then the first trip without stop
/// times, then the calendar and its exceptions.
pub open spec fn feed_fails(tables: FeedTables, e: LoadError) -> bool {
    let stops = tables.stops@;
    let routes = tables.routes@;
    let trips = tables.trips@;
    let times = tables.stop_times@;
    ||| exists|i: int|
        0 <= i < stops.len() && distinct_stop_ids(stops, i) && repeats_stop_id(stops, i) && e == LoadError::Id(
            IdError::Duplicate(stops[i].stop_id.0),
        )
    ||| stops_ok(tables) && exists|i: int|
        0 <= i < routes.len() && route_record_error(routes, i) == Some(e) && forall|j: int|
            0 <= j < i ==> (#[trigger] route_record_error(routes, j)) is None
    ||| stops_ok(tables) && routes_ok(tables) && exists|i: int|
        0 <= i < trips.len() && trip_record_error(trips, i) == Some(e) && forall|j: int|
            0 <= j < i ==> (#[trigger] trip_record_error(trips, j)) is None
    ||| stops_ok(tables) && routes_ok(tables) && trips_ok(tables) && exists|i: int|
        0 <= i < times.len() && stop_time_error(times[i], stop_index(stops), trip_index(trips)) == Some(e)
            && forall|j: int|
            0 <= j < i ==> stop_time_error(#[trigger] times[j], stop_index(stops), trip_index(trips)) is None
    ||| stops_ok(tables) && routes_ok(tables) && trips_ok(tables) && times_ok(tables) && exists|t: int|
        0 <= t < trips.len() && times_of_trip(tables, t).len() == 0 && e == LoadError::NoStopTimes(
            trips[t].trip_id.0,
        ) && forall|u: int| 0 <= u < t ==> (#[trigger] times_of_trip(tables, u)).len() > 0
    ||| schedule_ok(tables) && calendar_from(tables.calendar@) == Err::<Map<Seq<char>, crate::calendar::ServiceView>, _>(e)
    ||| schedule_ok(tables) && calendar_from(tables.calendar@) is Ok && apply_exceptions(
        calendar_from(tables.calendar@)->Ok_0,
        tables.calendar_dates@,
    ).1 == Some(e)
}

/// The schedule `g` is what the tables give, by way of the stops, routes and trips read from
/// them (see `GTFS::assemble`).
pub open spec fn built_from(tables: FeedTables, g: GTFS, stops: Seq<Stop>, routes: Seq<Route>, trips: Seq<Trip>) -> bool {
    &&& stops.len() == tables.stops@.len()
    &&& forall|i: int| 0 <= i < stops.len() ==> stop_from_record(#[trigger] stops[i], tables.stops@[i], i)
    &&& strictly_sorted(routes)
    &&& routes.len() == tables.routes@.len()
    &&& forall|i: int| 0 <= i < tables.routes@.len() ==> has_route_from(routes, #[trigger] tables.routes@[i])
    &&& forall|k: int| 0 <= k < routes.len() ==> read_from_rows(tables.routes@, tables.routes@.len() as int, #[trigger] routes[k])
    &&& trips.len() == tables.trips@.len()
    &&& forall|i: int| 0 <= i < trips.len() ==> trip_with_times(#[trigger] trips[i], tables.trips@[i], i, times_of_trip(tables, i))
    &&& g.routes@.len() == routes_with_trips(routes, trips).len()
    &&& forall|k: int|
        0 <= k < g.routes@.len() ==> route_with_variants(
            #[trigger] g.routes@[k],
            routes[routes_with_trips(routes, trips)[k]],
            trips,
            variants_before(g.routes@, k),
        )
    &&& g.stops@.len() == stops.len()
    &&& forall|s: int|
        0 <= s < g.stops@.len() ==> {
            &&& same_stop_fields(#[trigger] g.stops@[s], stops[s])
            &&& forall|id: RouteVariantID| g.stops@[s].route_variants@.contains(id) <==> visits_stop(g.routes@, id, s)
        }
}

/// Every stop time listed for a trip is at a stop numbered below `n`, when every mapped stop is.
proof fn trip_times_at_known_stops(
    records: Seq<StopTimeRecord>,
    stops: Map<Seq<char>, nat>,
    trips: Map<Seq<char>, nat>,
    t: nat,
    n: nat,
)
    requires
        forall|i: int| 0 <= i < records.len() ==> stops.dom().contains((#[trigger] records[i]).stop_id.0@),
        forall|x: Seq<char>| #[trigger] stops.dom().contains(x) ==> stops[x] < n,
    ensures
        forall|k: int|
            0 <= k < trip_stop_times(records, stops, trips, t).len() ==> (#[trigger] trip_stop_times(
                records,
                stops,
                trips,
                t,
            )[k]).stop_id.0 < n,
{
    let rows = rows_of_trip(records, stops, trips, t);
    rows_at_known_stops(records, stops, trips, t, n);
    let sorted = stable_sorted_by(rows, key_fn::<(usize, StopTime)>());
    assert forall|k: int| 0 <= k < trip_stop_times(records, stops, trips, t).len() implies (#[trigger] trip_stop_times(
        records,
        stops,
        trips,
        t,
    )[k]).stop_id.0 < n by {
        assert(sorted.contains(sorted[k]));
        stable_sorted_contains(rows, key_fn::<(usize, StopTime)>(), sorted[k]);
    }
}

proof fn rows_at_known_stops(
    records: Seq<StopTimeRecord>,
    stops: Map<Seq<char>, nat>,
    trips: Map<Seq<char>, nat>,
    t: nat,
    n: nat,
)
    requires
        forall|i: int| 0 <= i < records.len() ==> stops.dom().contains((#[trigger] records[i]).stop_id.0@),
        forall|x: Seq<char>| #[trigger] stops.dom().contains(x) ==> stops[x] < n,
    ensures
        forall|p: (usize, StopTime)| #[trigger] rows_of_trip(records, stops, trips, t).contains(p) ==> p.1.stop_id.0 < n,
    decreases records.len(),
{
    if records.len() > 0 {
        rows_at_known_stops(records.drop_last(), stops, trips, t, n);
        let rest = rows_of_trip(records.drop_last(), stops, trips, t);
        assert(stops.dom().contains(records[records.len() - 1].stop_id.0@));
        assert forall|p: (usize, StopTime)| #[trigger] rows_of_trip(records, stops, trips, t).contains(p) implies p.1.stop_id.0 < n by {
            if !rest.contains(p) {
                assert(p == row_stop_time(records.last(), stops));
            }
        }
    }
}

impl GTFS {
    /// Reads a feed from its tables, in the order the files are read: stops, routes, trips,
    /// stop times (each trip's sorted by stop sequence), then the calendar and its exceptions.
    /// The schedule is assembled as `GTFS::assemble` does. Fails with the first error met.
    pub fn load_from_dir(tables: FeedTables) -> (r: Result<GTFS, LoadError>)
        ensures
            match r {
                Ok(g) => {
                    &&& g.wf()
                    &&& schedule_ok(tables)
                    &&& calendar_from(tables.calendar@) is Ok
                    &&& apply_exceptions(calendar_from(tables.calendar@)->Ok_0, tables.calendar_dates@)
                        == (g.calendar.view_by_id(), None::<LoadError>)
                    &&& exists|stops: Seq<Stop>, routes: Seq<Route>, trips: Seq<Trip>|
                        #[trigger] built_from(tables, g, stops, routes, trips)
                },
                Err(e) => feed_fails(tables, e),
            },
    {
        let ghost t = tables;
        let FeedTables { stops, routes, trips, stop_times, calendar, calendar_dates } = tables;
        let (stops, stop_ids) = match load_stops(stops) {
            Ok(x) => x,
            Err(e) => {
                return Err(e);
            },
        };
        proof {
            assert(stop_ids.mapping() =~= stop_index(t.stops@)) by {
                assert forall|x: Seq<char>| stop_ids.mapping().dom().contains(x) implies stop_ids.mapping()[x]
                    == stop_index(t.stops@)[x] by {
                    let i = choose|i: int| 0 <= i < t.stops@.len() && (#[trigger] t.stops@[i]).stop_id.0@ == x;
                    assert(stop_ids.mapping()[t.stops@[i].stop_id.0@] == i);
                }
            }
        }
        let routes = match load_routes(routes) {
            Ok(x) => x,
            Err(e) => {
                return Err(e);
            },
        };
        let (trips, trip_ids) = match load_trips(trips) {
            Ok(x) => x,
            Err(e) => {
                return Err(e);
            },
        };
        proof {
            assert(trip_ids.mapping() =~= trip_index(t.trips@)) by {
                assert forall|x: Seq<char>| trip_ids.mapping().dom().contains(x) implies trip_ids.mapping()[x]
                    == trip_index(t.trips@)[x] by {
                    let i = choose|i: int| 0 <= i < t.trips@.len() && (#[trigger] t.trips@[i]).trip_id.0@ == x;
                    assert(trip_ids.mapping()[t.trips@[i].trip_id.0@] == i);
                }
            }
            assert forall|x: Seq<char>| #[trigger] trip_ids.mapping().dom().contains(x) implies trip_ids.mapping()[x]
                < trip_ids.count() by {
                let i = choose|i: int| 0 <= i < t.trips@.len() && (#[trigger] t.trips@[i]).trip_id.0@ == x;
                assert(trip_ids.mapping()[t.trips@[i].trip_id.0@] == i);
            }
        }
        let lists = match load_stop_times(stop_times, &stop_ids, &trip_ids) {
            Ok(x) => x,
            Err(e) => {
                return Err(e);
            },
        };
        let ghost read_trips = trips@;
        let trips = match attach_stop_times(trips, lists) {
            Ok(x) => x,
            Err(e) => {
                proof {
                    let i = choose|i: int|
                        0 <= i < read_trips.len() && lists@[i]@.len() == 0 && e == LoadError::NoStopTimes(
                            read_trips[i].orig_id.0,
                        ) && forall|j: int| 0 <= j < i ==> (#[trigger] lists@[j])@.len() > 0;
                    assert(times_of_trip(t, i).len() == 0);
                    assert forall|u: int| 0 <= u < i implies (#[trigger] times_of_trip(t, u)).len() > 0 by {
                        assert(lists@[u]@.len() > 0);
                    }
                }
                return Err(e);
            },
        };
        proof {
            assert forall|u: int| 0 <= u < t.trips@.len() implies (#[trigger] times_of_trip(t, u)).len() > 0 by {
                assert(lists@[u]@.len() > 0);
            }
            assert forall|i: int| 0 <= i < trips@.len() implies trip_with_times(
                #[trigger] trips@[i],
                t.trips@[i],
                i,
                times_of_trip(t, i),
            ) by {
                assert(crate::trips::trip_from_record(read_trips[i], t.trips@[i], i));
            }
            assert forall|s: Seq<char>| #[trigger] stop_ids.mapping().dom().contains(s) implies stop_ids.mapping()[s]
                < stops@.len() by {
                let i = choose|i: int| 0 <= i < t.stops@.len() && (#[trigger] t.stops@[i]).stop_id.0@ == s;
                assert(stop_ids.mapping()[t.stops@[i].stop_id.0@] == i);
            }
            assert forall|i: int| 0 <= i < t.stop_times@.len() implies stop_ids.mapping().dom().contains(
                (#[trigger] t.stop_times@[i]).stop_id.0@,
            ) by {
                assert(stop_time_error(t.stop_times@[i], stop_ids.mapping(), trip_ids.mapping()) is None);
            }
            assert forall|u: int, k: int|
                0 <= u < trips@.len() && 0 <= k < trips@[u].stop_times@.len() implies (#[trigger] trips@[u].stop_times@[k]).stop_id.0
                    < stops@.len() by {
                trip_times_at_known_stops(t.stop_times@, stop_ids.mapping(), trip_ids.mapping(), u as nat, stops@.len());
            }
            assert forall|i: int| 0 <= i < stops@.len() implies (#[trigger] stops@[i]).id.0 == i by {
                assert(stop_from_record(stops@[i], t.stops@[i], i));
            }
            assert forall|i: int| 0 <= i < routes@.len() implies (#[trigger] routes@[i]).variants@.len() == 0 by {
                assert(read_from_rows(t.routes@, t.routes@.len() as int, routes@[i]));
                let j = choose|j: int| 0 <= j < t.routes@.len() && route_from_record(routes@[i], #[trigger] t.routes@[j]);
            }
        }
        let mut cal = match load_calendar(calendar) {
            Ok(c) => c,
            Err(e) => {
                return Err(e);
            },
        };
        match load_exceptions(&mut cal, calendar_dates) {
            Ok(_) => {},
            Err(e) => {
                return Err(e);
            },
        }
        let ghost in_stops = stops@;
        let ghost in_routes = routes@;
        let ghost in_trips = trips@;
        let g = GTFS::assemble(stops, routes, trips, cal);
        proof {
            assert(built_from(t, g, in_stops, in_routes, in_trips));
        }
        Ok(g)
    }
}

} // verus!
