use bus_spotting::calendar::{CalendarRecord, DateFilter, DateRecord, ServiceID};
use bus_spotting::dates::Date;
use bus_spotting::error::LoadError;
use bus_spotting::feed::FeedTables;
use bus_spotting::gtfs::{VariantFilter, GTFS};
use bus_spotting::ids::{IdError, StopID, TripID};
use bus_spotting::orig;
use bus_spotting::routes::{RouteID, RouteRecord, RouteType, RouteVariantID, ShapeID};
use bus_spotting::stop_times::StopTimeRecord;
use bus_spotting::stops::StopRecord;
use bus_spotting::time::Time;
use bus_spotting::trips::TripRecord;

const SEP_2_2019: i32 = 737304; // a Monday
const SEP_7_2019: i32 = 737309; // a Saturday

fn stop(id: &str, name: &str) -> StopRecord {
    StopRecord {
        stop_id: orig::StopID(id.to_string()),
        stop_code: None,
        stop_name: Some(name.to_string()),
        stop_desc: None,
    }
}

fn route(id: &str, kind: u8, short: &str) -> RouteRecord {
    RouteRecord {
        route_id: RouteID(id.to_string()),
        route_type: kind,
        route_short_name: Some(short.to_string()),
        route_long_name: None,
        route_desc: None,
    }
}

fn trip(id: &str, route: &str, shape: &str, headsign: Option<&str>, direction: Option<usize>) -> TripRecord {
    TripRecord {
        trip_id: orig::TripID(id.to_string()),
        route_id: RouteID(route.to_string()),
        trip_headsign: headsign.map(|h| h.to_string()),
        direction_id: direction,
        shape_id: ShapeID(shape.to_string()),
        service_id: ServiceID("SV".to_string()),
    }
}

fn stop_time(trip: &str, arrival: &str, departure: &str, stop: &str, seq: usize) -> StopTimeRecord {
    StopTimeRecord {
        trip_id: orig::TripID(trip.to_string()),
        arrival_time: arrival.to_string(),
        departure_time: departure.to_string(),
        stop_id: orig::StopID(stop.to_string()),
        stop_sequence: seq,
    }
}

fn weekday_service() -> CalendarRecord {
    CalendarRecord {
        service_id: ServiceID("SV".to_string()),
        monday: 1,
        tuesday: 1,
        wednesday: 1,
        thursday: 1,
        friday: 1,
        saturday: 0,
        sunday: 0,
        start_date: "20190901".to_string(),
        end_date: "20191231".to_string(),
    }
}

fn tables() -> FeedTables {
    FeedTables {
        stops: vec![stop("S1", "First"), stop("S2", "Second"), stop("S3", "Third")],
        routes: vec![route("R2", 3, "20"), route("R1", 3, "10")],
        trips: vec![
            trip("T1", "R1", "SH1", Some("A"), Some(0)),
            trip("T2", "R1", "SH1", Some("A"), Some(0)),
            trip("T3", "R2", "SH2", None, None),
            trip("T4", "R9", "SH9", None, Some(1)),
        ],
        stop_times: vec![
            stop_time("T1", "08:10:00", "08:10:30", "S2", 2),
            stop_time("T1", "08:00:00", "08:00:30", "S1", 1),
            stop_time("T2", "07:00:00", "07:00:00", "S1", 1),
            stop_time("T2", "07:10:00", "07:10:00", "S2", 2),
            stop_time("T3", "10:00:00", "10:00:00", "S2", 1),
            stop_time("T3", "10:05:00", "10:05:00", "S3", 2),
            stop_time("T4", "11:00:00", "11:00:00", "S1", 1),
        ],
        calendar: vec![weekday_service()],
        calendar_dates: vec![],
    }
}

fn feed() -> GTFS {
    GTFS::load_from_dir(tables()).unwrap()
}

fn hms(h: u32, m: u32, s: u32) -> Time {
    Time((h * 3600 + m * 60 + s) * 1000)
}

#[test]
fn feed_groups_trips_into_variants() {
    let g = feed();
    assert_eq!(g.routes.len(), 2);
    assert_eq!(g.routes[0].route_id, RouteID("R1".to_string()));
    assert_eq!(g.routes[0].route_type, RouteType::Bus);
    assert_eq!(g.routes[0].variants.len(), 1);
    let v = &g.routes[0].variants[0];
    assert_eq!(v.variant_id, RouteVariantID(0));
    assert_eq!(v.headsign, Some("A".to_string()));
    // Trips sorted by their first arrival: T2 runs before T1.
    assert_eq!(v.trips.len(), 2);
    assert_eq!(v.trips[0].orig_id, orig::TripID("T2".to_string()));
    assert_eq!(v.trips[1].orig_id, orig::TripID("T1".to_string()));
    assert_eq!(g.routes[1].route_id, RouteID("R2".to_string()));
    assert_eq!(g.routes[1].variants[0].variant_id, RouteVariantID(1));
    assert_eq!(g.all_variants(), vec![RouteVariantID(0), RouteVariantID(1)]);
}

#[test]
fn feed_sorts_stop_times_by_sequence() {
    let g = feed();
    let t1 = &g.routes[0].variants[0].trips[1];
    assert_eq!(t1.id, TripID(0));
    assert_eq!(t1.stop_times.len(), 2);
    assert_eq!(t1.stop_times[0].stop_id, StopID(0));
    assert_eq!(t1.stop_times[0].arrival_time, hms(8, 0, 0));
    assert_eq!(t1.stop_times[0].departure_time, hms(8, 0, 30));
    assert_eq!(t1.stop_times[1].stop_id, StopID(1));
    assert_eq!(t1.arrival_at(StopID(1)), hms(8, 10, 0));
    assert_eq!(t1.time_range(), (hms(8, 0, 0), hms(8, 10, 30)));
    assert!(t1.outbound_direction);
}

#[test]
fn feed_lists_the_variants_visiting_each_stop() {
    let g = feed();
    assert_eq!(g.stops.len(), 3);
    assert_eq!(g.stops[0].route_variants, vec![RouteVariantID(0)]);
    assert_eq!(g.stops[1].route_variants, vec![RouteVariantID(0), RouteVariantID(1)]);
    assert_eq!(g.stops[2].route_variants, vec![RouteVariantID(1)]);
    assert_eq!(g.stops[1].name, Some("Second".to_string()));
    assert_eq!(g.stops[2].id, StopID(2));
}

#[test]
fn feed_variant_queries() {
    let g = feed();
    let v = g.variant(RouteVariantID(1));
    assert_eq!(v.route_id, RouteID("R2".to_string()));
    assert_eq!(v.stops(), vec![StopID(1), StopID(2)]);
    assert_eq!(g.parent_of_variant(RouteVariantID(0)).short_name, Some("10".to_string()));
    assert_eq!(g.routes[0].describe(), "10 (Bus)");
    assert_eq!(v.describe(&g), " 20 (Bus) RouteVariantID(1) - weekdays, 1 trips");
    assert_eq!(g.variant(RouteVariantID(0)).describe(&g), " 10 (Bus) RouteVariantID(0) (A) - weekdays, 2 trips");
}

#[test]
fn feed_variants_matching_filter() {
    let g = feed();
    let monday = |min: usize, text: &str| VariantFilter {
        date_filter: DateFilter::SingleDay(Date(SEP_2_2019)),
        minimum_trips_per_day: min,
        description_substring: text.to_string(),
    };
    assert_eq!(g.variants_matching_filter(&monday(0, "")), vec![RouteVariantID(0), RouteVariantID(1)]);
    assert_eq!(g.variants_matching_filter(&monday(2, "")), vec![RouteVariantID(0)]);
    assert_eq!(g.variants_matching_filter(&monday(0, "20 (Bus)")), vec![RouteVariantID(1)]);
    let saturday = VariantFilter {
        date_filter: DateFilter::SingleDay(Date(SEP_7_2019)),
        minimum_trips_per_day: 0,
        description_substring: String::new(),
    };
    assert_eq!(g.variants_matching_filter(&saturday), Vec::<RouteVariantID>::new());
}

#[test]
fn feed_error_repeated_stop() {
    let mut t = tables();
    t.stops.push(stop("S2", "Again"));
    assert_eq!(
        GTFS::load_from_dir(t).err(),
        Some(LoadError::Id(IdError::Duplicate("S2".to_string())))
    );
}

#[test]
fn feed_error_route_type() {
    let mut t = tables();
    t.routes.push(route("R3", 9, "30"));
    assert_eq!(GTFS::load_from_dir(t).err(), Some(LoadError::UnknownRouteType(9)));
}

#[test]
fn feed_error_repeated_route() {
    let mut t = tables();
    t.routes.push(route("R1", 3, "10"));
    assert_eq!(GTFS::load_from_dir(t).err(), Some(LoadError::DuplicateRoute("R1".to_string())));
}

#[test]
fn feed_error_direction() {
    let mut t = tables();
    t.trips.push(trip("T5", "R1", "SH1", None, Some(2)));
    assert_eq!(GTFS::load_from_dir(t).err(), Some(LoadError::UnknownDirection(2)));
}

#[test]
fn feed_error_bad_time() {
    let mut t = tables();
    t.stop_times.push(stop_time("T1", "8h", "08:30:00", "S3", 3));
    assert_eq!(GTFS::load_from_dir(t).err(), Some(LoadError::BadTime("8h".to_string())));
}

#[test]
fn feed_error_arrival_after_departure() {
    let mut t = tables();
    t.stop_times.push(stop_time("T1", "08:31:00", "08:30:00", "S3", 3));
    assert_eq!(
        GTFS::load_from_dir(t).err(),
        Some(LoadError::ArrivalAfterDeparture(hms(8, 31, 0), hms(8, 30, 0)))
    );
}

#[test]
fn feed_error_unknown_stop_or_trip() {
    let mut t = tables();
    t.stop_times.push(stop_time("T1", "08:30:00", "08:30:00", "S9", 3));
    assert_eq!(GTFS::load_from_dir(t).err(), Some(LoadError::Id(IdError::Unknown("S9".to_string()))));
    let mut t = tables();
    t.stop_times.push(stop_time("T9", "08:30:00", "08:30:00", "S1", 3));
    assert_eq!(GTFS::load_from_dir(t).err(), Some(LoadError::Id(IdError::Unknown("T9".to_string()))));
}

#[test]
fn feed_error_trip_without_stop_times() {
    let mut t = tables();
    t.trips.push(trip("T5", "R1", "SH1", None, None));
    assert_eq!(GTFS::load_from_dir(t).err(), Some(LoadError::NoStopTimes("T5".to_string())));
}

#[test]
fn feed_error_calendar() {
    let mut t = tables();
    t.calendar_dates.push(DateRecord {
        service_id: ServiceID("SV".to_string()),
        date: "20190902".to_string(),
        exception_type: 5,
    });
    assert_eq!(GTFS::load_from_dir(t).err(), Some(LoadError::UnknownExceptionType(5)));
}

#[test]
fn empty_schedule() {
    let g = GTFS::empty();
    assert_eq!(g.routes.len(), 0);
    assert_eq!(g.stops.len(), 0);
    assert_eq!(g.all_variants(), Vec::<RouteVariantID>::new());
}

#[test]
fn route_types() {
    assert_eq!(RouteType::from_code(3), Some(RouteType::Bus));
    assert_eq!(RouteType::from_code(11), Some(RouteType::Trolleybus));
    assert_eq!(RouteType::from_code(9), None);
    assert_eq!(RouteType::Bus.name(), "Bus");
    assert_eq!(RouteType::all().len(), 10);
}
