use bus_spotting::boarding::populate_boarding;
use bus_spotting::calendar::{CalendarRecord, DateFilter, ServiceID};
use bus_spotting::dates::Date;
use bus_spotting::error::LoadError;
use bus_spotting::feed::FeedTables;
use bus_spotting::gtfs::GTFS;
use bus_spotting::ids::{IdError, StopID, TripID};
use bus_spotting::model::{find_all_files, find_common_files, Model, VehicleID, VehicleName};
use bus_spotting::multiday::MultidayModel;
use bus_spotting::orig;
use bus_spotting::routes::{RouteID, RouteRecord, RouteVariantID, ShapeID};
use bus_spotting::segment::endpoint_intervals;
use bus_spotting::stop_times::StopTimeRecord;
use bus_spotting::stops::StopRecord;
use bus_spotting::supply_demand::minimum_vehicles_needed;
use bus_spotting::ticketing::{CardID, Journey, JourneyID, JourneyLeg};
use bus_spotting::time::{Duration, Time};
use bus_spotting::to_trips::get_trip_times;
use bus_spotting::trips::TripRecord;

const SEP_1_2019: i32 = 737303;
const SEP_2_2019: i32 = 737304; // a Monday
const SEP_3_2019: i32 = 737305; // a Tuesday

fn hms(h: u32, m: u32, s: u32) -> Time {
    Time((h * 3600 + m * 60 + s) * 1000)
}

fn feed() -> GTFS {
    let stop = |id: &str| StopRecord {
        stop_id: orig::StopID(id.to_string()),
        stop_code: None,
        stop_name: None,
        stop_desc: None,
    };
    let route = |id: &str, short: &str| RouteRecord {
        route_id: RouteID(id.to_string()),
        route_type: 3,
        route_short_name: Some(short.to_string()),
        route_long_name: None,
        route_desc: None,
    };
    let trip = |id: &str, route: &str| TripRecord {
        trip_id: orig::TripID(id.to_string()),
        route_id: RouteID(route.to_string()),
        trip_headsign: None,
        direction_id: None,
        shape_id: ShapeID("SH".to_string()),
        service_id: ServiceID("SV".to_string()),
    };
    let time = |trip: &str, at: &str, stop: &str, seq: usize| StopTimeRecord {
        trip_id: orig::TripID(trip.to_string()),
        arrival_time: at.to_string(),
        departure_time: at.to_string(),
        stop_id: orig::StopID(stop.to_string()),
        stop_sequence: seq,
    };
    GTFS::load_from_dir(FeedTables {
        stops: vec![stop("S1"), stop("S2"), stop("S3")],
        routes: vec![route("R1", "10"), route("R2", "20")],
        trips: vec![trip("T1", "R1"), trip("T2", "R1"), trip("T3", "R2")],
        stop_times: vec![
            time("T1", "08:00:00", "S1", 1),
            time("T1", "08:10:00", "S2", 2),
            time("T2", "07:00:00", "S1", 1),
            time("T2", "07:10:00", "S2", 2),
            time("T3", "10:00:00", "S2", 1),
            time("T3", "10:05:00", "S3", 2),
        ],
        calendar: vec![CalendarRecord {
            service_id: ServiceID("SV".to_string()),
            monday: 1,
            tuesday: 1,
            wednesday: 1,
            thursday: 1,
            friday: 1,
            saturday: 0,
            sunday: 0,
            start_date: "20190901".to_string(),
            end_date: "20191231".to_string(),
        }],
        calendar_dates: vec![],
    })
    .unwrap()
}

fn leg(time: Time, vehicle: &str, route: &str) -> JourneyLeg {
    JourneyLeg { time, pos: 0, route_short_name: route.to_string(), vehicle_name: VehicleName(vehicle.to_string()) }
}

fn journeys() -> Vec<Journey> {
    vec![
        Journey {
            card_id: CardID("C1".to_string()),
            legs: vec![leg(hms(7, 2, 0), "BUS1", "10"), leg(hms(10, 1, 0), "BUS2", "20")],
        },
        Journey { card_id: CardID("C2".to_string()), legs: vec![leg(hms(8, 11, 0), "BUS1", "10")] },
        Journey {
            card_id: CardID("C3".to_string()),
            legs: vec![leg(hms(6, 0, 0), "BUS1", "10"), leg(hms(9, 0, 0), "GHOST", "10")],
        },
    ]
}

fn names(list: &[&str]) -> Vec<VehicleName> {
    list.iter().map(|n| VehicleName(n.to_string())).collect()
}

/// When each vehicle passed near the stops of each of its possible variants.
fn bus1_times() -> Vec<Vec<Time>> {
    vec![vec![hms(7, 0, 30), hms(8, 0, 20)], vec![hms(7, 10, 30), hms(8, 10, 20)]]
}

fn bus2_times() -> Vec<Vec<Time>> {
    vec![vec![hms(10, 0, 10)], vec![hms(10, 5, 10)]]
}

fn day_model(day: i32, vehicles: &[&str]) -> Model {
    Model::for_day(feed(), names(vehicles), journeys(), Date(day)).unwrap()
}

fn populated(day: i32, vehicles: &[&str]) -> Model {
    let mut model = day_model(day, vehicles);
    let times = vehicles
        .iter()
        .map(|v| if *v == "BUS1" { vec![bus1_times()] } else { vec![bus2_times()] })
        .collect::<Vec<_>>();
    populate_boarding(&mut model, &times);
    model
}

#[test]
fn for_day_numbers_vehicles() {
    let m = day_model(SEP_2_2019, &["BUS1", "BUS2"]);
    assert_eq!(m.vehicles.len(), 2);
    assert_eq!(m.vehicles[1].id, VehicleID(1));
    assert_eq!(m.vehicles[1].original_id, VehicleName("BUS2".to_string()));
    assert_eq!(m.lookup_vehicle(&VehicleName("BUS2".to_string())).unwrap().id, VehicleID(1));
    assert!(m.lookup_vehicle(&VehicleName("GHOST".to_string())).is_none());
    assert_eq!(m.main_date, Date(SEP_2_2019));
    assert_eq!(m.boardings.len(), 0);
}

#[test]
fn for_day_rejects_repeated_vehicle() {
    let r = Model::for_day(feed(), names(&["A", "B", "A"]), vec![], Date(SEP_2_2019));
    assert_eq!(r.err(), Some(LoadError::Id(IdError::Duplicate("A".to_string()))));
}

#[test]
fn gtfs_only_model_is_dated_by_first_service() {
    let m = Model::gtfs_only(feed());
    assert_eq!(m.main_date, Date(SEP_1_2019));
    assert_eq!(m.vehicles.len(), 0);
    let empty = Model::empty();
    assert_eq!(empty.main_date, Date(737425));
}

#[test]
fn daily_files_by_date() {
    let files: Vec<String> = [
        "avl/avl_2019-09-02.csv",
        "bil/bil_2019-09-02.csv",
        "avl/avl_2019-09-01.csv",
        "avl/avl_notadate.csv",
        "avl/avl_2019-09-03.txt",
        "gtfs/stops.txt",
    ]
    .iter()
    .map(|s| s.to_string())
    .collect();
    let avl = find_all_files(&files, "avl/avl_");
    assert_eq!(
        avl,
        vec![
            (Date(SEP_1_2019), "avl/avl_2019-09-01.csv".to_string()),
            (Date(SEP_2_2019), "avl/avl_2019-09-02.csv".to_string()),
        ]
    );
    let bil = find_all_files(&files, "bil/bil_");
    assert_eq!(bil, vec![(Date(SEP_2_2019), "bil/bil_2019-09-02.csv".to_string())]);
    assert_eq!(
        find_common_files(avl, bil),
        vec![(Date(SEP_2_2019), "avl/avl_2019-09-02.csv".to_string(), "bil/bil_2019-09-02.csv".to_string())]
    );
}

#[test]
fn daily_files_later_name_wins() {
    let files: Vec<String> = ["x2019-09-02.csv", "x2019-9-2.csv"].iter().map(|s| s.to_string()).collect();
    assert_eq!(find_all_files(&files, "x"), vec![(Date(SEP_2_2019), "x2019-9-2.csv".to_string())]);
}

#[test]
fn vehicles_and_their_routes() {
    let m = day_model(SEP_2_2019, &["BUS1", "BUS2"]);
    let assignments = m.vehicle_to_route_short_name();
    assert_eq!(assignments.len(), 2);
    assert_eq!(assignments[0].0, VehicleID(0));
    assert_eq!(assignments[0].1.segments, vec![(hms(6, 0, 0), hms(8, 11, 0), "10".to_string())]);
    assert_eq!(assignments[1].1.segments, vec![(hms(10, 1, 0), hms(10, 1, 0), "20".to_string())]);
    assert_eq!(m.vehicle_to_possible_routes(VehicleID(0)), vec![RouteVariantID(0)]);
    assert_eq!(m.vehicle_to_possible_routes(VehicleID(1)), vec![RouteVariantID(1)]);
    let all = m.vehicles_to_possible_routes();
    assert_eq!(all.len(), 2);
    assert_eq!(all[1], (VehicleID(1), vec![RouteVariantID(1)]));
}

#[test]
fn vehicles_on_a_day_without_service_have_no_routes() {
    let m = day_model(SEP_1_2019, &["BUS1", "BUS2"]);
    assert_eq!(m.vehicle_to_possible_routes(VehicleID(0)), Vec::<RouteVariantID>::new());
}

#[test]
fn segment_counts_vehicles() {
    let m = day_model(SEP_2_2019, &["BUS1", "BUS2"]);
    let s = m.segment();
    assert_eq!(s.assignments.len(), 3);
    assert_eq!(s.assignments[2].0, VehicleName("GHOST".to_string()));
    assert_eq!((s.one_route, s.multiple_routes_normal, s.multiple_routes_overlapping), (3, 0, 0));

    let taps = vec![Journey {
        card_id: CardID("C".to_string()),
        legs: vec![
            leg(hms(1, 0, 0), "X", "A"),
            leg(hms(2, 0, 0), "X", "B"),
            leg(hms(3, 0, 0), "X", "A"),
            leg(hms(1, 0, 0), "Y", "A"),
            leg(hms(2, 0, 0), "Y", "B"),
            leg(hms(1, 0, 0), "Z", "A"),
        ],
    }];
    let m = Model::for_day(feed(), vec![], taps, Date(SEP_2_2019)).unwrap();
    let s = m.segment();
    assert_eq!((s.one_route, s.multiple_routes_normal, s.multiple_routes_overlapping), (1, 1, 1));
    assert_eq!(
        s.assignments[0].1.segments,
        vec![(hms(1, 0, 0), hms(3, 0, 0), "A".to_string()), (hms(2, 0, 0), hms(2, 0, 0), "B".to_string())]
    );
    assert!(s.assignments[0].1.has_overlaps());
    assert!(!s.assignments[1].1.has_overlaps());
}

#[test]
fn endpoint_times_pair_into_intervals() {
    let t = |s: u32| Time(s * 1000);
    assert_eq!(endpoint_intervals(&vec![t(1), t(5), t(3)], &vec![t(2), t(6), t(4)]), vec![true, true, false]);
    assert_eq!(endpoint_intervals(&vec![t(3), t(1)], &vec![t(2)]), vec![false]);
}

#[test]
fn trip_times_from_passes() {
    let trips = get_trip_times(&bus1_times());
    assert_eq!(trips, vec![vec![hms(7, 0, 30), hms(7, 10, 30)], vec![hms(8, 0, 20), hms(8, 10, 20)]]);
    // A pass near the second stop before the first is skipped.
    let trips = get_trip_times(&vec![vec![Time(5000)], vec![Time(1000), Time(6000)]]);
    assert_eq!(trips, vec![vec![Time(5000), Time(6000)]]);
}

#[test]
fn trips_matched_to_schedule() {
    let m = day_model(SEP_2_2019, &["BUS1", "BUS2"]);
    let trips = m.get_trips_for_vehicle_and_variant(VehicleID(0), RouteVariantID(0), &bus1_times());
    assert_eq!(trips.len(), 2);
    assert_eq!(trips[0].trip, TripID(1));
    assert_eq!(trips[1].trip, TripID(0));
    assert_eq!(trips[0].start_time(), hms(7, 0, 30));
    assert_eq!(trips[1].end_time(), hms(8, 10, 20));
    let schedule = m.infer_vehicle_schedule(VehicleID(0), &vec![bus1_times()]);
    assert_eq!(schedule.len(), 2);
    assert_eq!(schedule[0].trip, TripID(1));
    assert_eq!(schedule[1].trip, TripID(0));
}

#[test]
fn boardings_join_taps_and_vehicles() {
    let mut model = day_model(SEP_2_2019, &["BUS1", "BUS2"]);
    let summary = populate_boarding(&mut model, &vec![vec![bus1_times()], vec![bus2_times()]]);
    assert_eq!(summary.matched_events, 3);
    assert_eq!(summary.unmatched_events, 2);
    assert_eq!(summary.route_name_mismatches, 0);
    assert_eq!(model.boardings.len(), 6);
    let b = &model.boardings;
    assert_eq!((b[0].vehicle, b[0].stop, b[0].arrival_time), (VehicleID(0), StopID(0), hms(7, 0, 30)));
    assert_eq!(b[0].new_riders, vec![JourneyID(0)]);
    assert_eq!(b[3].new_riders, vec![JourneyID(1)]);
    assert_eq!((b[4].vehicle, b[4].stop), (VehicleID(1), StopID(1)));
    assert_eq!(b[4].transfers, vec![JourneyID(0)]);
    assert_eq!(b[5].new_riders.len() + b[5].transfers.len(), 0);
    // Every matched tap is recorded on exactly one boarding event.
    let riders: usize = b.iter().map(|e| e.new_riders.len() + e.transfers.len()).sum();
    assert_eq!(riders, summary.matched_events);
    assert_eq!(
        model.vehicles[0].timetable.0,
        vec![(hms(7, 0, 30), hms(7, 10, 30), TripID(1)), (hms(8, 0, 20), hms(8, 10, 20), TripID(0))]
    );
}

#[test]
fn boarding_queries() {
    let m = populated(SEP_2_2019, &["BUS1", "BUS2"]);
    assert_eq!(m.find_boarding_event(TripID(1), StopID(0)).unwrap().arrival_time, hms(7, 0, 30));
    assert!(m.find_boarding_event(TripID(2), StopID(0)).is_none());
    let ev = m.boarding_event_for_vehicle_stop_time(VehicleID(0), StopID(1), hms(8, 10, 20)).unwrap();
    assert_eq!(ev.trip, TripID(0));
    let ev = m.most_recent_boarding_event_for_bus(VehicleID(0), hms(8, 5, 0)).unwrap();
    assert_eq!((ev.stop, ev.arrival_time), (StopID(0), hms(8, 0, 20)));
    assert!(m.most_recent_boarding_event_for_bus(VehicleID(1), hms(9, 0, 0)).is_none());
    assert_eq!(m.all_boarding_events_at_stop(StopID(1)).len(), 3);
}

#[test]
fn supply_and_demand() {
    let m = populated(SEP_2_2019, &["BUS1", "BUS2"]);
    let demand = m.get_gtfs_trip_demand();
    assert_eq!(demand.len(), 2);
    assert_eq!(demand[0].0, "10");
    assert_eq!(demand[0].1, vec![(TripID(1), hms(7, 0, 0), hms(7, 10, 0)), (TripID(0), hms(8, 0, 0), hms(8, 10, 0))]);
    assert_eq!(demand[1].1, vec![(TripID(2), hms(10, 0, 0), hms(10, 5, 0))]);
    let supply = m.vehicles_per_route();
    assert_eq!(supply, vec![("10".to_string(), vec![VehicleID(0)]), ("20".to_string(), vec![VehicleID(1)])]);
    let matching = m.supply_demand_matching();
    assert_eq!(matching.unassigned_trips, Vec::<TripID>::new());
    assert_eq!(matching.timetables[1].0, vec![(hms(10, 0, 0), hms(10, 5, 0), TripID(2))]);
    assert_eq!(matching.timetables[0].0.len(), 2);
}

#[test]
fn vehicles_needed_for_overlapping_trips() {
    let demand = vec![
        (TripID(0), hms(7, 0, 0), hms(8, 0, 0)),
        (TripID(1), hms(7, 30, 0), hms(8, 30, 0)),
        (TripID(2), hms(8, 0, 0), hms(9, 0, 0)),
    ];
    assert_eq!(minimum_vehicles_needed(demand), 3);
    assert_eq!(minimum_vehicles_needed(vec![]), 0);
}

#[test]
fn back_to_back_trips_need_two_vehicles() {
    let demand = vec![(TripID(0), hms(7, 0, 0), hms(8, 0, 0)), (TripID(1), hms(8, 0, 0), hms(9, 0, 0))];
    assert_eq!(minimum_vehicles_needed(demand), 2);
    let apart = vec![(TripID(0), hms(7, 0, 0), hms(8, 0, 0)), (TripID(1), hms(8, 0, 1), hms(9, 0, 0))];
    assert_eq!(minimum_vehicles_needed(apart), 1);
}

#[test]
fn multiday_numbers_vehicles_once() {
    let tuesday = populated(SEP_3_2019, &["BUS2", "BUS1"]);
    let monday = populated(SEP_2_2019, &["BUS1", "BUS2"]);
    let multi = MultidayModel::new_from_daily_models(vec![tuesday, monday]);
    assert_eq!(multi.boardings_per_day.len(), 2);
    assert_eq!(multi.boardings_per_day[0].0, Date(SEP_2_2019));
    assert_eq!(multi.boardings_per_day[1].0, Date(SEP_3_2019));
    // BUS1 boards first on the first model given, so it is vehicle 0 on both days.
    assert_eq!(multi.boardings_per_day[0].1[0].vehicle, VehicleID(0));
    assert_eq!(multi.boardings_per_day[1].1[0].vehicle, VehicleID(0));
    assert_eq!(multi.boardings_per_day[1].1[4].vehicle, VehicleID(1));
    let counts = multi.count_boardings_by_stop();
    assert_eq!(counts, vec![(StopID(0), 2), (StopID(1), 4), (StopID(2), 0)]);
    let total: usize = multi
        .boardings_per_day
        .iter()
        .flat_map(|(_, evs)| evs.iter())
        .map(|e| e.new_riders.len() + e.transfers.len())
        .sum();
    assert_eq!(counts.iter().map(|c| c.1).sum::<usize>(), total);
    let rows = multi.export_rows();
    assert_eq!(rows.len(), 12);
    assert_eq!(rows[0].date, Date(SEP_2_2019));
    assert_eq!(rows[0].vehicle, VehicleName("BUS1".to_string()));
    assert_eq!(rows[0].route_id, RouteID("R1".to_string()));
    assert_eq!(rows[0].trip, orig::TripID("T2".to_string()));
    assert_eq!(rows[0].stop, orig::StopID("S1".to_string()));
    assert_eq!((rows[0].new_riders, rows[0].transfers), (1, 0));
    assert_eq!(rows[10].vehicle, VehicleName("BUS2".to_string()));
    assert_eq!(rows[10].transfers, 1);
}

#[test]
fn ticketing_points_per_vehicle() {
    let m = day_model(SEP_2_2019, &["BUS1", "BUS2"]);
    let points = m.ticketing_points();
    assert_eq!(points.len(), 3);
    assert_eq!(points[0].vehicle_name, VehicleName("BUS1".to_string()));
    assert_eq!(points[0].vehicle, Some(0));
    assert_eq!(points[0].points, vec![(0, hms(6, 0, 0)), (0, hms(7, 2, 0)), (0, hms(8, 11, 0))]);
    assert_eq!(points[2].vehicle_name, VehicleName("GHOST".to_string()));
    assert_eq!(points[2].vehicle, None);
}

#[test]
fn trip_schedule_steps() {
    let m = day_model(SEP_2_2019, &["BUS1", "BUS2"]);
    let trips = m.get_trips_for_vehicle_and_variant(VehicleID(0), RouteVariantID(0), &bus1_times());
    let steps = trips[0].schedule_steps();
    assert_eq!(
        steps,
        vec![(1, hms(7, 0, 30), Duration(0)), (2, hms(7, 10, 30), Duration(600_000))]
    );
}

#[test]
fn variants_running_on_a_day() {
    let g = feed();
    assert_eq!(
        g.variants_matching_dates(&DateFilter::SingleDay(Date(SEP_2_2019))),
        vec![RouteVariantID(0), RouteVariantID(1)]
    );
    assert_eq!(g.variants_matching_dates(&DateFilter::SingleDay(Date(SEP_1_2019))), Vec::<RouteVariantID>::new());
    let empty = MultidayModel::empty();
    assert_eq!(empty.boardings_per_day.len(), 0);
}

#[test]
fn vehicles_serving_short_variants() {
    let m = day_model(SEP_2_2019, &["BUS1", "BUS2"]);
    assert_eq!(
        m.vehicles_with_few_stops(),
        vec![(VehicleID(0), RouteVariantID(0)), (VehicleID(1), RouteVariantID(1))]
    );
}

#[test]
fn one_vehicle_per_scheduled_trip() {
    let mut m = populated(SEP_2_2019, &["BUS1", "BUS2"]);
    m.replace_vehicles_with_gtfs(vec![TripID(1), TripID(0)]);
    assert_eq!(m.vehicles.len(), 2);
    assert_eq!(m.vehicles[0].original_id, VehicleName("TripID(1)".to_string()));
    assert_eq!(m.vehicles[1].id, VehicleID(1));
    assert_eq!(m.lookup_vehicle(&VehicleName("TripID(0)".to_string())).unwrap().id, VehicleID(1));
    assert!(m.lookup_vehicle(&VehicleName("BUS1".to_string())).is_none());
    assert_eq!(m.journeys.len(), 0);
    assert_eq!(m.boardings.len(), 0);
}

#[test]
fn boarding_events_unique_per_trip_and_stop() {
    let m = populated(SEP_2_2019, &["BUS1", "BUS2"]);
    let b = &m.boardings;
    assert_eq!(b.len(), 6);
    for i in 0..b.len() {
        for j in (i + 1)..b.len() {
            assert!((b[i].trip, b[i].stop) != (b[j].trip, b[j].stop));
        }
    }
}

#[test]
fn route_segments_for_a_registered_name_without_vehicle() {
    let h = |n: u32| hms(n, 0, 0);
    let mut m = Model::empty();
    assert_eq!(m.vehicle_ids.insert_new(VehicleName("v".to_string())), Ok(VehicleID(0)));
    m.journeys = vec![
        Journey { card_id: CardID("a".to_string()), legs: vec![leg(h(10), "v", "A")] },
        Journey { card_id: CardID("b".to_string()), legs: vec![leg(h(8), "v", "B"), leg(h(9), "v", "A")] },
    ];
    let a = m.vehicle_to_route_short_name();
    assert_eq!(a.len(), 1);
    assert_eq!(a[0].0, VehicleID(0));
    assert_eq!(a[0].1.segments, vec![(h(8), h(8), "B".to_string()), (h(9), h(10), "A".to_string())]);
}

#[test]
fn find_event_by_trip_reference() {
    let m = populated(SEP_2_2019, &["BUS1", "BUS2"]);
    assert_eq!(m.find_event(&TripID(1), StopID(0)).unwrap().arrival_time, hms(7, 0, 30));
    assert!(m.find_event(&TripID(2), StopID(0)).is_none());
}
