use bus_spotting::calendar::{
    load, load_exceptions, parse_bool, Calendar, CalendarRecord, DateFilter, DateRecord, DaysOfWeek, ServiceID,
};
use bus_spotting::dates::Date;
use bus_spotting::error::LoadError;
use bus_spotting::time::{Duration, Time};
use bus_spotting::timetable::{overlaps, Timetable};

// Day numbers as chrono counts them (January 1 of year 1 is day 1).
const SEP_1_2019: i32 = 737303; // a Sunday
const SEP_2_2019: i32 = 737304; // a Monday
const SEP_7_2019: i32 = 737309; // a Saturday
const DEC_31_2019: i32 = 737424;
const JAN_1_2020: i32 = 737425;

fn days(m: bool, t: bool, w: bool, th: bool, f: bool, sa: bool, su: bool) -> DaysOfWeek {
    DaysOfWeek { monday: m, tuesday: t, wednesday: w, thursday: th, friday: f, saturday: sa, sunday: su }
}

fn calendar_row(id: &str, flags: [u8; 7], start: &str, end: &str) -> CalendarRecord {
    CalendarRecord {
        service_id: ServiceID(id.to_string()),
        monday: flags[0],
        tuesday: flags[1],
        wednesday: flags[2],
        thursday: flags[3],
        friday: flags[4],
        saturday: flags[5],
        sunday: flags[6],
        start_date: start.to_string(),
        end_date: end.to_string(),
    }
}

fn date_row(id: &str, date: &str, kind: u8) -> DateRecord {
    DateRecord { service_id: ServiceID(id.to_string()), date: date.to_string(), exception_type: kind }
}

#[test]
fn time_parse_reads_hours_past_midnight() {
    assert_eq!(Time::parse("8:05:30"), Some(Time((8 * 3600 + 5 * 60 + 30) * 1000)));
    assert_eq!(Time::parse("25:00:00"), Some(Time(25 * 3600 * 1000)));
    assert_eq!(Time::parse("00:00:00"), Some(Time(0)));
    assert_eq!(Time::parse("8:5:30"), Some(Time((8 * 3600 + 5 * 60 + 30) * 1000)));
}

#[test]
fn time_parse_rejects_malformed_text() {
    assert_eq!(Time::parse(""), None);
    assert_eq!(Time::parse("8::30"), None);
    assert_eq!(Time::parse("8:61:00"), None);
    assert_eq!(Time::parse("08:05"), None);
    assert_eq!(Time::parse("08:05:30x"), None);
    assert_eq!(Time::parse("ab:cd:ef"), None);
}

#[test]
fn time_arithmetic() {
    assert_eq!(Time::start_of_day(), Time(0));
    assert_eq!(Time::from_hms(1, 2, 3), Some(Time(3_723_000)));
    assert_eq!(Time::from_hms(2_000_000, 0, 0), None);
    assert_eq!(Time(5000).since(Time(8000)), Duration(-3000));
    assert_eq!(Time(5000).since(Time(8000)).abs(), Duration(3000));
}

#[test]
fn days_of_week_describe() {
    assert_eq!(DaysOfWeek::all().describe(), "every day");
    assert_eq!(days(true, true, true, true, true, false, false).describe(), "weekdays");
    assert_eq!(days(false, false, false, false, false, true, true).describe(), "weekends");
    assert_eq!(days(false, false, false, false, false, false, false).describe(), "never?!");
    assert_eq!(days(true, false, true, true, false, true, false).describe(), "MWThSat");
}

#[test]
fn days_of_week_overlap_and_include() {
    let weekdays = days(true, true, true, true, true, false, false);
    let weekends = days(false, false, false, false, false, true, true);
    assert!(!weekdays.overlaps(&weekends));
    assert!(weekdays.overlaps(&DaysOfWeek::all()));
    assert!(weekdays.includes(&Date(SEP_2_2019)));
    assert!(!weekdays.includes(&Date(SEP_1_2019)));
    assert!(weekends.includes(&Date(SEP_7_2019)));
}

#[test]
fn parse_bool_flags() {
    assert_eq!(parse_bool(1), Ok(true));
    assert_eq!(parse_bool(0), Ok(false));
    assert_eq!(parse_bool(2), Err(LoadError::BadFlag(2)));
}

#[test]
fn calendar_load_reads_services_in_id_order() {
    let cal = load(vec![
        calendar_row("WK", [1, 1, 1, 1, 1, 0, 0], "20190901", "20191231"),
        calendar_row("SAT", [0, 0, 0, 0, 0, 1, 0], "20190901", "20191231"),
    ])
    .unwrap();
    assert_eq!(cal.services.len(), 2);
    assert_eq!(cal.services[0].service_id, ServiceID("SAT".to_string()));
    assert_eq!(cal.services[1].service_id, ServiceID("WK".to_string()));
    assert_eq!(cal.services[1].start_date, Date(SEP_1_2019));
    assert_eq!(cal.services[1].end_date, Date(DEC_31_2019));
    assert_eq!(cal.services[1].describe_days(), "weekdays");
}

#[test]
fn calendar_load_errors() {
    assert_eq!(
        load(vec![calendar_row("A", [1, 1, 1, 1, 1, 0, 3], "20190901", "20191231")]).err(),
        Some(LoadError::BadFlag(3))
    );
    assert_eq!(
        load(vec![
            calendar_row("A", [1, 1, 1, 1, 1, 0, 0], "20190901", "20191231"),
            calendar_row("A", [1, 1, 1, 1, 1, 0, 0], "20190901", "20191231"),
        ])
        .err(),
        Some(LoadError::DuplicateService("A".to_string()))
    );
    assert_eq!(
        load(vec![calendar_row("A", [1, 1, 1, 1, 1, 0, 0], "2019-09-01", "20191231")]).err(),
        Some(LoadError::BadDate("2019-09-01".to_string()))
    );
}

#[test]
fn calendar_exceptions_and_matching() {
    let mut cal = load(vec![
        calendar_row("WK", [1, 1, 1, 1, 1, 0, 0], "20190901", "20191231"),
        calendar_row("SUN", [0, 0, 0, 0, 0, 0, 1], "20190901", "20191231"),
    ])
    .unwrap();
    // Sept 2 is removed from the weekday service, and Sept 1 added to it.
    load_exceptions(
        &mut cal,
        vec![date_row("WK", "20190902", 2), date_row("WK", "20190901", 1), date_row("OTHER", "junk", 7)],
    )
    .unwrap();
    let on = |day: i32| cal.services_matching_dates(&DateFilter::SingleDay(Date(day)));
    assert_eq!(on(SEP_1_2019), vec![ServiceID("SUN".to_string()), ServiceID("WK".to_string())]);
    assert_eq!(on(SEP_2_2019), Vec::<ServiceID>::new());
    assert_eq!(on(JAN_1_2020), Vec::<ServiceID>::new());
    assert_eq!(
        cal.services_matching_dates(&DateFilter::Daily(days(false, false, false, false, false, true, true))),
        vec![ServiceID("SUN".to_string())]
    );
    assert_eq!(cal.services_matching_dates(&DateFilter::Unfiltered).len(), 2);
}

#[test]
fn calendar_exception_errors() {
    let mut cal = load(vec![calendar_row("WK", [1, 1, 1, 1, 1, 0, 0], "20190901", "20191231")]).unwrap();
    assert_eq!(
        load_exceptions(&mut cal, vec![date_row("WK", "20190902", 3)]),
        Err(LoadError::UnknownExceptionType(3))
    );
    let mut cal = load(vec![calendar_row("WK", [1, 1, 1, 1, 1, 0, 0], "20190901", "20191231")]).unwrap();
    assert_eq!(
        load_exceptions(&mut cal, vec![date_row("WK", "2019", 1)]),
        Err(LoadError::BadDate("2019".to_string()))
    );
    let empty = Calendar::new();
    assert_eq!(empty.services.len(), 0);
}

fn hour(n: u32) -> Time {
    Time(n * 3_600_000)
}

#[test]
fn timetable_intervals_are_open() {
    let mut tt: Timetable<u8> = Timetable::new();
    tt.assign((hour(7), hour(8)), 0);
    assert!(tt.is_free((hour(8), hour(9))));
    assert!(tt.is_free((hour(6), hour(7))));
    assert!(!tt.is_free((hour(7), hour(9))));
    assert!(!tt.is_free((hour(7), hour(8))));
    assert!(!tt.is_free((hour(6), hour(10))));
    assert!(overlaps((hour(7), hour(8)), (hour(7), hour(8))));
    assert!(!overlaps((hour(7), hour(8)), (hour(8), hour(9))));
}
