use bus_spotting::dates::Date;
use bus_spotting::error::LoadError;
use bus_spotting::ids::{IDMapping, IdError, StopID};
use bus_spotting::model::VehicleName;
use bus_spotting::orig;
use bus_spotting::ticketing::{load, split_into_journeys, CardID, JourneyLeg, TicketRecord};
use bus_spotting::time::Time;

const SEP_2_2019: i32 = 737304;

fn minutes(m: u32) -> Time {
    Time(m * 60 * 1000)
}

fn leg(time: Time, pos: usize) -> JourneyLeg {
    JourneyLeg { time, pos, route_short_name: "10".to_string(), vehicle_name: VehicleName("BUS".to_string()) }
}

fn record(datetime: &str, card: &str, vehicle: &str, pos: usize) -> TicketRecord {
    TicketRecord {
        datetime: datetime.to_string(),
        vehicle_name: VehicleName(vehicle.to_string()),
        route_short_name: "10".to_string(),
        card_id: CardID(card.to_string()),
        pos,
    }
}

#[test]
fn at_most_four_boardings_per_journey() {
    let legs = vec![leg(minutes(40), 4), leg(minutes(0), 0), leg(minutes(10), 1), leg(minutes(20), 2), leg(minutes(30), 3)];
    let journeys = split_into_journeys(CardID("C".to_string()), legs);
    assert_eq!(journeys.len(), 2);
    assert_eq!(journeys[0].legs.iter().map(|l| l.pos).collect::<Vec<_>>(), vec![0, 1, 2, 3]);
    assert_eq!(journeys[1].legs.iter().map(|l| l.pos).collect::<Vec<_>>(), vec![4]);
    assert_eq!(journeys[1].card_id, CardID("C".to_string()));
}

#[test]
fn journeys_last_two_hours_from_the_first_boarding() {
    let legs = vec![leg(minutes(0), 0), leg(minutes(119), 1), leg(minutes(120), 2), leg(minutes(200), 3)];
    let journeys = split_into_journeys(CardID("C".to_string()), legs);
    assert_eq!(journeys.len(), 2);
    assert_eq!(journeys[0].legs.len(), 2);
    assert_eq!(journeys[1].legs.iter().map(|l| l.pos).collect::<Vec<_>>(), vec![2, 3]);
}

#[test]
fn ticketing_rows_become_journeys_by_card() {
    let (journeys, day) = load(vec![
        record("02/09/2019 07:02:00", "C2", "BUS1", 0),
        record("02/09/2019 10:01:00", "C1", "BUS2", 1),
        record("02/09/2019 08:11:00", "C2", "BUS1", 2),
        record("03/09/2019 00:30:00", "C1", "BUS1", 3),
    ])
    .unwrap();
    assert_eq!(day, Date(SEP_2_2019));
    assert_eq!(journeys.len(), 3);
    // C1 first: 10:01, then 00:30 the next day (24:30), too late for the same journey.
    assert_eq!(journeys[0].card_id, CardID("C1".to_string()));
    assert_eq!(journeys[0].legs[0].time, Time((10 * 3600 + 60) * 1000));
    assert_eq!(journeys[1].legs[0].time, Time((24 * 3600 + 30 * 60) * 1000));
    assert_eq!(journeys[1].legs[0].pos, 3);
    // C2's two taps are within two hours.
    assert_eq!(journeys[2].card_id, CardID("C2".to_string()));
    assert_eq!(journeys[2].legs.len(), 2);
    assert_eq!(journeys[2].legs[1].vehicle_name, VehicleName("BUS1".to_string()));
    // Every row lands in exactly one journey.
    assert_eq!(journeys.iter().map(|j| j.legs.len()).sum::<usize>(), 4);
}

#[test]
fn ticketing_rejects_bad_date() {
    let r = load(vec![record("02/09/2019 07:02:00", "C", "B", 0), record("2019-09-02 07:02", "C", "B", 1)]);
    assert_eq!(r.err(), Some(LoadError::BadDateTime("2019-09-02 07:02".to_string())));
}

#[test]
fn id_mapping_numbers_identifiers() {
    let mut ids: IDMapping<orig::StopID, StopID> = IDMapping::new();
    assert_eq!(ids.insert_new(orig::StopID("b".to_string())), Ok(StopID(0)));
    assert_eq!(ids.insert_new(orig::StopID("a".to_string())), Ok(StopID(1)));
    assert_eq!(ids.insert_new(orig::StopID("b".to_string())), Err(IdError::Duplicate("b".to_string())));
    assert_eq!(ids.insert_idempotent(&orig::StopID("a".to_string())), StopID(1));
    assert_eq!(ids.insert_idempotent(&orig::StopID("c".to_string())), StopID(2));
    // A refused duplicate still takes the number it would have had, as a map insert does.
    assert_eq!(ids.lookup(&orig::StopID("b".to_string())), Ok(StopID(2)));
    assert_eq!(ids.lookup(&orig::StopID("z".to_string())), Err(IdError::Unknown("z".to_string())));
    let (keys, values) = ids.borrow();
    assert_eq!(keys.len(), 3);
    assert_eq!(keys[0], orig::StopID("a".to_string()));
    assert_eq!(values[0], StopID(1));
    assert_eq!(values[2], StopID(2));
}

#[test]
fn lookup_after_later_insertions() {
    let mut ids: IDMapping<orig::StopID, StopID> = IDMapping::new();
    assert_eq!(ids.insert_new(orig::StopID("m".to_string())), Ok(StopID(0)));
    assert_eq!(ids.insert_new(orig::StopID("a".to_string())), Ok(StopID(1)));
    assert_eq!(ids.insert_idempotent(&orig::StopID("m".to_string())), StopID(0));
    assert_eq!(ids.insert_idempotent(&orig::StopID("z".to_string())), StopID(2));
    assert_eq!(ids.insert_new(orig::StopID("b".to_string())), Ok(StopID(3)));
    assert_eq!(ids.lookup(&orig::StopID("m".to_string())), Ok(StopID(0)));
    assert_eq!(ids.lookup(&orig::StopID("a".to_string())), Ok(StopID(1)));
}
