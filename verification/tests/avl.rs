use bus_spotting::avl::{load, AvlRecord};
use bus_spotting::error::LoadError;
use bus_spotting::model::VehicleName;
use bus_spotting::time::Time;

fn row(vehicle: &str, datetime: &str) -> AvlRecord {
    AvlRecord { vehicle_name: vehicle.to_string(), datetime: datetime.to_string() }
}

fn hms(h: u32, m: u32, s: u32) -> Time {
    Time((h * 3600 + m * 60 + s) * 1000)
}

#[test]
fn avl_rows_grouped_by_vehicle_in_name_order() {
    let records = vec![
        row("BUS2", "2019-09-02 07:00:05"),
        row("BUS1", "2019-09-02 07:01:00"),
        row("BUS2", "2019-09-02 23:59:59"),
        row("BUS1", "2019-09-03 00:00:01"),
    ];
    let per_vehicle = load(&records).unwrap();
    assert_eq!(per_vehicle.len(), 2);
    assert_eq!(per_vehicle[0].0, VehicleName("BUS1".to_string()));
    assert_eq!(per_vehicle[0].1, vec![(1, hms(7, 1, 0)), (3, hms(0, 0, 1))]);
    assert_eq!(per_vehicle[1].0, VehicleName("BUS2".to_string()));
    assert_eq!(per_vehicle[1].1, vec![(0, hms(7, 0, 5)), (2, hms(23, 59, 59))]);
    assert_eq!(load(&Vec::new()).unwrap().len(), 0);
}

#[test]
fn avl_rows_fail_at_first_bad_time() {
    let records = vec![
        row("BUS1", "2019-09-02 07:00:00"),
        row("BUS1", "02/09/2019 07:01:00"),
        row("BUS2", "yesterday"),
    ];
    assert_eq!(load(&records).err(), Some(LoadError::BadDateTime("02/09/2019 07:01:00".to_string())));
}
