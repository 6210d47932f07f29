use vstd::prelude::*;

use crate::error::LoadError;
use crate::ids::{IDMapping, IdError, StopID, TripID};
use crate::orig;
use crate::sort::{key_fn, stable_sort, stable_sorted_by, stable_sorted_map, SortKey};
use crate::time::{parsed_time, Time};

verus! {

/// When a trip is scheduled at a stop.
#[derive(Clone, Copy, Debug, PartialEq, Eq, Structural)]
pub struct StopTime {
    pub arrival_time: Time,
    pub departure_time: Time,
    pub stop_id: StopID,
}

/// One row of `stop_times.txt`.
pub struct StopTimeRecord {
    pub trip_id: orig::TripID,
    pub arrival_time: String,
    pub departure_time: String,
    pub stop_id: orig::StopID,
    pub stop_sequence: usize,
}

impl SortKey for (usize, StopTime) {
    open spec fn key(&self) -> int {
        self.0 as int
    }

    fn key_of(&self) -> (k: i128) {
        self.0 as i128
    }
}

/// What is wrong with a row: a malformed arrival or departure time, an arrival after the
/// departure, an unknown trip, or an unknown stop, checked in that order.
pub open spec fn stop_time_error(r: StopTimeRecord, stops: Map<Seq<char>, nat>, trips: Map<Seq<char>, nat>) -> Option<LoadError> {
    match parsed_time(r.arrival_time@) {
        None => Some(LoadError::BadTime(r.arrival_time)),
        Some(a) => match parsed_time(r.departure_time@) {
            None => Some(LoadError::BadTime(r.departure_time)),
            Some(d) => if a.ms() > d.ms() {
                Some(LoadError::ArrivalAfterDeparture(a, d))
            } else if !trips.dom().contains(r.trip_id.0@) {
                Some(LoadError::Id(IdError::Unknown(r.trip_id.0)))
            } else if !stops.dom().contains(r.stop_id.0@) {
                Some(LoadError::Id(IdError::Unknown(r.stop_id.0)))
            } else {
                None
            },
        },
    }
}

/// The stop time a valid row gives, with its position in the trip.
pub open spec fn row_stop_time(r: StopTimeRecord, stops: Map<Seq<char>, nat>) -> (usize, StopTime) {
    (
        r.stop_sequence,
        StopTime {
            arrival_time: parsed_time(r.arrival_time@).unwrap(),
            departure_time: parsed_time(r.departure_time@).unwrap(),
            stop_id: StopID(stops[r.stop_id.0@] as usize),
        },
    )
}

/// The rows of trip `t`, in file order.
pub open spec fn rows_of_trip(
    records: Seq<StopTimeRecord>,
    stops: Map<Seq<char>, nat>,
    trips: Map<Seq<char>, nat>,
    t: nat,
) -> Seq<(usize, StopTime)>
    decreases records.len(),
{
    if records.len() == 0 {
        Seq::empty()
    } else {
        let rest = rows_of_trip(records.drop_last(), stops, trips, t);
        if trips[records.last().trip_id.0@] == t {
            rest.push(row_stop_time(records.last(), stops))
        } else {
            rest
        }
    }
}

/// The stop times of trip `t`: its rows sorted by stop sequence, rows with the same sequence
/// number in file order.
pub open spec fn trip_stop_times(
    records: Seq<StopTimeRecord>,
    stops: Map<Seq<char>, nat>,
    trips: Map<Seq<char>, nat>,
    t: nat,
) -> Seq<StopTime> {
    stable_sorted_by(rows_of_trip(records, stops, trips, t), key_fn::<(usize, StopTime)>()).map_values(
        |p: (usize, StopTime)| p.1,
    )
}

/// The stop times of each trip, by trip identifier, from the rows of `stop_times.txt` in file
/// order: each trip's rows sorted by stop sequence, in case the file is out of order. A trip
/// without rows gets none. Fails at the first row with a malformed time, an arrival after the
/// departure, or an unknown trip or stop.
pub fn load(
    records: Vec<StopTimeRecord>,
    stop_ids: &IDMapping<orig::StopID, StopID>,
    trip_ids: &IDMapping<orig::TripID, TripID>,
) -> (r: Result<Vec<Vec<StopTime>>, LoadError>)
    requires
        stop_ids.wf(),
        trip_ids.wf(),
        forall|t: Seq<char>| #[trigger] trip_ids.mapping().dom().contains(t) ==> trip_ids.mapping()[t] < trip_ids.count(),
    ensures
        match r {
            Ok(lists) => {
                &&& forall|i: int|
                    0 <= i < records@.len() ==> stop_time_error(
                        #[trigger] records@[i],
                        stop_ids.mapping(),
                        trip_ids.mapping(),
                    ) is None
                &&& lists@.len() == trip_ids.count()
                &&& forall|t: int|
                    0 <= t < lists@.len() ==> (#[trigger] lists@[t])@ == trip_stop_times(
                        records@,
                        stop_ids.mapping(),
                        trip_ids.mapping(),
                        t as nat,
                    )
            },
            Err(e) => exists|i: int|
                0 <= i < records@.len() && stop_time_error(records@[i], stop_ids.mapping(), trip_ids.mapping()) == Some(e)
                    && forall|j: int|
                    0 <= j < i ==> stop_time_error(#[trigger] records@[j], stop_ids.mapping(), trip_ids.mapping()) is None,
        },
{
    let ghost stops = stop_ids.mapping();
    let ghost trips = trip_ids.mapping();
    let count = trip_ids.borrow().0.len();
    let mut rows: Vec<Vec<(usize, StopTime)>> = Vec::new();
    while rows.len() < count
        invariant
            rows@.len() <= count,
            forall|t: int| 0 <= t < rows@.len() ==> (#[trigger] rows@[t])@ == Seq::<(usize, StopTime)>::empty(),
        decreases count - rows@.len(),
    {
        rows.push(Vec::new());
    }
    let mut i: usize = 0;
    proof {
        assert(records@.take(0) =~= Seq::<StopTimeRecord>::empty());
    }
    while i < records.len()
        invariant
            stop_ids.wf(),
            trip_ids.wf(),
            stops == stop_ids.mapping(),
            trips == trip_ids.mapping(),
            forall|t: Seq<char>| #[trigger] trips.dom().contains(t) ==> trips[t] < count,
            rows@.len() == count,
            i <= records@.len(),
            forall|j: int| 0 <= j < i ==> stop_time_error(#[trigger] records@[j], stops, trips) is None,
            forall|t: int| 0 <= t < count ==> (#[trigger] rows@[t])@ == rows_of_trip(records@.take(i as int), stops, trips, t as nat),
        decreases records@.len() - i,
    {
        let rec = &records[i];
        let arrival = match Time::parse(rec.arrival_time.as_str()) {
            Some(t) => t,
            None => {
                return Err(LoadError::BadTime(rec.arrival_time.clone()));
            },
        };
        let departure = match Time::parse(rec.departure_time.as_str()) {
            Some(t) => t,
            None => {
                return Err(LoadError::BadTime(rec.departure_time.clone()));
            },
        };
        if arrival.0 > departure.0 {
            return Err(LoadError::ArrivalAfterDeparture(arrival, departure));
        }
        let trip = match trip_ids.lookup(&rec.trip_id) {
            Ok(t) => t,
            Err(_) => {
                return Err(LoadError::Id(IdError::Unknown(rec.trip_id.0.clone())));
            },
        };
        let stop = match stop_ids.lookup(&rec.stop_id) {
            Ok(s) => s,
            Err(_) => {
                return Err(LoadError::Id(IdError::Unknown(rec.stop_id.0.clone())));
            },
        };
        let entry = (rec.stop_sequence, StopTime { arrival_time: arrival, departure_time: departure, stop_id: stop });
        let ghost before = rows@;
        proof {
            assert(records@.take(i + 1).drop_last() =~= records@.take(i as int));
            assert(records@.take(i + 1).last() == *rec);
            assert(entry == row_stop_time(*rec, stops));
        }
        rows[trip.0].push(entry);
        proof {
            assert forall|t: int| 0 <= t < count implies (#[trigger] rows@[t])@ == rows_of_trip(
                records@.take(i + 1),
                stops,
                trips,
                t as nat,
            ) by {
                if t != trip.0 {
                    assert(rows@[t] == before[t]);
                }
            }
        }
        i += 1;
    }
    proof {
        assert(records@.take(i as int) =~= records@);
    }
    let mut lists: Vec<Vec<StopTime>> = Vec::new();
    let mut t: usize = 0;
    while t < count
        invariant
            rows@.len() == count,
            t <= count,
            lists@.len() == t,
            forall|q: int| t <= q < count ==> (#[trigger] rows@[q])@ == rows_of_trip(records@, stops, trips, q as nat),
            forall|q: int| 0 <= q < t ==> (#[trigger] lists@[q])@ == trip_stop_times(records@, stops, trips, q as nat),
        decreases count - t,
    {
        let mut taken: Vec<(usize, StopTime)> = Vec::new();
        let ghost before = rows@;
        std::mem::swap(&mut taken, &mut rows[t]);
        proof {
            assert(taken@ == before[t as int]@);
            assert forall|q: int| t < q < count implies (#[trigger] rows@[q])@ == rows_of_trip(records@, stops, trips, q as nat) by {
                assert(rows@[q] == before[q]);
            }
        }
        let ghost unsorted = taken@;
        let sorted = stable_sort(taken);
        let mut list: Vec<StopTime> = Vec::new();
        let mut k: usize = 0;
        while k < sorted.len()
            invariant
                k <= sorted@.len(),
                list@ == sorted@.take(k as int).map_values(|p: (usize, StopTime)| p.1),
            decreases sorted@.len() - k,
        {
            list.push(sorted[k].1);
            k += 1;
            assert(list@ =~= sorted@.take(k as int).map_values(|p: (usize, StopTime)| p.1));
        }
        assert(sorted@.take(k as int) =~= sorted@);
        lists.push(list);
        t += 1;
    }
    Ok(lists)
}

} // verus!
