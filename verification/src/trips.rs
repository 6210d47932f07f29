use vstd::prelude::*;

use crate::calendar::ServiceID;
use crate::error::LoadError;
use crate::ids::{IDMapping, IdError, StopID, TripID};
use crate::text::copy_opt_text;
use crate::orig;
use crate::routes::{RouteID, ShapeID};
use crate::stop_times::StopTime;
use crate::time::Time;

verus! {

/// One scheduled run of a route.
#[derive(Clone, Debug)]
pub struct Trip {
    pub id: TripID,
    pub orig_id: orig::TripID,
    pub route_id: RouteID,
    pub shape_id: ShapeID,
    pub service_id: ServiceID,
    pub headsign: Option<String>,
    /// true is 0 in GTFS, false is 1. Inbound/outbound are arbitrary.
    pub outbound_direction: bool,
    /// In stop sequence order.
    pub stop_times: Vec<StopTime>,
}

/// Does the trip visit the stop?
pub open spec fn visits(stop_times: Seq<StopTime>, stop: StopID) -> bool {
    exists|i: int| 0 <= i < stop_times.len() && (#[trigger] stop_times[i]).stop_id == stop
}

impl Trip {
    /// The arrival time at the first visit of `stop_id`. The trip must visit the stop.
    pub fn arrival_at(&self, stop_id: StopID) -> (t: Time)
        requires
            visits(self.stop_times@, stop_id),
        ensures
            exists|i: int|
                0 <= i < self.stop_times@.len() && self.stop_times@[i].stop_id == stop_id
                    && self.stop_times@[i].arrival_time == t && forall|j: int|
                    0 <= j < i ==> (#[trigger] self.stop_times@[j]).stop_id != stop_id,
    {
        let mut i: usize = 0;
        while i < self.stop_times.len()
            invariant
                i <= self.stop_times.len(),
                visits(self.stop_times@, stop_id),
                forall|j: int| 0 <= j < i ==> (#[trigger] self.stop_times@[j]).stop_id != stop_id,
            decreases self.stop_times.len() - i,
        {
            if self.stop_times[i].stop_id.0 == stop_id.0 {
                return self.stop_times[i].arrival_time;
            }
            i += 1;
        }
        proof {
            let k = choose|k: int| 0 <= k < self.stop_times@.len() && (#[trigger] self.stop_times@[k]).stop_id == stop_id;
            assert(self.stop_times@[k].stop_id != stop_id);
        }
        self.stop_times[0].arrival_time
    }

    /// The arrival at the first stop and the departure from the last. The trip must have stop
    /// times.
    pub fn time_range(&self) -> (r: (Time, Time))
        requires
            self.stop_times@.len() > 0,
        ensures
            r.0 == self.stop_times@[0].arrival_time,
            r.1 == self.stop_times@.last().departure_time,
    {
        (self.stop_times[0].arrival_time, self.stop_times[self.stop_times.len() - 1].departure_time)
    }
}

/// One row of `trips.txt`.
pub struct TripRecord {
    pub trip_id: orig::TripID,
    pub route_id: RouteID,
    pub trip_headsign: Option<String>,
    pub direction_id: Option<usize>,
    pub shape_id: ShapeID,
    pub service_id: ServiceID,
}

/// The direction a `direction_id` column gives: 0 or none is outbound, 1 inbound; other values
/// are unknown.
pub open spec fn direction_value(d: Option<usize>) -> Option<bool> {
    match d {
        Some(x) => if x == 0 {
            Some(true)
        } else if x == 1 {
            Some(false)
        } else {
            None
        },
        None => Some(true),
    }
}

/// No two of the first `n` rows share an identifier.
pub open spec fn distinct_trip_ids(records: Seq<TripRecord>, n: int) -> bool {
    forall|a: int, b: int| 0 <= a < b < n ==> (#[trigger] records[a]).trip_id.0@ != (#[trigger] records[b]).trip_id.0@
}

/// Row `i` repeats the identifier of an earlier row.
pub open spec fn repeats_trip_id(records: Seq<TripRecord>, i: int) -> bool {
    exists|j: int| 0 <= j < i && (#[trigger] records[j]).trip_id.0@ == records[i].trip_id.0@
}

/// What is wrong with row `i`, given the rows before it: a repeated identifier, else an unknown
/// direction.
pub open spec fn trip_record_error(records: Seq<TripRecord>, i: int) -> Option<LoadError> {
    if repeats_trip_id(records, i) {
        Some(LoadError::Id(IdError::Duplicate(records[i].trip_id.0)))
    } else if direction_value(records[i].direction_id) is None {
        Some(LoadError::UnknownDirection(records[i].direction_id.unwrap()))
    } else {
        None
    }
}

/// The trip read from row `i`, before its stop times are attached.
pub open spec fn trip_from_record(t: Trip, r: TripRecord, i: int) -> bool {
    &&& t.id.0 == i
    &&& t.orig_id == r.trip_id
    &&& t.route_id == r.route_id
    &&& t.shape_id == r.shape_id
    &&& t.service_id == r.service_id
    &&& t.headsign == r.trip_headsign
    &&& direction_value(r.direction_id) == Some(t.outbound_direction)
    &&& t.stop_times@.len() == 0
}

/// Reads the rows of `trips.txt`, in file order: trip `i` comes from row `i`, and the mapping
/// gives each input identifier its row. Fails at the first row with a repeated identifier or
/// an unknown direction.
pub fn load(records: Vec<TripRecord>) -> (r: Result<(Vec<Trip>, IDMapping<orig::TripID, TripID>), LoadError>)
    ensures
        match r {
            Ok((trips, ids)) => {
                &&& forall|i: int| 0 <= i < records@.len() ==> (#[trigger] trip_record_error(records@, i)) is None
                &&& distinct_trip_ids(records@, records@.len() as int)
                &&& trips@.len() == records@.len()
                &&& forall|i: int| 0 <= i < records@.len() ==> trip_from_record(#[trigger] trips@[i], records@[i], i)
                &&& ids.wf()
                &&& ids.count() == records@.len()
                &&& forall|t: Seq<char>|
                    ids.mapping().dom().contains(t) <==> exists|i: int|
                        0 <= i < records@.len() && (#[trigger] records@[i]).trip_id.0@ == t
                &&& forall|i: int| 0 <= i < records@.len() ==> ids.mapping()[(#[trigger] records@[i]).trip_id.0@] == i
            },
            Err(e) => exists|i: int|
                0 <= i < records@.len() && trip_record_error(records@, i) == Some(e) && forall|j: int|
                    0 <= j < i ==> (#[trigger] trip_record_error(records@, j)) is None,
        },
{
    let mut trips: Vec<Trip> = Vec::new();
    let mut ids: IDMapping<orig::TripID, TripID> = IDMapping::new();
    let mut i: usize = 0;
    while i < records.len()
        invariant
            i <= records@.len(),
            ids.wf(),
            ids.count() == i,
            trips@.len() == i,
            distinct_trip_ids(records@, i as int),
            forall|k: int| 0 <= k < i ==> (#[trigger] trip_record_error(records@, k)) is None,
            forall|k: int| 0 <= k < i ==> trip_from_record(#[trigger] trips@[k], records@[k], k),
            forall|t: Seq<char>|
                ids.mapping().dom().contains(t) <==> exists|k: int| 0 <= k < i && (#[trigger] records@[k]).trip_id.0@ == t,
            forall|k: int| 0 <= k < i ==> ids.mapping()[(#[trigger] records@[k]).trip_id.0@] == k,
        decreases records@.len() - i,
    {
        let rec = &records[i];
        let ghost before = ids.mapping();
        let id = match ids.insert_new(orig::TripID(rec.trip_id.0.clone())) {
            Ok(id) => id,
            Err(_) => {
                proof {
                    let k = choose|k: int| 0 <= k < i && (#[trigger] records@[k]).trip_id.0@ == rec.trip_id.0@;
                    assert(repeats_trip_id(records@, i as int));
                    assert(trip_record_error(records@, i as int) == Some(LoadError::Id(IdError::Duplicate(rec.trip_id.0))));
                }
                return Err(LoadError::Id(IdError::Duplicate(rec.trip_id.0.clone())));
            },
        };
        proof {
            if repeats_trip_id(records@, i as int) {
                let k = choose|k: int| 0 <= k < i && (#[trigger] records@[k]).trip_id.0@ == rec.trip_id.0@;
                assert(before.dom().contains(rec.trip_id.0@));
            }
        }
        let outbound = match rec.direction_id {
            Some(x) => {
                if x == 0 {
                    true
                } else if x == 1 {
                    false
                } else {
                    assert(trip_record_error(records@, i as int) == Some(LoadError::UnknownDirection(x)));
                    return Err(LoadError::UnknownDirection(x));
                }
            },
            None => true,
        };
        proof {
            assert forall|a: int, b: int| 0 <= a < b < i + 1 implies (#[trigger] records@[a]).trip_id.0@
                != (#[trigger] records@[b]).trip_id.0@ by {
                if b == i {
                    assert(before.dom().contains(records@[a].trip_id.0@));
                }
            }
            assert forall|t: Seq<char>|
                ids.mapping().dom().contains(t) <==> exists|k: int| 0 <= k < i + 1 && (#[trigger] records@[k]).trip_id.0@ == t by {
                if ids.mapping().dom().contains(t) && t != rec.trip_id.0@ {
                    assert(before.dom().contains(t));
                }
                if t == rec.trip_id.0@ {
                    assert(records@[i as int].trip_id.0@ == t);
                }
            }
            assert forall|k: int| 0 <= k < i + 1 implies ids.mapping()[(#[trigger] records@[k]).trip_id.0@] == k by {
                if k < i {
                    assert(records@[k].trip_id.0@ != rec.trip_id.0@);
                }
            }
        }
        let trip = Trip {
            id,
            orig_id: orig::TripID(rec.trip_id.0.clone()),
            route_id: RouteID(rec.route_id.0.clone()),
            shape_id: ShapeID(rec.shape_id.0.clone()),
            service_id: ServiceID(rec.service_id.0.clone()),
            headsign: copy_opt_text(&rec.trip_headsign),
            outbound_direction: outbound,
            stop_times: Vec::new(),
        };
        trips.push(trip);
        proof {
            assert forall|k: int| 0 <= k < i + 1 implies trip_from_record(#[trigger] trips@[k], records@[k], k) by {
                if k == i {
                    assert(trips@[k] == trip);
                }
            }
        }
        i += 1;
    }
    Ok((trips, ids))
}

/// `t` is `before` with the stop times `times` attached.
pub open spec fn with_stop_times(t: Trip, before: Trip, times: Seq<StopTime>) -> bool {
    &&& t.id == before.id
    &&& t.orig_id == before.orig_id
    &&& t.route_id == before.route_id
    &&& t.shape_id == before.shape_id
    &&& t.service_id == before.service_id
    &&& t.headsign == before.headsign
    &&& t.outbound_direction == before.outbound_direction
    &&& t.stop_times@ == times
}

/// Gives each trip its stop times, the list at its identifier in `stop_times`. Fails at the
/// first trip without any.
pub fn attach_stop_times(trips: Vec<Trip>, stop_times: Vec<Vec<StopTime>>) -> (r: Result<Vec<Trip>, LoadError>)
    requires
        stop_times@.len() == trips@.len(),
        forall|i: int| 0 <= i < trips@.len() ==> (#[trigger] trips@[i]).id.0 == i,
    ensures
        match r {
            Ok(attached) => {
                &&& attached@.len() == trips@.len()
                &&& forall|i: int|
                    0 <= i < trips@.len() ==> with_stop_times(#[trigger] attached@[i], trips@[i], stop_times@[i]@)
                &&& forall|i: int| 0 <= i < trips@.len() ==> (#[trigger] stop_times@[i])@.len() > 0
            },
            Err(e) => exists|i: int|
                0 <= i < trips@.len() && stop_times@[i]@.len() == 0 && e == LoadError::NoStopTimes(trips@[i].orig_id.0)
                    && forall|j: int| 0 <= j < i ==> (#[trigger] stop_times@[j])@.len() > 0,
        },
{
    let ghost input = trips@;
    let ghost times = stop_times@;
    let mut out = trips;
    let mut lists = stop_times;
    let mut i: usize = 0;
    while i < out.len()
        invariant
            input == trips@,
            times == stop_times@,
            out@.len() == input.len(),
            lists@.len() == input.len(),
            times.len() == input.len(),
            forall|k: int| 0 <= k < input.len() ==> (#[trigger] input[k]).id.0 == k,
            i <= input.len(),
            forall|k: int| 0 <= k < i ==> with_stop_times(#[trigger] out@[k], input[k], times[k]@),
            forall|k: int| i <= k < input.len() ==> #[trigger] out@[k] == input[k],
            forall|k: int| i <= k < input.len() ==> #[trigger] lists@[k] == times[k],
            forall|k: int| 0 <= k < i ==> (#[trigger] times[k])@.len() > 0,
        decreases input.len() - i,
    {
        let mut list: Vec<StopTime> = Vec::new();
        let ghost before_lists = lists@;
        std::mem::swap(&mut list, &mut lists[i]);
        proof {
            assert(list == times[i as int]);
            assert forall|k: int| i < k < input.len() implies #[trigger] lists@[k] == times[k] by {
                assert(lists@[k] == before_lists[k]);
            }
        }
        if list.len() == 0 {
            proof {
                assert(out@[i as int] == input[i as int]);
                assert(times[i as int]@.len() == 0);
                assert(input == trips@ && times == stop_times@);
            }
            return Err(LoadError::NoStopTimes(out[i].orig_id.0.clone()));
        }
        let ghost before = out@;
        out[i].stop_times = list;
        proof {
            assert forall|k: int| 0 <= k < i + 1 implies with_stop_times(#[trigger] out@[k], input[k], times[k]@) by {
                if k < i {
                    assert(out@[k] == before[k]);
                }
            }
            assert forall|k: int| i + 1 <= k < input.len() implies #[trigger] out@[k] == input[k] by {
                assert(out@[k] == before[k]);
            }
        }
        i += 1;
    }
    Ok(out)
}

} // verus!
