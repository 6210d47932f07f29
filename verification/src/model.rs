use vstd::prelude::*;

use crate::boarding::BoardingEvent;
use crate::dates::{chrono_parse_date, parse_date_with, Date};
use crate::error::LoadError;
use crate::gtfs::GTFS;
use crate::format::{decimal, usize_text};
use crate::ids::{CheapID, IDMapping, IdError, OrigKey, TripID};
use crate::text::TextKeyed;
use crate::ticketing::Journey;
use crate::timetable::Timetable;

verus! {

/// A vehicle's name in the input data.
#[derive(Clone, Debug, PartialEq, Eq, PartialOrd, Ord, Hash)]
pub struct VehicleName(pub String);

impl TextKeyed for VehicleName {
    open spec fn key_text(&self) -> Seq<char> {
        self.0@
    }

    fn key_str(&self) -> (r: &str) {
        self.0.as_str()
    }
}

impl OrigKey for VehicleName {
    fn duplicate(&self) -> (r: Self) {
        VehicleName(self.0.clone())
    }
}

#[derive(Clone, Copy, Debug, PartialEq, Eq, PartialOrd, Ord, Hash, Structural)]
pub struct VehicleID(pub usize);

impl CheapID for VehicleID {
    open spec fn index(&self) -> nat {
        self.0 as nat
    }

    fn new(x: usize) -> (id: Self) {
        VehicleID(x)
    }
}

/// One vehicle of the day. Its trajectory stays with the caller.
pub struct Vehicle {
    pub id: VehicleID,
    pub original_id: VehicleName,
    /// The trips the vehicle was found to serve.
    pub timetable: Timetable<TripID>,
}

/// What happened on one day: vehicles, the schedule, ticketing journeys, and the boarding
/// events joining them.
pub struct Model {
    pub vehicles: Vec<Vehicle>,
    pub vehicle_ids: IDMapping<VehicleName, VehicleID>,
    pub gtfs: GTFS,
    pub journeys: Vec<Journey>,
    /// Sorted by arrival time.
    pub boardings: Vec<BoardingEvent>,
    /// The day covered by the vehicle and ticketing data, or a day of some service when there is
    /// none.
    pub main_date: Date,
}

/// The model of one day.
pub type DailyModel = Model;

impl Model {
    /// Vehicle `i` has identifier `i`, every mapped vehicle name points at a vehicle, and the
    /// schedule is well formed.
    pub open spec fn wf(&self) -> bool {
        &&& self.vehicle_ids.wf()
        &&& self.gtfs.wf()
        &&& forall|i: int| 0 <= i < self.vehicles@.len() ==> (#[trigger] self.vehicles@[i]).id.0 == i
        &&& forall|t: Seq<char>|
            #[trigger] self.vehicle_ids.mapping().dom().contains(t) ==> self.vehicle_ids.mapping()[t]
                < self.vehicles@.len()
    }

    /// A model with no data, dated January 1, 2020.
    pub fn empty() -> (m: Self)
        ensures
            m.wf(),
            m.vehicles@.len() == 0,
            m.vehicle_ids.count() == 0,
            m.journeys@.len() == 0,
            m.boardings@.len() == 0,
            m.gtfs.routes@.len() == 0,
            m.gtfs.stops@.len() == 0,
            m.gtfs.calendar.services@.len() == 0,
            m.vehicle_ids.mapping() == Map::<Seq<char>, nat>::empty(),
            m.main_date == Date(737425),
    {
        Model {
            vehicles: Vec::new(),
            vehicle_ids: IDMapping::new(),
            gtfs: GTFS::empty(),
            journeys: Vec::new(),
            boardings: Vec::new(),
            // 2020-01-01
            main_date: Date(737425),
        }
    }

    /// The vehicle with this name, if any.
    pub fn lookup_vehicle(&self, name: &VehicleName) -> (r: Option<&Vehicle>)
        requires
            self.wf(),
        ensures
            match r {
                Some(v) => self.vehicle_ids.mapping().dom().contains(name.key_text()) && *v
                    == self.vehicles@[self.vehicle_ids.mapping()[name.key_text()] as int],
                None => !self.vehicle_ids.mapping().dom().contains(name.key_text()),
            },
    {
        match self.vehicle_ids.lookup(name) {
            Ok(id) => Some(&self.vehicles[id.0]),
            Err(_) => None,
        }
    }
}

/// No two of the first `n` names are the same.
pub open spec fn distinct_names(names: Seq<VehicleName>, n: int) -> bool {
    forall|a: int, b: int| 0 <= a < b < n ==> (#[trigger] names[a]).0@ != (#[trigger] names[b]).0@
}

/// Name `i` repeats an earlier one.
pub open spec fn repeats_name(names: Seq<VehicleName>, i: int) -> bool {
    exists|j: int| 0 <= j < i && (#[trigger] names[j]).0@ == names[i].0@
}

/// The vehicles of a day are those named, in order, numbered from zero, with empty timetables.
pub open spec fn vehicles_named(m: Model, names: Seq<VehicleName>) -> bool {
    &&& distinct_names(names, names.len() as int)
    &&& m.vehicles@.len() == names.len()
    &&& m.vehicle_ids.count() == names.len()
    &&& forall|i: int|
        0 <= i < names.len() ==> {
            &&& (#[trigger] m.vehicles@[i]).original_id == names[i]
            &&& m.vehicles@[i].timetable.entries().len() == 0
            &&& m.vehicle_ids.mapping()[names[i].0@] == i
        }
    &&& forall|t: Seq<char>|
        m.vehicle_ids.mapping().dom().contains(t) <==> exists|i: int| 0 <= i < names.len() && (#[trigger] names[i]).0@ == t
}

impl Model {
    /// The model of one day: the schedule, the vehicles named in the position data (numbered in
    /// order), the day's ticketing journeys, and no boardings yet. Fails at the first repeated
    /// vehicle name.
    pub fn for_day(gtfs: GTFS, vehicle_names: Vec<VehicleName>, journeys: Vec<Journey>, main_date: Date) -> (r: Result<Model, LoadError>)
        requires
            gtfs.wf(),
        ensures
            match r {
                Ok(m) => {
                    &&& m.wf()
                    &&& vehicles_named(m, vehicle_names@)
                    &&& m.gtfs == gtfs
                    &&& m.journeys@ == journeys@
                    &&& m.boardings@.len() == 0
                    &&& m.main_date == main_date
                },
                Err(e) => exists|i: int|
                    0 <= i < vehicle_names@.len() && distinct_names(vehicle_names@, i) && repeats_name(vehicle_names@, i)
                        && e == LoadError::Id(IdError::Duplicate(vehicle_names@[i].0)),
            },
    {
        let ghost names = vehicle_names@;
        let mut vehicles: Vec<Vehicle> = Vec::new();
        let mut ids: IDMapping<VehicleName, VehicleID> = IDMapping::new();
        for name in it: vehicle_names.into_iter()
            invariant
                it.seq() == names,
                ids.wf(),
                ids.count() == it.index(),
                vehicles@.len() == it.index(),
                distinct_names(names, it.index() as int),
                forall|k: int|
                    0 <= k < it.index() ==> {
                        &&& (#[trigger] vehicles@[k]).original_id == names[k]
                        &&& vehicles@[k].id.0 == k
                        &&& vehicles@[k].timetable.entries().len() == 0
                    },
                forall|t: Seq<char>|
                    ids.mapping().dom().contains(t) <==> exists|k: int| 0 <= k < it.index() && (#[trigger] names[k]).0@ == t,
                forall|k: int| 0 <= k < it.index() ==> ids.mapping()[(#[trigger] names[k]).0@] == k,
        {
            let ghost i = it.index();
            let ghost before = ids.mapping();
            match ids.insert_new(name.duplicate()) {
                Ok(id) => {
                    proof {
                        assert forall|a: int, b: int| 0 <= a < b < i + 1 implies (#[trigger] names[a]).0@
                            != (#[trigger] names[b]).0@ by {
                            if b == i {
                                assert(before.dom().contains(names[a].0@));
                            }
                        }
                        assert forall|t: Seq<char>|
                            ids.mapping().dom().contains(t) <==> exists|k: int| 0 <= k < i + 1 && (#[trigger] names[k]).0@ == t by {
                            if ids.mapping().dom().contains(t) && t != name.0@ {
                                assert(before.dom().contains(t));
                            }
                            if t == name.0@ {
                                assert(names[i as int].0@ == t);
                            }
                        }
                        assert forall|k: int| 0 <= k < i + 1 implies ids.mapping()[(#[trigger] names[k]).0@] == k by {
                            if k < i {
                                assert(names[k].0@ != name.0@);
                            }
                        }
                    }
                    vehicles.push(Vehicle { id, original_id: name, timetable: Timetable::new() });
                },
                Err(_) => {
                    proof {
                        let k = choose|k: int| 0 <= k < i && (#[trigger] names[k]).0@ == name.0@;
                        assert(repeats_name(names, i as int));
                    }
                    return Err(LoadError::Id(IdError::Duplicate(name.0)));
                },
            }
        }
        let m = Model { vehicles, vehicle_ids: ids, gtfs, journeys, boardings: Vec::new(), main_date };
        proof {
            assert forall|t: Seq<char>| #[trigger] m.vehicle_ids.mapping().dom().contains(t) implies m.vehicle_ids.mapping()[t]
                < m.vehicles@.len() by {
                let k = choose|k: int| 0 <= k < names.len() && (#[trigger] names[k]).0@ == t;
                assert(m.vehicle_ids.mapping()[names[k].0@] == k);
            }
        }
        Ok(m)
    }

    /// A model of the schedule alone, with no vehicle or ticketing data, dated on the first day
    /// of the calendar's first service (in identifier order). The calendar must have a service.
    pub fn gtfs_only(gtfs: GTFS) -> (m: Model)
        requires
            gtfs.wf(),
            gtfs.calendar.services@.len() > 0,
        ensures
            m.wf(),
            m.vehicles@.len() == 0,
            m.vehicle_ids.count() == 0,
            m.journeys@.len() == 0,
            m.boardings@.len() == 0,
            m.main_date == gtfs.calendar.services@[0].start_date,
            m.gtfs == gtfs,
    {
        let main_date = gtfs.calendar.services[0].start_date;
        Model {
            vehicles: Vec::new(),
            vehicle_ids: IDMapping::new(),
            gtfs,
            journeys: Vec::new(),
            boardings: Vec::new(),
            main_date,
        }
    }
}

/// The name a vehicle standing for a scheduled trip gets: the trip's identifier as `Debug` prints
/// it.
pub open spec fn trip_vehicle_name(t: TripID) -> Seq<char> {
    "TripID("@ + decimal(t.0 as nat) + ")"@
}

impl Model {
    /// Replaces the day's vehicles by one vehicle per scheduled trip, named after the trip, in
    /// the order given; the journeys and boardings are dropped. The names must differ.
    pub fn replace_vehicles_with_gtfs(&mut self, trips: Vec<TripID>)
        requires
            old(self).wf(),
            forall|a: int, b: int|
                0 <= a < b < trips@.len() ==> trip_vehicle_name(#[trigger] trips@[a]) != trip_vehicle_name(
                    #[trigger] trips@[b],
                ),
        ensures
            final(self).wf(),
            final(self).gtfs == old(self).gtfs,
            final(self).main_date == old(self).main_date,
            final(self).journeys@.len() == 0,
            final(self).boardings@.len() == 0,
            final(self).vehicles@.len() == trips@.len(),
            final(self).vehicle_ids.count() == trips@.len(),
            forall|i: int|
                0 <= i < trips@.len() ==> {
                    &&& (#[trigger] final(self).vehicles@[i]).original_id.0@ == trip_vehicle_name(trips@[i])
                    &&& final(self).vehicles@[i].timetable.entries().len() == 0
                    &&& final(self).vehicle_ids.mapping()[trip_vehicle_name(trips@[i])] == i
                },
            forall|t: Seq<char>|
                final(self).vehicle_ids.mapping().dom().contains(t) <==> exists|i: int|
                    0 <= i < trips@.len() && trip_vehicle_name(#[trigger] trips@[i]) == t,
    {
        let ghost input = trips@;
        self.vehicles = Vec::new();
        self.vehicle_ids = IDMapping::new();
        self.journeys = Vec::new();
        self.boardings = Vec::new();
        let mut i: usize = 0;
        while i < trips.len()
            invariant
                input == trips@,
                i <= input.len(),
                forall|a: int, b: int|
                    0 <= a < b < input.len() ==> trip_vehicle_name(#[trigger] input[a]) != trip_vehicle_name(
                        #[trigger] input[b],
                    ),
                self.gtfs == old(self).gtfs,
                self.gtfs.wf(),
                self.main_date == old(self).main_date,
                self.journeys@.len() == 0,
                self.boardings@.len() == 0,
                self.vehicle_ids.wf(),
                self.vehicle_ids.count() == i,
                self.vehicles@.len() == i,
                forall|k: int|
                    0 <= k < i ==> {
                        &&& (#[trigger] self.vehicles@[k]).original_id.0@ == trip_vehicle_name(input[k])
                        &&& self.vehicles@[k].id.0 == k
                        &&& self.vehicles@[k].timetable.entries().len() == 0
                    },
                forall|t: Seq<char>|
                    self.vehicle_ids.mapping().dom().contains(t) <==> exists|k: int|
                        0 <= k < i && trip_vehicle_name(#[trigger] input[k]) == t,
                forall|k: int| 0 <= k < i ==> self.vehicle_ids.mapping()[trip_vehicle_name(#[trigger] input[k])] == k,
            decreases input.len() - i,
        {
            let name = digits_name(trips[i]);
            let ghost t = name@;
            let ghost before = self.vehicle_ids.mapping();
            match self.vehicle_ids.insert_new(VehicleName(name.clone())) {
                Ok(id) => {
                    proof {
                        assert forall|x: Seq<char>|
                            self.vehicle_ids.mapping().dom().contains(x) <==> exists|k: int|
                                0 <= k < i + 1 && trip_vehicle_name(#[trigger] input[k]) == x by {
                            if self.vehicle_ids.mapping().dom().contains(x) && x != t {
                                assert(before.dom().contains(x));
                            }
                            if x == t {
                                assert(trip_vehicle_name(input[i as int]) == x);
                            }
                        }
                        assert forall|k: int| 0 <= k < i + 1 implies self.vehicle_ids.mapping()[trip_vehicle_name(
                            #[trigger] input[k],
                        )] == k by {
                            if k < i {
                                assert(trip_vehicle_name(input[k]) != t);
                            }
                        }
                    }
                    let vehicle = Vehicle { id, original_id: VehicleName(name), timetable: Timetable::new() };
                    self.vehicles.push(vehicle);
                },
                Err(_) => {
                    proof {
                        let k = choose|k: int| 0 <= k < i && trip_vehicle_name(#[trigger] input[k]) == t;
                        assert(trip_vehicle_name(input[k]) != trip_vehicle_name(input[i as int]));
                    }
                },
            }
            i += 1;
        }
        proof {
            assert forall|t: Seq<char>| #[trigger] self.vehicle_ids.mapping().dom().contains(t) implies self.vehicle_ids.mapping()[t]
                < self.vehicles@.len() by {
                let k = choose|k: int| 0 <= k < i && trip_vehicle_name(#[trigger] input[k]) == t;
                assert(self.vehicle_ids.mapping()[trip_vehicle_name(input[k])] == k);
            }
        }
    }
}

/// The name of the vehicle standing for a trip.
fn digits_name(t: TripID) -> (r: String)
    ensures
        r@ == trip_vehicle_name(t),
{
    let mut name = String::from_str("TripID(");
    let digits = usize_text(t.0);
    name.append(digits.as_str());
    name.append(")");
    name
}

/// The format of the dates in the names of the daily files.
pub open spec fn file_date_format() -> Seq<char> {
    "%Y-%m-%d"@
}

/// The day a file is for: its name is `prefix`, a date and `.csv`.
pub open spec fn file_day(name: Seq<char>, prefix: Seq<char>) -> Option<int> {
    if name.len() >= prefix.len() + 4 && name.take(prefix.len() as int) == prefix && name.subrange(
        name.len() - 4,
        name.len() as int,
    ) == ".csv"@ {
        chrono_parse_date(name.subrange(prefix.len() as int, name.len() - 4), file_date_format())
    } else {
        None
    }
}

/// The last of the named files that is for day `day`.
pub open spec fn last_file_for(names: Seq<String>, prefix: Seq<char>, day: int) -> Option<Seq<char>>
    decreases names.len(),
{
    if names.len() == 0 {
        None
    } else if file_day(names.last()@, prefix) == Some(day) {
        Some(names.last()@)
    } else {
        last_file_for(names.drop_last(), prefix, day)
    }
}

/// Strictly increasing by day.
pub open spec fn days_increasing(files: Seq<(Date, String)>) -> bool {
    forall|a: int, b: int| 0 <= a < b < files.len() ==> (#[trigger] files[a]).0.0 < (#[trigger] files[b]).0.0
}

/// `files` lists, by increasing day, each day that some file is for, with the last file for it.
pub open spec fn files_by_day(files: Seq<(Date, String)>, names: Seq<String>, prefix: Seq<char>) -> bool {
    &&& days_increasing(files)
    &&& forall|k: int| 0 <= k < files.len() ==> last_file_for(names, prefix, (#[trigger] files[k]).0.0 as int) == Some(files[k].1@)
    &&& forall|day: int|
        #[trigger] last_file_for(names, prefix, day) is Some ==> exists|k: int| 0 <= k < files.len() && (#[trigger] files[k]).0.0 == day
}

fn ends_with_csv(s: &str, from: usize) -> (r: bool)
    requires
        from <= s@.len(),
    ensures
        r == (s@.len() >= from + 4 && s@.subrange(s@.len() - 4, s@.len() as int) == ".csv"@),
{
    proof {
        reveal_strlit(".csv");
    }
    let n = s.unicode_len();
    if n < 4 || n - 4 < from {
        return false;
    }
    let ok = s.get_char(n - 4) == '.' && s.get_char(n - 3) == 'c' && s.get_char(n - 2) == 's' && s.get_char(n - 1) == 'v';
    proof {
        if ok {
            assert(s@.subrange(s@.len() - 4, s@.len() as int) =~= ".csv"@);
        } else if s@.subrange(s@.len() - 4, s@.len() as int) == ".csv"@ {
            assert(s@.subrange(s@.len() - 4, s@.len() as int)[0] == '.');
            assert(s@.subrange(s@.len() - 4, s@.len() as int)[1] == 'c');
            assert(s@.subrange(s@.len() - 4, s@.len() as int)[2] == 's');
            assert(s@.subrange(s@.len() - 4, s@.len() as int)[3] == 'v');
        }
    }
    ok
}

fn starts_with(s: &str, prefix: &str) -> (r: bool)
    ensures
        r == (s@.len() >= prefix@.len() && s@.take(prefix@.len() as int) == prefix@),
{
    let n = s.unicode_len();
    let p = prefix.unicode_len();
    if n < p {
        return false;
    }
    let mut i: usize = 0;
    while i < p
        invariant
            p == prefix@.len(),
            n == s@.len(),
            p <= n,
            i <= p,
            forall|k: int| 0 <= k < i ==> s@[k] == prefix@[k],
        decreases p - i,
    {
        if s.get_char(i) != prefix.get_char(i) {
            proof {
                if s@.take(p as int) == prefix@ {
                    assert(s@.take(p as int)[i as int] == s@[i as int]);
                }
            }
            return false;
        }
        i += 1;
    }
    assert(s@.take(p as int) =~= prefix@);
    true
}

/// The day a file is for, if its name is `prefix`, a date in `%Y-%m-%d` and `.csv`.
fn day_of_file(name: &str, prefix: &str) -> (r: Option<Date>)
    ensures
        match r {
            Some(d) => file_day(name@, prefix@) == Some(d.0 as int),
            None => file_day(name@, prefix@) is None,
        },
{
    if !starts_with(name, prefix) {
        return None;
    }
    let p = prefix.unicode_len();
    if !ends_with_csv(name, p) {
        return None;
    }
    let n = name.unicode_len();
    let middle = name.substring_char(p, n - 4);
    proof {
        reveal_strlit("%Y-%m-%d");
    }
    parse_date_with(middle, "%Y-%m-%d")
}

/// The files whose names are `prefix`, a date in `%Y-%m-%d` and `.csv`, by increasing date; of
/// several names for one date, the last one counts.
pub fn find_all_files(file_names: &Vec<String>, prefix: &str) -> (r: Vec<(Date, String)>)
    ensures
        files_by_day(r@, file_names@, prefix@),
{
    let mut results: Vec<(Date, String)> = Vec::new();
    let mut i: usize = 0;
    while i < file_names.len()
        invariant
            i <= file_names@.len(),
            files_by_day(results@, file_names@.take(i as int), prefix@),
        decreases file_names@.len() - i,
    {
        let ghost prev = file_names@.take(i as int);
        let ghost next = file_names@.take(i + 1);
        proof {
            assert(next.drop_last() =~= prev);
            assert(next.last() == file_names@[i as int]);
        }
        match day_of_file(file_names[i].as_str(), prefix) {
            Some(day) => {
                let ghost before = results@;
                let mut k: usize = 0;
                while k < results.len() && results[k].0.0 < day.0
                    invariant
                        k <= results@.len(),
                        results@ == before,
                        forall|q: int| 0 <= q < k ==> (#[trigger] results@[q]).0.0 < day.0,
                    decreases results@.len() - k,
                {
                    k += 1;
                }
                let entry = (day, file_names[i].clone());
                if k < results.len() && results[k].0.0 == day.0 {
                    results.set(k, entry);
                    proof {
                        assert forall|d: int| #[trigger] last_file_for(next, prefix@, d) is Some implies exists|q: int|
                            0 <= q < results@.len() && (#[trigger] results@[q]).0.0 == d by {
                            if d != day.0 {
                                assert(last_file_for(prev, prefix@, d) is Some);
                                let q = choose|q: int| 0 <= q < before.len() && (#[trigger] before[q]).0.0 == d;
                                assert(results@[q].0.0 == d);
                            } else {
                                assert(results@[k as int].0.0 == d);
                            }
                        }
                        assert forall|q: int| 0 <= q < results@.len() implies last_file_for(
                            next,
                            prefix@,
                            (#[trigger] results@[q]).0.0 as int,
                        ) == Some(results@[q].1@) by {
                            if q != k {
                                assert(results@[q] == before[q]);
                            }
                        }
                    }
                } else {
                    results.insert(k, entry);
                    proof {
                        assert forall|a: int, b: int| 0 <= a < b < results@.len() implies (#[trigger] results@[a]).0.0
                            < (#[trigger] results@[b]).0.0 by {
                            if b < k {
                                assert(results@[a] == before[a] && results@[b] == before[b]);
                            } else if b == k {
                                assert(results@[a] == before[a]);
                            } else if a < k {
                                assert(results@[a] == before[a] && results@[b] == before[b - 1]);
                            } else if a == k {
                                assert(results@[b] == before[b - 1]);
                                assert(before[k as int].0.0 >= day.0);
                                if b - 1 > k {
                                    assert(before[k as int].0.0 < before[b - 1].0.0);
                                }
                            } else {
                                assert(results@[a] == before[a - 1] && results@[b] == before[b - 1]);
                            }
                        }
                        assert forall|d: int| #[trigger] last_file_for(next, prefix@, d) is Some implies exists|q: int|
                            0 <= q < results@.len() && (#[trigger] results@[q]).0.0 == d by {
                            if d != day.0 {
                                assert(last_file_for(prev, prefix@, d) is Some);
                                let q = choose|q: int| 0 <= q < before.len() && (#[trigger] before[q]).0.0 == d;
                                if q < k {
                                    assert(results@[q].0.0 == d);
                                } else {
                                    assert(results@[q + 1].0.0 == d);
                                }
                            } else {
                                assert(results@[k as int].0.0 == d);
                            }
                        }
                        assert forall|q: int| 0 <= q < results@.len() implies last_file_for(
                            next,
                            prefix@,
                            (#[trigger] results@[q]).0.0 as int,
                        ) == Some(results@[q].1@) by {
                            if q < k {
                                assert(results@[q] == before[q]);
                            } else if q > k {
                                assert(results@[q] == before[q - 1]);
                            }
                        }
                    }
                }
            },
            None => {
                proof {
                    assert forall|d: int| last_file_for(next, prefix@, d) == last_file_for(prev, prefix@, d) by {}
                }
            },
        }
        i += 1;
    }
    proof {
        assert(file_names@.take(i as int) =~= file_names@);
    }
    results
}

/// The file of `files` for day `day`, if any.
pub open spec fn file_on(files: Seq<(Date, String)>, day: int) -> Option<Seq<char>> {
    if exists|k: int| 0 <= k < files.len() && (#[trigger] files[k]).0.0 == day {
        Some(files[choose|k: int| 0 <= k < files.len() && (#[trigger] files[k]).0.0 == day].1@)
    } else {
        None
    }
}

/// The days that have both a position file and a ticketing file, in the order of the position
/// files: the day, the position file and the ticketing file.
pub open spec fn common_days(avl: Seq<(Date, String)>, bil: Seq<(Date, String)>) -> Seq<(int, Seq<char>, Seq<char>)>
    decreases avl.len(),
{
    if avl.len() == 0 {
        Seq::empty()
    } else {
        let rest = common_days(avl.drop_last(), bil);
        match file_on(bil, avl.last().0.0 as int) {
            Some(b) => rest.push((avl.last().0.0 as int, avl.last().1@, b)),
            None => rest,
        }
    }
}

/// A day's files as plain values.
pub open spec fn day_files_view(t: (Date, String, String)) -> (int, Seq<char>, Seq<char>) {
    (t.0.0 as int, t.1@, t.2@)
}

/// Pairs the position and ticketing files of each day that has both, in the order of the
/// position files. Each list holds a day at most once.
pub fn find_common_files(avl_files: Vec<(Date, String)>, bil_files: Vec<(Date, String)>) -> (r: Vec<(Date, String, String)>)
    requires
        days_increasing(avl_files@),
        days_increasing(bil_files@),
    ensures
        r@.map_values(|t: (Date, String, String)| day_files_view(t)) == common_days(avl_files@, bil_files@),
{
    let ghost avl = avl_files@;
    let mut results: Vec<(Date, String, String)> = Vec::new();
    for entry in it: avl_files.into_iter()
        invariant
            it.seq() == avl,
            days_increasing(bil_files@),
            results@.map_values(|t: (Date, String, String)| day_files_view(t)) == common_days(
                avl.take(it.index() as int),
                bil_files@,
            ),
    {
        let ghost i = it.index();
        proof {
            assert(avl.take(i + 1).drop_last() =~= avl.take(i as int));
            assert(avl.take(i + 1).last() == entry);
        }
        let (day, avl_name) = entry;
        let mut k: usize = 0;
        while k < bil_files.len() && bil_files[k].0.0 != day.0
            invariant
                k <= bil_files@.len(),
                forall|q: int| 0 <= q < k ==> (#[trigger] bil_files@[q]).0.0 != day.0,
            decreases bil_files@.len() - k,
        {
            k += 1;
        }
        let ghost before = results@;
        if k < bil_files.len() {
            proof {
                let c = choose|c: int| 0 <= c < bil_files@.len() && (#[trigger] bil_files@[c]).0.0 == day.0;
                if c != k {
                    assert(bil_files@[c].0.0 != bil_files@[k as int].0.0);
                }
                assert(file_on(bil_files@, day.0 as int) == Some(bil_files@[k as int].1@));
            }
            results.push((day, avl_name, bil_files[k].1.clone()));
            proof {
                assert(results@.map_values(|t: (Date, String, String)| day_files_view(t)) =~= before.map_values(
                    |t: (Date, String, String)| day_files_view(t),
                ).push(day_files_view(results@.last())));
            }
        } else {
            proof {
                assert(file_on(bil_files@, day.0 as int) is None);
            }
        }
    }
    proof {
        assert(avl.take(avl.len() as int) =~= avl);
    }
    results
}

} // verus!
