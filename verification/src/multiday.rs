//! Boardings over many days, with vehicles numbered once for all of them.

use vstd::prelude::*;

use crate::boarding::{arrival_key, events_view, BoardingEvent, BoardingEventView};
use crate::dates::Date;
use crate::gtfs::GTFS;
use crate::gtfs::has_variant;
use crate::ids::{CheapID, IDMapping, OrigKey, StopID};
use crate::orig;
use crate::routes::{RouteID, RouteVariant, RouteVariantID};
use crate::text::{has_key, TextKeyed};
use crate::time::Time;
use crate::model::{Model, VehicleID, VehicleName};
use crate::sort::{
    key_fn, sorted_by, stable_sort, stable_sorted_by, stable_sorted_contains, stable_sorted_is_sorted_permutation,
    stable_sorted_map, sum_of, sum_of_insert, sum_of_update, SortKey,
};

verus! {

/// Summarizes bus data for many days.
pub struct MultidayModel {
    pub gtfs: GTFS,
    /// Sorted by day; each day's boardings sorted by arrival time.
    pub boardings_per_day: Vec<(Date, Vec<BoardingEvent>)>,
    pub vehicle_ids: IDMapping<VehicleName, VehicleID>,
}

impl SortKey for (Date, Vec<BoardingEvent>) {
    open spec fn key(&self) -> int {
        self.0.0 as int
    }

    fn key_of(&self) -> (k: i128) {
        self.0.0 as i128
    }
}

/// The name of the vehicle of each of a day's boardings, in order.
pub open spec fn event_names(m: Model) -> Seq<Seq<char>> {
    m.boardings@.map_values(|e: BoardingEvent| m.vehicles@[e.vehicle.0 as int].original_id.0@)
}

/// The vehicle names of the boardings of all the days, in order.
pub open spec fn all_event_names(models: Seq<Model>) -> Seq<Seq<char>>
    decreases models.len(),
{
    if models.len() == 0 {
        Seq::empty()
    } else {
        all_event_names(models.drop_last()) + event_names(models.last())
    }
}

/// Numbers names in the order they are first met: the numbering, and how many names it holds.
pub open spec fn first_seen(names: Seq<Seq<char>>) -> (Map<Seq<char>, nat>, nat)
    decreases names.len(),
{
    if names.len() == 0 {
        (Map::empty(), 0)
    } else {
        let (m, n) = first_seen(names.drop_last());
        if m.dom().contains(names.last()) {
            (m, n)
        } else {
            (m.insert(names.last(), n), n + 1)
        }
    }
}

/// A boarding with its vehicle renumbered.
pub open spec fn renumbered(e: BoardingEventView, v: VehicleID) -> BoardingEventView {
    BoardingEventView { vehicle: v, ..e }
}

/// A day's boardings as plain values.
pub open spec fn day_view(d: (Date, Vec<BoardingEvent>)) -> (Date, Seq<BoardingEventView>) {
    (d.0, d.1@.map_values(|e: BoardingEvent| e@))
}

/// Orders days by their date.
pub open spec fn day_key() -> spec_fn((Date, Seq<BoardingEventView>)) -> int {
    |d: (Date, Seq<BoardingEventView>)| d.0.0 as int
}

/// The boardings of model `m`, with each vehicle numbered by `ids`.
pub open spec fn renumbered_day(m: Model, ids: Map<Seq<char>, nat>) -> (Date, Seq<BoardingEventView>) {
    (
        m.main_date,
        Seq::new(
            m.boardings@.len(),
            |k: int| renumbered(m.boardings@[k]@, VehicleID(ids[event_names(m)[k]] as usize)),
        ),
    )
}

/// Each model's boardings name vehicles of that model.
pub open spec fn events_name_vehicles(models: Seq<Model>) -> bool {
    forall|i: int, k: int|
        0 <= i < models.len() && 0 <= k < models[i].boardings@.len() ==> (#[trigger] models[i].boardings@[k]).vehicle.0
            < models[i].vehicles@.len()
}

/// A numbering stays as it was on the names it held.
proof fn first_seen_push(names: Seq<Seq<char>>, x: Seq<char>)
    ensures
        first_seen(names).0.submap_of(first_seen(names.push(x)).0),
        first_seen(names.push(x)).0.dom().contains(x),
        first_seen(names).1 <= first_seen(names.push(x)).1,
{
    assert(names.push(x).drop_last() =~= names);
}

/// Names are numbered exactly when they occur, below the count.
proof fn first_seen_dom(names: Seq<Seq<char>>)
    ensures
        forall|t: Seq<char>| #[trigger] first_seen(names).0.dom().contains(t) <==> names.contains(t),
        forall|t: Seq<char>| #[trigger] first_seen(names).0.dom().contains(t) ==> first_seen(names).0[t] < first_seen(names).1,
        first_seen(names).1 <= names.len(),
    decreases names.len(),
{
    if names.len() > 0 {
        let rest = names.drop_last();
        first_seen_dom(rest);
        assert forall|t: Seq<char>| #[trigger] first_seen(names).0.dom().contains(t) <==> names.contains(t) by {
            if names.contains(t) && t != names.last() {
                let i = choose|i: int| 0 <= i < names.len() && names[i] == t;
                assert(rest[i] == t);
            }
            if rest.contains(t) {
                let i = choose|i: int| 0 <= i < rest.len() && rest[i] == t;
                assert(names[i] == t);
            }
            if t == names.last() {
                assert(names[names.len() - 1] == t);
            }
        }
    }
}

/// Vehicles are numbered once for all days: each name met gets its own number, below the count
/// of names, and only names met are numbered.
pub proof fn first_seen_numbers_names(names: Seq<Seq<char>>)
    ensures
        forall|t: Seq<char>| #[trigger] first_seen(names).0.dom().contains(t) <==> names.contains(t),
        forall|t: Seq<char>| #[trigger] first_seen(names).0.dom().contains(t) ==> first_seen(names).0[t] < first_seen(names).1,
        forall|t: Seq<char>, u: Seq<char>|
            first_seen(names).0.dom().contains(t) && first_seen(names).0.dom().contains(u) && t != u
                ==> #[trigger] first_seen(names).0[t] != #[trigger] first_seen(names).0[u],
    decreases names.len(),
{
    first_seen_dom(names);
    if names.len() > 0 {
        first_seen_numbers_names(names.drop_last());
        first_seen_dom(names.drop_last());
    }
}

/// A longer list keeps the numbers of the names of a shorter one.
proof fn first_seen_extends(a: Seq<Seq<char>>, b: Seq<Seq<char>>)
    ensures
        first_seen(a).0.submap_of(first_seen(a + b).0),
    decreases b.len(),
{
    if b.len() == 0 {
        assert(a + b =~= a);
    } else {
        first_seen_extends(a, b.drop_last());
        assert((a + b).drop_last() =~= a + b.drop_last());
        first_seen_push(a + b.drop_last(), b.last());
        assert(a + b.drop_last() + seq![b.last()] =~= a + b);
        assert((a + b.drop_last()).push(b.last()) =~= a + b);
    }
}

fn copy_with_vehicle(e: &BoardingEvent, v: VehicleID) -> (r: BoardingEvent)
    ensures
        r@ == renumbered(e@, v),
{
    let r = BoardingEvent {
        vehicle: v,
        variant: e.variant,
        trip: e.trip,
        stop: e.stop,
        arrival_time: e.arrival_time,
        departure_time: e.departure_time,
        new_riders: e.new_riders.clone(),
        transfers: e.transfers.clone(),
    };
    assert(r.new_riders@ =~= e.new_riders@);
    assert(r.transfers@ =~= e.transfers@);
    r
}

impl MultidayModel {
    /// A summary of no days, with an empty schedule.
    pub fn empty() -> (m: MultidayModel)
        ensures
            m.gtfs.wf(),
            m.gtfs.routes@.len() == 0,
            m.gtfs.stops@.len() == 0,
            m.gtfs.calendar.services@.len() == 0,
            m.boardings_per_day@.len() == 0,
            m.vehicle_ids.wf(),
            m.vehicle_ids.count() == 0,
            m.vehicle_ids.mapping() == Map::<Seq<char>, nat>::empty(),
    {
        MultidayModel { gtfs: GTFS::empty(), boardings_per_day: Vec::new(), vehicle_ids: IDMapping::new() }
    }

    /// Joins daily models: the schedule of the first; each day's boardings, with vehicles
    /// numbered anew by name, in the order the names are first met over the days; the days
    /// sorted by date, days of one date kept in their order. There must be a model, and the
    /// boardings of each must name its own vehicles.
    pub fn new_from_daily_models(models: Vec<Model>) -> (r: MultidayModel)
        requires
            models@.len() > 0,
            events_name_vehicles(models@),
        ensures
            r.gtfs == models@[0].gtfs,
            r.vehicle_ids.wf(),
            r.vehicle_ids.mapping() == first_seen(all_event_names(models@)).0,
            r.vehicle_ids.count() == first_seen(all_event_names(models@)).1,
            r.boardings_per_day@.map_values(|d: (Date, Vec<BoardingEvent>)| day_view(d)) == stable_sorted_by(
                models@.map_values(|m: Model| renumbered_day(m, first_seen(all_event_names(models@)).0)),
                day_key(),
            ),
            forall|a: int, b: int|
                0 <= a < b < r.boardings_per_day@.len() ==> (#[trigger] r.boardings_per_day@[a]).0.0
                    <= (#[trigger] r.boardings_per_day@[b]).0.0,
            (forall|i: int| 0 <= i < models@.len() ==> sorted_by(events_view((#[trigger] models@[i]).boardings@), arrival_key()))
                ==> forall|d: int|
                0 <= d < r.boardings_per_day@.len() ==> sorted_by(
                    events_view((#[trigger] r.boardings_per_day@[d]).1@),
                    arrival_key(),
                ),
    {
        let ghost input = models@;
        let ghost all_names = all_event_names(input);
        let ghost final_ids = first_seen(all_names).0;
        let mut ids: IDMapping<VehicleName, VehicleID> = IDMapping::new();
        let mut days: Vec<(Date, Vec<BoardingEvent>)> = Vec::new();
        let mut i: usize = 0;
        proof {
            assert(ids.mapping() =~= first_seen(all_event_names(input.take(0))).0) by {
                assert(input.take(0) =~= Seq::<Model>::empty());
            }
            assert(input.take(0) =~= Seq::<Model>::empty());
        }
        while i < models.len()
            invariant
                input == models@,
                events_name_vehicles(input),
                i <= input.len(),
                ids.wf(),
                ids.mapping() == first_seen(all_event_names(input.take(i as int))).0,
                ids.count() == first_seen(all_event_names(input.take(i as int))).1,
                days@.len() == i,
                forall|d: int|
                    0 <= d < i ==> (#[trigger] days@[d]).0 == input[d].main_date && days@[d].1@.len()
                        == input[d].boardings@.len(),
                forall|d: int, k: int|
                    0 <= d < i && 0 <= k < input[d].boardings@.len() ==> (#[trigger] days@[d].1@[k])@ == renumbered(
                        input[d].boardings@[k]@,
                        VehicleID(first_seen(all_event_names(input.take(i as int))).0[event_names(input[d])[k]] as usize),
                    ),
            decreases input.len() - i,
        {
            let model = &models[i];
            let ghost before_names = all_event_names(input.take(i as int));
            let ghost names_i = event_names(input[i as int]);
            let ghost before_ids = ids.mapping();
            let ghost before_days = days@;
            proof {
                assert(input.take(i + 1).drop_last() =~= input.take(i as int));
                assert(input.take(i + 1).last() == input[i as int]);
                assert(all_event_names(input.take(i + 1)) == before_names + names_i);
            }
            let mut events: Vec<BoardingEvent> = Vec::new();
            let mut k: usize = 0;
            proof {
                assert(before_names + names_i.take(0) =~= before_names);
            }
            while k < model.boardings.len()
                invariant
                    model == input[i as int],
                    i < input.len(),
                    events_name_vehicles(input),
                    names_i == event_names(input[i as int]),
                    k <= model.boardings@.len(),
                    ids.wf(),
                    ids.mapping() == first_seen(before_names + names_i.take(k as int)).0,
                    ids.count() == first_seen(before_names + names_i.take(k as int)).1,
                    events@.len() == k,
                    forall|q: int|
                        0 <= q < k ==> (#[trigger] events@[q])@ == renumbered(
                            model.boardings@[q]@,
                            VehicleID(first_seen(before_names + names_i.take(k as int)).0[names_i[q]] as usize),
                        ),
                decreases model.boardings@.len() - k,
            {
                let ev = &model.boardings[k];
                assert(ev.vehicle.0 < model.vehicles@.len()) by {
                    assert(input[i as int].boardings@[k as int] == *ev);
                }
                let name = &model.vehicles[ev.vehicle.0].original_id;
                let ghost prev = before_names + names_i.take(k as int);
                let ghost next = before_names + names_i.take(k + 1);
                proof {
                    assert(names_i[k as int] == name.0@);
                    assert(next =~= prev.push(name.0@));
                    assert(prev.push(name.0@).drop_last() =~= prev);
                    first_seen_push(prev, name.0@);
                    first_seen_dom(prev);
                }
                let v = ids.insert_idempotent(name);
                let copy = copy_with_vehicle(ev, v);
                events.push(copy);
                proof {
                    assert(ids.mapping() == first_seen(next).0);
                    assert(first_seen(next).0[name.0@] == v.0);
                    assert forall|q: int| 0 <= q < k + 1 implies (#[trigger] events@[q])@ == renumbered(
                        model.boardings@[q]@,
                        VehicleID(first_seen(next).0[names_i[q]] as usize),
                    ) by {
                        if q < k {
                            assert(names_i.take(k as int)[q] == names_i[q]);
                            assert(prev.contains(names_i[q])) by {
                                assert(prev[before_names.len() + q] == names_i[q]);
                            }
                            first_seen_dom(prev);
                        }
                    }
                }
                k += 1;
            }
            proof {
                assert(names_i.take(k as int) =~= names_i);
                assert(before_names + names_i.take(k as int) =~= before_names + names_i);
            }
            let ghost ev_seq = events@;
            days.push((model.main_date, events));
            proof {
                let prev = before_names;
                let next = before_names + names_i;
                first_seen_extends(prev, names_i);
                assert forall|d: int, q: int|
                    0 <= d < i + 1 && 0 <= q < input[d].boardings@.len() implies (#[trigger] days@[d].1@[q])@ == renumbered(
                        input[d].boardings@[q]@,
                        VehicleID(first_seen(next).0[event_names(input[d])[q]] as usize),
                    ) by {
                    if d < i {
                        assert(days@[d] == before_days[d]);
                        assert(before_names.contains(event_names(input[d])[q])) by {
                            names_of_day_listed(input.take(i as int), d, q);
                            assert(input.take(i as int)[d] == input[d]);
                        }
                        first_seen_dom(before_names);
                        let nm = event_names(input[d])[q];
                        assert(first_seen(prev).0.dom().contains(nm));
                        assert(first_seen(next).0[nm] == first_seen(prev).0[nm]);
                        assert(all_event_names(input.take(i as int)) == prev);
                        assert((days@[d].1@[q])@ == renumbered(
                            input[d].boardings@[q]@,
                            VehicleID(first_seen(prev).0[nm] as usize),
                        ));
                    } else {
                        assert(days@[d].1@ == ev_seq);
                        assert(event_names(input[d]) == names_i);
                        assert(ev_seq[q]@ == renumbered(
                            input[d].boardings@[q]@,
                            VehicleID(first_seen(before_names + names_i.take(names_i.len() as int)).0[names_i[q]] as usize),
                        ));
                        assert(before_names + names_i.take(names_i.len() as int) == next);
                    }
                }
            }
            i += 1;
        }
        proof {
            assert(input.take(i as int) =~= input);
        }
        let ghost unsorted = days@;
        let sorted = stable_sort(days);
        proof {
            stable_sorted_map(
                unsorted,
                key_fn::<(Date, Vec<BoardingEvent>)>(),
                day_key(),
                |d: (Date, Vec<BoardingEvent>)| day_view(d),
            );
            assert(unsorted.map_values(|d: (Date, Vec<BoardingEvent>)| day_view(d)) =~= input.map_values(
                |m: Model| renumbered_day(m, final_ids),
            )) by {
                assert forall|d: int| 0 <= d < input.len() implies #[trigger] day_view(unsorted[d]) == renumbered_day(
                    input[d],
                    final_ids,
                ) by {
                    assert(day_view(unsorted[d]).1 =~= renumbered_day(input[d], final_ids).1);
                }
            }
        }
        proof {
            let expected = input.map_values(|m: Model| renumbered_day(m, final_ids));
            let viewed = sorted@.map_values(|d: (Date, Vec<BoardingEvent>)| day_view(d));
            stable_sorted_is_sorted_permutation(expected, day_key());
            assert forall|a: int, b: int| 0 <= a < b < sorted@.len() implies (#[trigger] sorted@[a]).0.0
                <= (#[trigger] sorted@[b]).0.0 by {
                assert(viewed[a] == day_view(sorted@[a]) && viewed[b] == day_view(sorted@[b]));
                assert(day_key()(viewed[a]) <= day_key()(viewed[b]));
            }
            if forall|i: int| 0 <= i < input.len() ==> sorted_by(events_view((#[trigger] input[i]).boardings@), arrival_key()) {
                assert forall|d: int| 0 <= d < sorted@.len() implies sorted_by(
                    events_view((#[trigger] sorted@[d]).1@),
                    arrival_key(),
                ) by {
                    assert(viewed[d] == day_view(sorted@[d]));
                    assert(viewed.contains(viewed[d]));
                    assert(viewed == stable_sorted_by(expected, day_key()));
                    stable_sorted_contains(expected, day_key(), viewed[d]);
                    let i = choose|i: int| 0 <= i < expected.len() && expected[i] == viewed[d];
                    let m = input[i];
                    assert(sorted_by(events_view(m.boardings@), arrival_key()));
                    let evs = events_view(sorted@[d].1@);
                    assert(evs =~= viewed[d].1);
                    assert forall|p: int, q: int| 0 <= p < q < evs.len() implies arrival_key()(#[trigger] evs[p])
                        <= arrival_key()(#[trigger] evs[q]) by {
                        assert(evs[p].arrival_time == m.boardings@[p].arrival_time);
                        assert(evs[q].arrival_time == m.boardings@[q].arrival_time);
                        assert(events_view(m.boardings@)[p] == m.boardings@[p]@);
                        assert(events_view(m.boardings@)[q] == m.boardings@[q]@);
                    }
                }
            }
        }
        let mut models = models;
        let mut gtfs = GTFS::empty();
        std::mem::swap(&mut gtfs, &mut models[0].gtfs);
        MultidayModel { gtfs, boardings_per_day: sorted, vehicle_ids: ids }
    }
}

/// The names of the boardings of day `d` are among the names of all the days.
proof fn names_of_day_listed(models: Seq<Model>, d: int, q: int)
    requires
        0 <= d < models.len(),
        0 <= q < models[d].boardings@.len(),
    ensures
        all_event_names(models).contains(event_names(models[d])[q]),
    decreases models.len(),
{
    let rest = all_event_names(models.drop_last());
    let last = event_names(models.last());
    if d == models.len() - 1 {
        assert((rest + last)[rest.len() + q] == last[q]);
    } else {
        names_of_day_listed(models.drop_last(), d, q);
        let p = choose|p: int| 0 <= p < rest.len() && rest[p] == event_names(models[d])[q];
        assert((rest + last)[p] == rest[p]);
    }
}

/// All boardings of all days, day by day.
pub open spec fn all_events(days: Seq<(Date, Vec<BoardingEvent>)>) -> Seq<BoardingEvent>
    decreases days.len(),
{
    if days.len() == 0 {
        Seq::empty()
    } else {
        all_events(days.drop_last()) + days.last().1@
    }
}

/// How many riders a boarding counts: new riders and transfers.
pub open spec fn riders(e: BoardingEvent) -> int {
    (e.new_riders@.len() + e.transfers@.len()) as int
}

/// The riders of the boardings at `stop`.
pub open spec fn riders_at(events: Seq<BoardingEvent>, stop: StopID) -> int
    decreases events.len(),
{
    if events.len() == 0 {
        0
    } else {
        riders_at(events.drop_last(), stop) + if events.last().stop == stop {
            riders(events.last())
        } else {
            0
        }
    }
}

/// The riders of all the boardings.
pub open spec fn total_riders(events: Seq<BoardingEvent>) -> int
    decreases events.len(),
{
    if events.len() == 0 {
        0
    } else {
        total_riders(events.drop_last()) + riders(events.last())
    }
}

/// Does some boarding happen at `stop`?
pub open spec fn has_boarding_at(events: Seq<BoardingEvent>, stop: StopID) -> bool {
    exists|k: int| 0 <= k < events.len() && (#[trigger] events[k]).stop == stop
}

proof fn riders_at_bounded(events: Seq<BoardingEvent>, stop: StopID)
    ensures
        0 <= riders_at(events, stop) <= total_riders(events),
    decreases events.len(),
{
    if events.len() > 0 {
        riders_at_bounded(events.drop_last(), stop);
    }
}

proof fn total_riders_prefix(events: Seq<BoardingEvent>, n: int)
    requires
        0 <= n <= events.len(),
    ensures
        total_riders(events.take(n)) <= total_riders(events),
    decreases events.len(),
{
    if n < events.len() {
        assert(events.drop_last().take(n) =~= events.take(n));
        total_riders_prefix(events.drop_last(), n);
    } else {
        assert(events.take(n) =~= events);
    }
}

impl MultidayModel {
    /// The riders (new riders and transfers) boarding at each stop over all days, for each
    /// stop with a boarding, by increasing stop. The total must fit in a `usize`.
    pub fn count_boardings_by_stop(&self) -> (r: Vec<(StopID, usize)>)
        requires
            total_riders(all_events(self.boardings_per_day@)) <= usize::MAX,
        ensures
            forall|a: int, b: int| 0 <= a < b < r@.len() ==> (#[trigger] r@[a]).0.0 < (#[trigger] r@[b]).0.0,
            forall|k: int|
                0 <= k < r@.len() ==> {
                    &&& has_boarding_at(all_events(self.boardings_per_day@), (#[trigger] r@[k]).0)
                    &&& r@[k].1 == riders_at(all_events(self.boardings_per_day@), r@[k].0)
                },
            forall|s: StopID|
                #[trigger] has_boarding_at(all_events(self.boardings_per_day@), s) ==> exists|k: int|
                    0 <= k < r@.len() && (#[trigger] r@[k]).0 == s,
            sum_of(r@, count_of()) == total_riders(all_events(self.boardings_per_day@)),
    {
        let ghost events = all_events(self.boardings_per_day@);
        let mut counts: Vec<(StopID, usize)> = Vec::new();
        let mut d: usize = 0;
        proof {
            assert(self.boardings_per_day@.take(0) =~= Seq::<(Date, Vec<BoardingEvent>)>::empty());
        }
        while d < self.boardings_per_day.len()
            invariant
                events == all_events(self.boardings_per_day@),
                total_riders(events) <= usize::MAX,
                d <= self.boardings_per_day@.len(),
                counts_of(counts@, all_events(self.boardings_per_day@.take(d as int))),
            decreases self.boardings_per_day@.len() - d,
        {
            let day = &self.boardings_per_day[d];
            let ghost base = all_events(self.boardings_per_day@.take(d as int));
            let ghost full = base + day.1@;
            proof {
                assert(self.boardings_per_day@.take(d + 1).drop_last() =~= self.boardings_per_day@.take(d as int));
                assert(self.boardings_per_day@.take(d + 1).last() == *day);
                assert(all_events(self.boardings_per_day@.take(d + 1)) == full);
                prefix_total_le(self.boardings_per_day@, d + 1);
                assert(base + day.1@.take(0) =~= base);
            }
            let mut k: usize = 0;
            while k < day.1.len()
                invariant
                    day == self.boardings_per_day@[d as int],
                    d < self.boardings_per_day@.len(),
                    full == base + day.1@,
                    total_riders(full) <= usize::MAX,
                    k <= day.1@.len(),
                    counts_of(counts@, base + day.1@.take(k as int)),
                decreases day.1@.len() - k,
            {
                let ev = &day.1[k];
                let ghost prev = base + day.1@.take(k as int);
                let ghost next = base + day.1@.take(k + 1);
                proof {
                    assert(next =~= prev.push(*ev));
                    assert(next.drop_last() =~= prev);
                    assert(next =~= full.take(next.len() as int));
                    total_riders_prefix(full, next.len() as int);
                    riders_at_bounded(next, ev.stop);
                }
                add_riders(&mut counts, Ghost(prev), ev);
                k += 1;
            }
            proof {
                assert(day.1@.take(k as int) =~= day.1@);
            }
            d += 1;
        }
        proof {
            assert(self.boardings_per_day@.take(d as int) =~= self.boardings_per_day@);
        }
        counts
    }
}

/// The stops with boardings among `events`, by increasing stop, with their riders.
pub open spec fn counts_of(counts: Seq<(StopID, usize)>, events: Seq<BoardingEvent>) -> bool {
    &&& forall|a: int, b: int| 0 <= a < b < counts.len() ==> (#[trigger] counts[a]).0.0 < (#[trigger] counts[b]).0.0
    &&& forall|k: int|
        0 <= k < counts.len() ==> {
            &&& has_boarding_at(events, (#[trigger] counts[k]).0)
            &&& counts[k].1 == riders_at(events, counts[k].0)
        }
    &&& forall|s: StopID| #[trigger] has_boarding_at(events, s) ==> exists|k: int| 0 <= k < counts.len() && (#[trigger] counts[k]).0 == s
    &&& sum_of(counts, count_of()) == total_riders(events)
}

/// The count of an entry.
pub open spec fn count_of() -> spec_fn((StopID, usize)) -> int {
    |c: (StopID, usize)| c.1 as int
}

proof fn prefix_total_le(days: Seq<(Date, Vec<BoardingEvent>)>, n: int)
    requires
        0 <= n <= days.len(),
    ensures
        total_riders(all_events(days.take(n))) <= total_riders(all_events(days)),
    decreases days.len(),
{
    if n < days.len() {
        assert(days.drop_last().take(n) =~= days.take(n));
        prefix_total_le(days.drop_last(), n);
        total_riders_append(all_events(days.drop_last()), days.last().1@);
    } else {
        assert(days.take(n) =~= days);
    }
}

proof fn total_riders_append(a: Seq<BoardingEvent>, b: Seq<BoardingEvent>)
    ensures
        total_riders(a + b) == total_riders(a) + total_riders(b),
        total_riders(b) >= 0,
    decreases b.len(),
{
    if b.len() == 0 {
        assert(a + b =~= a);
    } else {
        total_riders_append(a, b.drop_last());
        assert((a + b).drop_last() =~= a + b.drop_last());
    }
}

/// Adds the riders of one more boarding to the counts.
fn add_riders(counts: &mut Vec<(StopID, usize)>, Ghost(events): Ghost<Seq<BoardingEvent>>, ev: &BoardingEvent)
    requires
        counts_of(old(counts)@, events),
        riders_at(events.push(*ev), ev.stop) <= usize::MAX,
    ensures
        counts_of(final(counts)@, events.push(*ev)),
{
    let ghost before = counts@;
    let next = Ghost(events.push(*ev));
    proof {
        assert(next@.drop_last() =~= events);
        assert(next@[events.len() as int] == *ev);
        assert(has_boarding_at(next@, ev.stop));
        assert forall|s: StopID| s != ev.stop implies #[trigger] riders_at(next@, s) == riders_at(events, s) by {}
        assert forall|s: StopID| s != ev.stop implies #[trigger] has_boarding_at(next@, s) == has_boarding_at(events, s) by {
            if has_boarding_at(next@, s) {
                let k = choose|k: int| 0 <= k < next@.len() && (#[trigger] next@[k]).stop == s;
                assert(events[k] == next@[k]);
            }
            if has_boarding_at(events, s) {
                let k = choose|k: int| 0 <= k < events.len() && (#[trigger] events[k]).stop == s;
                assert(next@[k] == events[k]);
            }
        }
        riders_at_bounded(events, ev.stop);
    }
    let extra = ev.new_riders.len() + ev.transfers.len();
    let mut k: usize = 0;
    while k < counts.len() && counts[k].0.0 < ev.stop.0
        invariant
            k <= counts@.len(),
            counts@ == before,
            forall|q: int| 0 <= q < k ==> (#[trigger] counts@[q]).0.0 < ev.stop.0,
        decreases counts@.len() - k,
    {
        k += 1;
    }
    if k < counts.len() && counts[k].0.0 == ev.stop.0 {
        let total = counts[k].1 + extra;
        counts.set(k, (ev.stop, total));
        proof {
            sum_of_update(before, k as int, (ev.stop, total), count_of());
            assert(counts@ == before.update(k as int, (ev.stop, total)));
            assert forall|q: int| 0 <= q < counts@.len() && q != k implies #[trigger] counts@[q] == before[q] by {}
            assert forall|s: StopID| #[trigger] has_boarding_at(next@, s) implies exists|q: int|
                0 <= q < counts@.len() && (#[trigger] counts@[q]).0 == s by {
                if s != ev.stop {
                    let q = choose|q: int| 0 <= q < before.len() && (#[trigger] before[q]).0 == s;
                    assert(counts@[q].0 == s);
                } else {
                    assert(counts@[k as int].0 == s);
                }
            }
        }
    } else {
        proof {
            if has_boarding_at(events, ev.stop) {
                let q = choose|q: int| 0 <= q < before.len() && (#[trigger] before[q]).0 == ev.stop;
                if q < k {
                    assert(before[q].0.0 < ev.stop.0);
                } else {
                    assert(before[k as int].0.0 <= before[q].0.0);
                }
            }
            assert(!has_boarding_at(events, ev.stop));
            assert(riders_at(events, ev.stop) == 0) by {
                no_boarding_no_riders(events, ev.stop);
            }
        }
        counts.insert(k, (ev.stop, extra));
        proof {
            sum_of_insert(before, k as int, (ev.stop, extra), count_of());
            assert(counts@ == before.insert(k as int, (ev.stop, extra)));
            assert forall|a: int, b: int| 0 <= a < b < counts@.len() implies (#[trigger] counts@[a]).0.0
                < (#[trigger] counts@[b]).0.0 by {
                if b < k {
                    assert(counts@[a] == before[a] && counts@[b] == before[b]);
                } else if b == k {
                    assert(counts@[a] == before[a]);
                } else if a < k {
                    assert(counts@[a] == before[a] && counts@[b] == before[b - 1]);
                } else if a == k {
                    assert(counts@[b] == before[b - 1]);
                    if b - 1 > k {
                        assert(before[k as int].0.0 < before[b - 1].0.0);
                    }
                } else {
                    assert(counts@[a] == before[a - 1] && counts@[b] == before[b - 1]);
                }
            }
            assert forall|q: int| 0 <= q < counts@.len() && q != k implies {
                &&& has_boarding_at(next@, (#[trigger] counts@[q]).0)
                &&& counts@[q].1 == riders_at(next@, counts@[q].0)
            } by {
                if q < k {
                    assert(counts@[q] == before[q]);
                } else {
                    assert(counts@[q] == before[q - 1]);
                }
            }
            assert forall|s: StopID| #[trigger] has_boarding_at(next@, s) implies exists|q: int|
                0 <= q < counts@.len() && (#[trigger] counts@[q]).0 == s by {
                if s != ev.stop {
                    let q = choose|q: int| 0 <= q < before.len() && (#[trigger] before[q]).0 == s;
                    if q < k {
                        assert(counts@[q].0 == s);
                    } else {
                        assert(counts@[q + 1].0 == s);
                    }
                } else {
                    assert(counts@[k as int].0 == s);
                }
            }
        }
    }
}

proof fn no_boarding_no_riders(events: Seq<BoardingEvent>, stop: StopID)
    requires
        !has_boarding_at(events, stop),
    ensures
        riders_at(events, stop) == 0,
    decreases events.len(),
{
    if events.len() > 0 {
        assert(events.last() == events[events.len() - 1]);
        assert forall|k: int| 0 <= k < events.drop_last().len() implies (#[trigger] events.drop_last()[k]).stop != stop by {
            assert(events[k] == events.drop_last()[k]);
        }
        no_boarding_no_riders(events.drop_last(), stop);
    }
}

/// One row of the exported boardings.
pub struct BoardingRow {
    pub date: Date,
    pub vehicle: VehicleName,
    pub route_id: RouteID,
    pub route_variant: RouteVariantID,
    pub trip: orig::TripID,
    pub stop: orig::StopID,
    pub arrival_time: Time,
    pub departure_time: Time,
    pub new_riders: usize,
    pub transfers: usize,
}

/// Every boarding with its day, day by day.
pub open spec fn dated_events(days: Seq<(Date, Vec<BoardingEvent>)>) -> Seq<(Date, BoardingEvent)>
    decreases days.len(),
{
    if days.len() == 0 {
        Seq::empty()
    } else {
        dated_events(days.drop_last()) + days.last().1@.map_values(|e: BoardingEvent| (days.last().0, e))
    }
}

/// Position `k` holds the first trip of the variant with identifier `id`.
pub open spec fn first_trip_at(v: RouteVariant, id: crate::ids::TripID, k: int) -> bool {
    0 <= k < v.trips@.len() && v.trips@[k].id == id && forall|j: int| 0 <= j < k ==> (#[trigger] v.trips@[j]).id != id
}

/// A boarding the export can describe: its variant, trip, stop and vehicle are known.
pub open spec fn exportable(m: MultidayModel, e: BoardingEvent) -> bool {
    &&& has_variant(m.gtfs.routes@, e.variant)
    &&& exists|k: int| 0 <= k < m.gtfs.variant_spec(e.variant).trips@.len() && (#[trigger] m.gtfs.variant_spec(
        e.variant,
    ).trips@[k]).id == e.trip
    &&& e.stop.0 < m.gtfs.stops@.len()
    &&& exists|t: Seq<char>| #[trigger] m.vehicle_ids.mapping().dom().contains(t) && m.vehicle_ids.mapping()[t] == e.vehicle.0
}

/// The row describing boarding `e` of day `date`.
pub open spec fn row_of(m: MultidayModel, date: Date, e: BoardingEvent, row: BoardingRow) -> bool {
    &&& row.date == date
    &&& m.vehicle_ids.mapping().dom().contains(row.vehicle.0@)
    &&& m.vehicle_ids.mapping()[row.vehicle.0@] == e.vehicle.0
    &&& row.route_id == m.gtfs.parent_spec(e.variant).route_id
    &&& row.route_variant == e.variant
    &&& exists|k: int|
        first_trip_at(m.gtfs.variant_spec(e.variant), e.trip, k) && row.trip == (#[trigger] m.gtfs.variant_spec(
            e.variant,
        ).trips@[k]).orig_id
    &&& row.stop == m.gtfs.stops@[e.stop.0 as int].orig_id
    &&& row.arrival_time == e.arrival_time
    &&& row.departure_time == e.departure_time
    &&& row.new_riders == e.new_riders@.len()
    &&& row.transfers == e.transfers@.len()
}

/// The index of the first trip of `v` with identifier `id`; there must be one.
fn find_trip(v: &RouteVariant, id: crate::ids::TripID) -> (k: usize)
    requires
        exists|k: int| 0 <= k < v.trips@.len() && (#[trigger] v.trips@[k]).id == id,
    ensures
        first_trip_at(*v, id, k as int),
{
    let mut k: usize = 0;
    while k < v.trips.len()
        invariant
            k <= v.trips@.len(),
            forall|j: int| 0 <= j < k ==> (#[trigger] v.trips@[j]).id != id,
            exists|q: int| 0 <= q < v.trips@.len() && (#[trigger] v.trips@[q]).id == id,
        decreases v.trips@.len() - k,
    {
        if v.trips[k].id.0 == id.0 {
            return k;
        }
        k += 1;
    }
    k
}

impl MultidayModel {
    /// The rows of the export, one per boarding, day by day: the day, the vehicle's name, the
    /// route, variant, trip and stop in the feed's own identifiers, the times and the riders.
    /// Each boarding must be one the schedule and the vehicle numbering describe, and every
    /// numbered vehicle must have a number below the count.
    pub fn export_rows(&self) -> (r: Vec<BoardingRow>)
        requires
            self.gtfs.wf(),
            self.vehicle_ids.wf(),
            forall|t: Seq<char>|
                #[trigger] self.vehicle_ids.mapping().dom().contains(t) ==> self.vehicle_ids.mapping()[t]
                    < self.vehicle_ids.count(),
            forall|k: int|
                0 <= k < dated_events(self.boardings_per_day@).len() ==> exportable(
                    *self,
                    (#[trigger] dated_events(self.boardings_per_day@)[k]).1,
                ),
        ensures
            r@.len() == dated_events(self.boardings_per_day@).len(),
            forall|k: int|
                0 <= k < r@.len() ==> row_of(
                    *self,
                    dated_events(self.boardings_per_day@)[k].0,
                    dated_events(self.boardings_per_day@)[k].1,
                    #[trigger] r@[k],
                ),
    {
        let names = self.vehicle_names();
        let ghost all = dated_events(self.boardings_per_day@);
        let mut rows: Vec<BoardingRow> = Vec::new();
        let mut d: usize = 0;
        proof {
            assert(self.boardings_per_day@.take(0) =~= Seq::<(Date, Vec<BoardingEvent>)>::empty());
        }
        while d < self.boardings_per_day.len()
            invariant
                all == dated_events(self.boardings_per_day@),
                d <= self.boardings_per_day@.len(),
                self.gtfs.wf(),
                names@.len() == self.vehicle_ids.count(),
                forall|v: int|
                    0 <= v < names@.len() && (exists|t: Seq<char>|
                        #[trigger] self.vehicle_ids.mapping().dom().contains(t) && self.vehicle_ids.mapping()[t] == v)
                        ==> self.vehicle_ids.mapping().dom().contains((#[trigger] names@[v]).0@)
                        && self.vehicle_ids.mapping()[names@[v].0@] == v,
                forall|k: int| 0 <= k < all.len() ==> exportable(*self, (#[trigger] all[k]).1),
                forall|t: Seq<char>|
                    #[trigger] self.vehicle_ids.mapping().dom().contains(t) ==> self.vehicle_ids.mapping()[t]
                        < self.vehicle_ids.count(),
                rows@.len() == dated_events(self.boardings_per_day@.take(d as int)).len(),
                forall|k: int|
                    0 <= k < rows@.len() ==> row_of(
                        *self,
                        dated_events(self.boardings_per_day@.take(d as int))[k].0,
                        dated_events(self.boardings_per_day@.take(d as int))[k].1,
                        #[trigger] rows@[k],
                    ),
            decreases self.boardings_per_day@.len() - d,
        {
            let day = &self.boardings_per_day[d];
            let ghost base = dated_events(self.boardings_per_day@.take(d as int));
            let ghost mine = day.1@.map_values(|e: BoardingEvent| (day.0, e));
            proof {
                assert(self.boardings_per_day@.take(d + 1).drop_last() =~= self.boardings_per_day@.take(d as int));
                assert(self.boardings_per_day@.take(d + 1).last() == *day);
                prefix_of_dated(self.boardings_per_day@, d as int);
            }
            let mut k: usize = 0;
            while k < day.1.len()
                invariant
                    day == self.boardings_per_day@[d as int],
                    d < self.boardings_per_day@.len(),
                    mine == day.1@.map_values(|e: BoardingEvent| (day.0, e)),
                    dated_events(self.boardings_per_day@.take(d + 1)) == base + mine,
                    forall|q: int| 0 <= q < base.len() + mine.len() ==> (base + mine)[q] == all[q],
                    base.len() + mine.len() <= all.len(),
                    self.gtfs.wf(),
                    names@.len() == self.vehicle_ids.count(),
                    forall|v: int|
                        0 <= v < names@.len() && (exists|t: Seq<char>|
                            #[trigger] self.vehicle_ids.mapping().dom().contains(t) && self.vehicle_ids.mapping()[t] == v)
                            ==> self.vehicle_ids.mapping().dom().contains((#[trigger] names@[v]).0@)
                            && self.vehicle_ids.mapping()[names@[v].0@] == v,
                    forall|q: int| 0 <= q < all.len() ==> exportable(*self, (#[trigger] all[q]).1),
                    forall|t: Seq<char>|
                        #[trigger] self.vehicle_ids.mapping().dom().contains(t) ==> self.vehicle_ids.mapping()[t]
                            < self.vehicle_ids.count(),
                    k <= day.1@.len(),
                    rows@.len() == base.len() + k,
                    forall|q: int| 0 <= q < rows@.len() ==> row_of(*self, (base + mine)[q].0, (base + mine)[q].1, #[trigger] rows@[q]),
                decreases day.1@.len() - k,
            {
                let ev = &day.1[k];
                proof {
                    let q = base.len() + k;
                    assert((base + mine)[q] == (day.0, *ev));
                    assert(all[q] == (day.0, *ev));
                    assert(exportable(*self, all[q].1));
                }
                let variant = self.gtfs.variant(ev.variant);
                let route = self.gtfs.parent_of_variant(ev.variant);
                let t = find_trip(variant, ev.trip);
                let ghost vt = choose|t: Seq<char>|
                    #[trigger] self.vehicle_ids.mapping().dom().contains(t) && self.vehicle_ids.mapping()[t] == ev.vehicle.0;
                assert(ev.vehicle.0 < names@.len());
                let row = BoardingRow {
                    date: day.0,
                    vehicle: VehicleName(names[ev.vehicle.0].0.clone()),
                    route_id: RouteID(route.route_id.0.clone()),
                    route_variant: ev.variant,
                    trip: orig::TripID(variant.trips[t].orig_id.0.clone()),
                    stop: orig::StopID(self.gtfs.stops[ev.stop.0].orig_id.0.clone()),
                    arrival_time: ev.arrival_time,
                    departure_time: ev.departure_time,
                    new_riders: ev.new_riders.len(),
                    transfers: ev.transfers.len(),
                };
                rows.push(row);
                proof {
                    let q = base.len() + k;
                    assert(row_of(*self, (base + mine)[q].0, (base + mine)[q].1, rows@[q]));
                }
                k += 1;
            }
            proof {
                assert(mine.len() == k);
                assert forall|q: int| 0 <= q < rows@.len() implies row_of(
                    *self,
                    dated_events(self.boardings_per_day@.take(d + 1))[q].0,
                    dated_events(self.boardings_per_day@.take(d + 1))[q].1,
                    #[trigger] rows@[q],
                ) by {}
            }
            d += 1;
        }
        proof {
            assert(self.boardings_per_day@.take(d as int) =~= self.boardings_per_day@);
        }
        rows
    }

    /// The name of each vehicle number, where a name has it.
    fn vehicle_names(&self) -> (names: Vec<VehicleName>)
        requires
            self.vehicle_ids.wf(),
            forall|t: Seq<char>|
                #[trigger] self.vehicle_ids.mapping().dom().contains(t) ==> self.vehicle_ids.mapping()[t]
                    < self.vehicle_ids.count(),
        ensures
            names@.len() == self.vehicle_ids.count(),
            forall|v: int|
                0 <= v < names@.len() && (exists|t: Seq<char>|
                    #[trigger] self.vehicle_ids.mapping().dom().contains(t) && self.vehicle_ids.mapping()[t] == v)
                    ==> self.vehicle_ids.mapping().dom().contains((#[trigger] names@[v]).0@)
                    && self.vehicle_ids.mapping()[names@[v].0@] == v,
    {
        let (keys, values) = self.vehicle_ids.borrow();
        let n = keys.len();
        let ghost mapping = self.vehicle_ids.mapping();
        let mut names: Vec<VehicleName> = Vec::new();
        let mut i: usize = 0;
        while i < n
            invariant
                i <= n,
                n == keys@.len(),
                names@.len() == i,
            decreases n - i,
        {
            names.push(VehicleName(String::new()));
            i += 1;
        }
        let mut j: usize = 0;
        while j < n
            invariant
                n == keys@.len(),
                n == values@.len(),
                n == self.vehicle_ids.count(),
                names@.len() == n,
                mapping == self.vehicle_ids.mapping(),
                j <= n,
                forall|q: int|
                    0 <= q < keys@.len() ==> mapping.dom().contains(#[trigger] keys@[q].key_text()) && mapping[keys@[q].key_text()]
                        == values@[q].index(),
                forall|t: Seq<char>| #[trigger] mapping.dom().contains(t) ==> mapping[t] < n,
                forall|v: int|
                    0 <= v < n && (exists|q: int| 0 <= q < j && (#[trigger] values@[q]).0 == v) ==> mapping.dom().contains(
                        (#[trigger] names@[v]).0@,
                    ) && mapping[names@[v].0@] == v,
            decreases n - j,
        {
            let v = values[j].0;
            proof {
                assert(mapping.dom().contains(keys@[j as int].key_text()));
            }
            let ghost before = names@;
            names.set(v, keys[j].duplicate());
            proof {
                assert forall|w: int|
                    0 <= w < n && (exists|q: int| 0 <= q < j + 1 && (#[trigger] values@[q]).0 == w) implies mapping.dom().contains(
                        (#[trigger] names@[w]).0@,
                    ) && mapping[names@[w].0@] == w by {
                    if w != v {
                        let q = choose|q: int| 0 <= q < j + 1 && (#[trigger] values@[q]).0 == w;
                        assert(q < j);
                        assert(names@[w] == before[w]);
                    }
                }
            }
            j += 1;
        }
        proof {
            assert forall|v: int|
                0 <= v < names@.len() && (exists|t: Seq<char>| #[trigger] mapping.dom().contains(t) && mapping[t] == v)
                    implies mapping.dom().contains((#[trigger] names@[v]).0@) && mapping[names@[v].0@] == v by {
                let t = choose|t: Seq<char>| #[trigger] mapping.dom().contains(t) && mapping[t] == v;
                assert(has_key(self.vehicle_ids.keys(), t));
                let q = choose|q: int| 0 <= q < keys@.len() && (#[trigger] keys@[q]).key_text() == t;
                assert(values@[q].0 == v);
            }
        }
        names
    }
}

/// The boardings of the first days come first, those of day `d` next.
proof fn prefix_of_dated(days: Seq<(Date, Vec<BoardingEvent>)>, d: int)
    requires
        0 <= d < days.len(),
    ensures
        dated_events(days.take(d + 1)).len() <= dated_events(days).len(),
        forall|q: int| 0 <= q < dated_events(days.take(d + 1)).len() ==> #[trigger] dated_events(days.take(d + 1))[q]
            == dated_events(days)[q],
    decreases days.len(),
{
    if d + 1 < days.len() {
        assert(days.drop_last().take(d + 1) =~= days.take(d + 1));
        prefix_of_dated(days.drop_last(), d);
    } else {
        assert(days.take(d + 1) =~= days);
    }
}

} // verus!
