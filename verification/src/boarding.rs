use vstd::prelude::*;

use crate::gtfs::{has_variant, GTFS};
use crate::ids::{IDMapping, StopID, TripID};
use crate::model::{Model, VehicleID, VehicleName};
use crate::routes::{variant_stops, RouteVariantID};
use crate::sort::{
    append_distinct, distinct_by, key_fn, sorted_by, stable_sorted_distinct, stable_sort, stable_sorted_by, stable_sorted_is_sorted_permutation, stable_sorted_map,
    stable_sorted_sum, sum_of, sum_of_append, sum_of_update, SortKey,
};
use crate::text::same_text;
use crate::ticketing::{Journey, JourneyID, JourneyLeg};
use crate::time::Time;
use crate::timetable::{assigned, Timetable};
use crate::to_trips::{
    good_trip, inferred_schedule, nested_view, observations_fit, view_span, ActualTrip, ActualTripView,
};
use crate::vehicle_to_routes::all_legs;

verus! {

/// A vehicle arriving at a stop on a trip, and the people boarding there (new riders or
/// transfers). This joins vehicle positions, ticketing and the schedule. Uniquely keyed by trip
/// and stop.
#[derive(Clone, Debug)]
pub struct BoardingEvent {
    pub vehicle: VehicleID,
    /// For convenience
    pub variant: RouteVariantID,
    pub trip: TripID,
    pub stop: StopID,
    pub arrival_time: Time,
    pub departure_time: Time,
    pub new_riders: Vec<JourneyID>,
    pub transfers: Vec<JourneyID>,
}

/// What a `BoardingEvent` holds.
pub ghost struct BoardingEventView {
    pub vehicle: VehicleID,
    pub variant: RouteVariantID,
    pub trip: TripID,
    pub stop: StopID,
    pub arrival_time: Time,
    pub departure_time: Time,
    pub new_riders: Seq<JourneyID>,
    pub transfers: Seq<JourneyID>,
}

impl View for BoardingEvent {
    type V = BoardingEventView;

    open spec fn view(&self) -> BoardingEventView {
        BoardingEventView {
            vehicle: self.vehicle,
            variant: self.variant,
            trip: self.trip,
            stop: self.stop,
            arrival_time: self.arrival_time,
            departure_time: self.departure_time,
            new_riders: self.new_riders@,
            transfers: self.transfers@,
        }
    }
}

impl SortKey for BoardingEvent {
    open spec fn key(&self) -> int {
        self.arrival_time.ms()
    }

    fn key_of(&self) -> (k: i128) {
        self.arrival_time.0 as i128
    }
}

/// The events of one trip before anyone boards: one per stop, at the time the vehicle reached it.
pub open spec fn trip_events(t: ActualTripView, stops: Seq<StopID>) -> Seq<BoardingEventView> {
    Seq::new(
        t.stop_times.len(),
        |i: int|
            BoardingEventView {
                vehicle: t.vehicle,
                variant: t.variant,
                trip: t.trip,
                stop: stops[i],
                arrival_time: t.stop_times[i],
                departure_time: t.stop_times[i],
                new_riders: Seq::empty(),
                transfers: Seq::empty(),
            },
    )
}

/// Every stop a vehicle visits through the day, in order, before anyone boards.
pub open spec fn schedule_events(g: GTFS, trips: Seq<ActualTripView>) -> Seq<BoardingEventView>
    decreases trips.len(),
{
    if trips.len() == 0 {
        Seq::empty()
    } else {
        schedule_events(g, trips.drop_last()) + trip_events(
            trips.last(),
            variant_stops(g.variant_spec(trips.last().variant)),
        )
    }
}

/// The timetable summarizing a schedule: each trip assigned over its span in turn.
pub open spec fn timetable_of(trips: Seq<ActualTripView>) -> Seq<(Time, Time, TripID)>
    decreases trips.len(),
{
    if trips.len() == 0 {
        Seq::empty()
    } else {
        assigned(timetable_of(trips.drop_last()), view_span(trips.last()), trips.last().trip)
    }
}

/// The view of an event.
pub open spec fn event_view() -> spec_fn(BoardingEvent) -> BoardingEventView {
    |e: BoardingEvent| e@
}

/// The views of a list of events.
pub open spec fn events_view(events: Seq<BoardingEvent>) -> Seq<BoardingEventView> {
    events.map_values(event_view())
}

/// The views of a list of trips.
pub open spec fn trips_view_of(trips: Seq<ActualTrip>) -> Seq<ActualTripView> {
    trips.map_values(|t: ActualTrip| t@)
}

/// The empty events of a vehicle's schedule, and the timetable summarizing it.
fn events_for_schedule(gtfs: &GTFS, vehicle: VehicleID, trips: &Vec<ActualTrip>) -> (r: (Vec<BoardingEvent>, Timetable<TripID>))
    requires
        gtfs.wf(),
        forall|k: int| 0 <= k < trips@.len() ==> good_trip(*gtfs, vehicle, (#[trigger] trips@[k])@),
    ensures
        events_view(r.0@) == schedule_events(*gtfs, trips_view_of(trips@)),
        r.1.entries() == timetable_of(trips_view_of(trips@)),
        forall|e: int| 0 <= e < r.0@.len() ==> has_variant(gtfs.routes@, (#[trigger] r.0@[e]).variant),
{
    let mut events: Vec<BoardingEvent> = Vec::new();
    let mut timetable: Timetable<TripID> = Timetable::new();
    let mut k: usize = 0;
    while k < trips.len()
        invariant
            gtfs.wf(),
            forall|q: int| 0 <= q < trips@.len() ==> good_trip(*gtfs, vehicle, (#[trigger] trips@[q])@),
            k <= trips@.len(),
            events_view(events@) == schedule_events(*gtfs, trips_view_of(trips@).take(k as int)),
            timetable.entries() == timetable_of(trips_view_of(trips@).take(k as int)),
            forall|e: int| 0 <= e < events@.len() ==> has_variant(gtfs.routes@, (#[trigger] events@[e]).variant),
        decreases trips@.len() - k,
    {
        let trip = &trips[k];
        assert(good_trip(*gtfs, vehicle, trip@));
        let ghost front = trips_view_of(trips@).take(k + 1);
        proof {
            assert(front.drop_last() =~= trips_view_of(trips@).take(k as int));
            assert(front.last() == trip@);
        }
        timetable.assign((trip.start_time(), trip.end_time()), trip.trip);
        let variant = gtfs.variant(trip.variant);
        let stops = variant.stops();
        let ghost start = events_view(events@);
        let ghost added = trip_events(trip@, variant_stops(gtfs.variant_spec(trip.variant)));
        let mut i: usize = 0;
        while i < trip.stop_times.len()
            invariant
                trip == trips@[k as int],
                stops@ == variant_stops(gtfs.variant_spec(trip.variant)),
                trip.stop_times@.len() == stops@.len(),
                has_variant(gtfs.routes@, trip.variant),
                added == trip_events(trip@, stops@),
                i <= trip.stop_times@.len(),
                events_view(events@) == start + added.take(i as int),
                forall|e: int| 0 <= e < events@.len() ==> has_variant(gtfs.routes@, (#[trigger] events@[e]).variant),
            decreases trip.stop_times@.len() - i,
        {
            let t = trip.stop_times[i];
            let ev = BoardingEvent {
                vehicle: trip.vehicle,
                variant: trip.variant,
                trip: trip.trip,
                stop: stops[i],
                arrival_time: t,
                departure_time: t,
                new_riders: Vec::new(),
                transfers: Vec::new(),
            };
            proof {
                assert(ev.new_riders@ =~= Seq::<JourneyID>::empty());
                assert(ev.transfers@ =~= Seq::<JourneyID>::empty());
                assert(ev@ == added[i as int]);
            }
            let ghost before = events@;
            events.push(ev);
            proof {
                assert(events_view(events@) =~= events_view(before).push(ev@));
                assert(added.take(i + 1) =~= added.take(i as int).push(added[i as int]));
            }
            i += 1;
            assert(events_view(events@) =~= start + added.take(i as int));
        }
        assert(added.take(i as int) =~= added);
        k += 1;
    }
    assert(trips_view_of(trips@).take(k as int) =~= trips_view_of(trips@));
    (events, timetable)
}

/// The views of each vehicle's events.
pub open spec fn per_vehicle_view(per: Seq<Vec<BoardingEvent>>) -> Seq<Seq<BoardingEventView>> {
    per.map_values(|v: Vec<BoardingEvent>| events_view(v@))
}

/// Someone on journey `j` boards at this event: as a new rider on the first leg of the journey,
/// else as a transfer.
pub open spec fn board(ev: BoardingEventView, j: JourneyID, first_leg: bool) -> BoardingEventView {
    BoardingEventView {
        vehicle: ev.vehicle,
        variant: ev.variant,
        trip: ev.trip,
        stop: ev.stop,
        arrival_time: ev.arrival_time,
        departure_time: ev.departure_time,
        new_riders: if first_leg {
            ev.new_riders.push(j)
        } else {
            ev.new_riders
        },
        transfers: if first_leg {
            ev.transfers
        } else {
            ev.transfers.push(j)
        },
    }
}

fn board_at(per: &mut Vec<Vec<BoardingEvent>>, v: usize, e: usize, j: JourneyID, first_leg: bool)
    requires
        v < old(per)@.len(),
        e < old(per)@[v as int]@.len(),
    ensures
        per_vehicle_view(final(per)@) == per_vehicle_view(old(per)@).update(
            v as int,
            per_vehicle_view(old(per)@)[v as int].update(
                e as int,
                board(per_vehicle_view(old(per)@)[v as int][e as int], j, first_leg),
            ),
        ),
        forall|w: int, f: int|
            0 <= w < final(per)@.len() && 0 <= f < final(per)@[w]@.len() ==> (#[trigger] final(per)@[w]@[f]).variant
                == old(per)@[w]@[f].variant,
        final(per)@.len() == old(per)@.len(),
        forall|w: int| 0 <= w < final(per)@.len() ==> (#[trigger] final(per)@[w])@.len() == old(per)@[w]@.len(),
{
    if first_leg {
        per[v][e].new_riders.push(j);
    } else {
        per[v][e].transfers.push(j);
    }
    let ghost target = per_vehicle_view(old(per)@)[v as int].update(
        e as int,
        board(per_vehicle_view(old(per)@)[v as int][e as int], j, first_leg),
    );
    assert(per@.len() == old(per)@.len());
    assert(per@[v as int]@.len() == old(per)@[v as int]@.len());
    assert forall|w: int| 0 <= w < per@.len() && w != v implies #[trigger] per@[w] == old(per)@[w] by {
    }
    assert forall|f: int| 0 <= f < per@[v as int]@.len() && f != e implies #[trigger] per@[v as int]@[f] == old(per)@[v as int]@[f] by {
    }
    assert(per@[v as int]@[e as int]@ == board(old(per)@[v as int]@[e as int]@, j, first_leg));
    assert(per_vehicle_view(per@)[v as int] =~= target);
    assert(per_vehicle_view(per@) =~= per_vehicle_view(old(per)@).update(
        v as int,
        per_vehicle_view(old(per)@)[v as int].update(
            e as int,
            board(per_vehicle_view(old(per)@)[v as int][e as int], j, first_leg),
        ),
    ));
}

/// `e` is the last event the vehicle reached no later than `time`.
pub open spec fn last_event_before(events: Seq<BoardingEventView>, time: Time, e: int) -> bool {
    &&& 0 <= e < events.len()
    &&& events[e].arrival_time.ms() <= time.ms()
    &&& forall|f: int| e < f < events.len() ==> time.ms() < (#[trigger] events[f]).arrival_time.ms()
}

/// Only one event is the last reached before a time.
pub proof fn last_event_before_unique(events: Seq<BoardingEventView>, time: Time, e: int, f: int)
    requires
        last_event_before(events, time, e),
        last_event_before(events, time, f),
    ensures
        e == f,
{
    if e < f {
        assert(time.ms() < events[f].arrival_time.ms());
    } else if f < e {
        assert(time.ms() < events[e].arrival_time.ms());
    }
}

/// Where a tap is matched: the vehicle it names, if known, and the last event of that vehicle
/// reached no later than the tap. People tap on after boarding.
pub open spec fn leg_target(mapping: Map<Seq<char>, nat>, per: Seq<Seq<BoardingEventView>>, leg: JourneyLeg) -> Option<(int, int)> {
    let name = leg.vehicle_name.0@;
    if mapping.dom().contains(name) && mapping[name] < per.len() && exists|e: int|
        last_event_before(per[mapping[name] as int], leg.time, e) {
        Some((mapping[name] as int, choose|e: int| last_event_before(per[mapping[name] as int], leg.time, e)))
    } else {
        None
    }
}

/// Does the variant's route have this short name?
pub open spec fn route_named(g: GTFS, variant: RouteVariantID, name: Seq<char>) -> bool {
    g.parent_spec(variant).short_name matches Some(s) && s@ == name
}

/// The events of each vehicle as taps are matched, and how many taps matched, did not match, and
/// matched a vehicle serving a route of another name.
pub ghost struct MatchState {
    pub per_vehicle: Seq<Seq<BoardingEventView>>,
    pub matched: nat,
    pub unmatched: nat,
    pub mismatched: nat,
}

/// Matches one tap, of journey `j`, to the event where its rider boarded.
pub open spec fn match_leg(g: GTFS, mapping: Map<Seq<char>, nat>, st: MatchState, leg: JourneyLeg, j: nat, first_leg: bool) -> MatchState {
    match leg_target(mapping, st.per_vehicle, leg) {
        Some((v, e)) => {
            let events = st.per_vehicle[v];
            MatchState {
                per_vehicle: st.per_vehicle.update(v, events.update(e, board(events[e], JourneyID(j as usize), first_leg))),
                matched: st.matched + 1,
                unmatched: st.unmatched,
                mismatched: if route_named(g, events[e].variant, leg.route_short_name@) {
                    st.mismatched
                } else {
                    st.mismatched + 1
                },
            }
        },
        None => MatchState {
            per_vehicle: st.per_vehicle,
            matched: st.matched,
            unmatched: st.unmatched + 1,
            mismatched: st.mismatched,
        },
    }
}

/// Matches the first `n` taps of journey `j`.
pub open spec fn match_legs(g: GTFS, mapping: Map<Seq<char>, nat>, st: MatchState, legs: Seq<JourneyLeg>, j: nat, n: nat) -> MatchState
    decreases n,
{
    if n == 0 {
        st
    } else {
        match_leg(g, mapping, match_legs(g, mapping, st, legs, j, (n - 1) as nat), legs[n - 1], j, n == 1)
    }
}

/// Matches every tap of the first `n` journeys, journey by journey.
pub open spec fn match_journeys(g: GTFS, mapping: Map<Seq<char>, nat>, st: MatchState, journeys: Seq<Journey>, n: nat) -> MatchState
    decreases n,
{
    if n == 0 {
        st
    } else {
        let before = match_journeys(g, mapping, st, journeys, (n - 1) as nat);
        match_legs(g, mapping, before, journeys[n - 1].legs@, (n - 1) as nat, journeys[n - 1].legs@.len())
    }
}

/// Matching taps counts each tap once, as matched or unmatched, and only matched taps can
/// disagree on the route name.
pub proof fn match_legs_counts(g: GTFS, mapping: Map<Seq<char>, nat>, st: MatchState, legs: Seq<JourneyLeg>, j: nat, n: nat)
    ensures
        match_legs(g, mapping, st, legs, j, n).matched + match_legs(g, mapping, st, legs, j, n).unmatched
            == st.matched + st.unmatched + n,
        match_legs(g, mapping, st, legs, j, n).mismatched - st.mismatched <= match_legs(g, mapping, st, legs, j, n).matched
            - st.matched,
    decreases n,
{
    if n > 0 {
        match_legs_counts(g, mapping, st, legs, j, (n - 1) as nat);
    }
}

/// Matching every tap of the first `n` journeys counts each of their taps once, as matched or
/// unmatched, and only matched taps can disagree on the route name.
pub proof fn match_journeys_counts(g: GTFS, mapping: Map<Seq<char>, nat>, st: MatchState, journeys: Seq<Journey>, n: nat)
    requires
        n <= journeys.len(),
    ensures
        match_journeys(g, mapping, st, journeys, n).matched + match_journeys(g, mapping, st, journeys, n).unmatched
            == st.matched + st.unmatched + all_legs(journeys.take(n as int)).len(),
        match_journeys(g, mapping, st, journeys, n).mismatched - st.mismatched <= match_journeys(
            g,
            mapping,
            st,
            journeys,
            n,
        ).matched - st.matched,
    decreases n,
{
    if n == 0 {
        assert(journeys.take(0) =~= Seq::<Journey>::empty());
    } else {
        match_journeys_counts(g, mapping, st, journeys, (n - 1) as nat);
        let before = match_journeys(g, mapping, st, journeys, (n - 1) as nat);
        match_legs_counts(g, mapping, before, journeys[n - 1].legs@, (n - 1) as nat, journeys[n - 1].legs@.len());
        assert(journeys.take(n as int).drop_last() =~= journeys.take(n - 1));
        assert(journeys.take(n as int).last() == journeys[n - 1]);
    }
}

/// The schedule inferred for vehicle `v` from its observations.
pub open spec fn vehicle_schedule(m: Model, times: Seq<Vec<Vec<Vec<Time>>>>, v: int) -> Seq<ActualTripView> {
    inferred_schedule(m, VehicleID(v as usize), nested_view(times[v]@))
}

/// Each vehicle's events before anyone boards.
pub open spec fn initial_state(m: Model, times: Seq<Vec<Vec<Vec<Time>>>>) -> MatchState {
    MatchState {
        per_vehicle: Seq::new(m.vehicles@.len(), |v: int| schedule_events(m.gtfs, vehicle_schedule(m, times, v))),
        matched: 0,
        unmatched: 0,
        mismatched: 0,
    }
}

/// The events after every tap of the day is matched.
pub open spec fn boarded(m: Model, times: Seq<Vec<Vec<Vec<Time>>>>) -> MatchState {
    match_journeys(m.gtfs, m.vehicle_ids.mapping(), initial_state(m, times), m.journeys@, m.journeys@.len())
}

/// The events of all vehicles, vehicle after vehicle.
pub open spec fn flatten_events(per: Seq<Seq<BoardingEventView>>) -> Seq<BoardingEventView>
    decreases per.len(),
{
    if per.len() == 0 {
        Seq::empty()
    } else {
        flatten_events(per.drop_last()) + per.last()
    }
}

/// The arrival time of an event.
pub open spec fn arrival_key() -> spec_fn(BoardingEventView) -> int {
    |e: BoardingEventView| e.arrival_time.ms()
}

/// How many riders an event records: new riders and transfers.
pub open spec fn riders_of() -> spec_fn(BoardingEventView) -> int {
    |e: BoardingEventView| (e.new_riders.len() + e.transfers.len()) as int
}

/// How many riders a vehicle's events record.
pub open spec fn riders_on_vehicle() -> spec_fn(Seq<BoardingEventView>) -> int {
    |s: Seq<BoardingEventView>| sum_of(s, riders_of())
}

proof fn sum_of_zero<A>(s: Seq<A>, f: spec_fn(A) -> int)
    requires
        forall|i: int| 0 <= i < s.len() ==> f(#[trigger] s[i]) == 0,
    ensures
        sum_of(s, f) == 0,
    decreases s.len(),
{
    if s.len() > 0 {
        assert(f(s[s.len() - 1]) == 0);
        assert forall|i: int| 0 <= i < s.drop_last().len() implies f(#[trigger] s.drop_last()[i]) == 0 by {
            assert(s.drop_last()[i] == s[i]);
        }
        sum_of_zero(s.drop_last(), f);
    }
}

proof fn flatten_riders(per: Seq<Seq<BoardingEventView>>)
    ensures
        sum_of(flatten_events(per), riders_of()) == sum_of(per, riders_on_vehicle()),
    decreases per.len(),
{
    if per.len() > 0 {
        flatten_riders(per.drop_last());
        sum_of_append(flatten_events(per.drop_last()), per.last(), riders_of());
    }
}

proof fn schedule_has_no_riders(g: GTFS, trips: Seq<ActualTripView>)
    ensures
        sum_of(schedule_events(g, trips), riders_of()) == 0,
    decreases trips.len(),
{
    if trips.len() > 0 {
        schedule_has_no_riders(g, trips.drop_last());
        let evs = trip_events(trips.last(), variant_stops(g.variant_spec(trips.last().variant)));
        sum_of_zero(evs, riders_of());
        sum_of_append(schedule_events(g, trips.drop_last()), evs, riders_of());
    }
}

/// A matched tap adds one rider to one event; an unmatched one changes nothing.
proof fn match_leg_riders(g: GTFS, mapping: Map<Seq<char>, nat>, st: MatchState, leg: JourneyLeg, j: nat, first_leg: bool)
    ensures
        sum_of(match_leg(g, mapping, st, leg, j, first_leg).per_vehicle, riders_on_vehicle()) == sum_of(
            st.per_vehicle,
            riders_on_vehicle(),
        ) + match_leg(g, mapping, st, leg, j, first_leg).matched - st.matched,
{
    match leg_target(mapping, st.per_vehicle, leg) {
        Some((v, e)) => {
            let name = leg.vehicle_name.0@;
            assert(exists|e2: int| last_event_before(st.per_vehicle[mapping[name] as int], leg.time, e2));
            let events = st.per_vehicle[v];
            let b = board(events[e], JourneyID(j as usize), first_leg);
            sum_of_update(events, e, b, riders_of());
            sum_of_update(st.per_vehicle, v, events.update(e, b), riders_on_vehicle());
        },
        None => {},
    }
}

proof fn match_legs_riders(g: GTFS, mapping: Map<Seq<char>, nat>, st: MatchState, legs: Seq<JourneyLeg>, j: nat, n: nat)
    ensures
        sum_of(match_legs(g, mapping, st, legs, j, n).per_vehicle, riders_on_vehicle()) == sum_of(
            st.per_vehicle,
            riders_on_vehicle(),
        ) + match_legs(g, mapping, st, legs, j, n).matched - st.matched,
    decreases n,
{
    if n > 0 {
        match_legs_riders(g, mapping, st, legs, j, (n - 1) as nat);
        match_leg_riders(g, mapping, match_legs(g, mapping, st, legs, j, (n - 1) as nat), legs[n - 1], j, n == 1);
    }
}

proof fn match_journeys_riders(g: GTFS, mapping: Map<Seq<char>, nat>, st: MatchState, journeys: Seq<Journey>, n: nat)
    ensures
        sum_of(match_journeys(g, mapping, st, journeys, n).per_vehicle, riders_on_vehicle()) == sum_of(
            st.per_vehicle,
            riders_on_vehicle(),
        ) + match_journeys(g, mapping, st, journeys, n).matched - st.matched,
    decreases n,
{
    if n > 0 {
        match_journeys_riders(g, mapping, st, journeys, (n - 1) as nat);
        let before = match_journeys(g, mapping, st, journeys, (n - 1) as nat);
        match_legs_riders(g, mapping, before, journeys[n - 1].legs@, (n - 1) as nat, journeys[n - 1].legs@.len());
    }
}

/// Before anyone boards, the events record no rider.
proof fn initial_state_has_no_riders(m: Model, times: Seq<Vec<Vec<Vec<Time>>>>)
    ensures
        sum_of(initial_state(m, times).per_vehicle, riders_on_vehicle()) == 0,
{
    let per = initial_state(m, times).per_vehicle;
    assert forall|v: int| 0 <= v < per.len() implies riders_on_vehicle()(#[trigger] per[v]) == 0 by {
        schedule_has_no_riders(m.gtfs, vehicle_schedule(m, times, v));
    }
    sum_of_zero(per, riders_on_vehicle());
}

/// Which trip and stop an event is for.
pub open spec fn event_slot() -> spec_fn(BoardingEventView) -> (TripID, StopID) {
    |e: BoardingEventView| (e.trip, e.stop)
}

/// No two events are for the same stop of the same trip.
pub open spec fn keyed_by_trip_and_stop(events: Seq<BoardingEventView>) -> bool {
    distinct_by(events, event_slot())
}

/// The trip and stop of each vehicle's events.
pub open spec fn slots_of(per: Seq<Seq<BoardingEventView>>) -> Seq<Seq<(TripID, StopID)>> {
    per.map_values(|s: Seq<BoardingEventView>| s.map_values(event_slot()))
}

/// Every vehicle's schedule, vehicle by vehicle.
pub open spec fn all_schedules(m: Model, times: Seq<Vec<Vec<Vec<Time>>>>) -> Seq<Seq<ActualTripView>> {
    Seq::new(m.vehicles@.len(), |v: int| vehicle_schedule(m, times, v))
}

/// No trip is scheduled twice, for one vehicle or for two.
pub open spec fn trips_scheduled_once(scheds: Seq<Seq<ActualTripView>>) -> bool {
    forall|v: int, k: int, w: int, l: int|
        0 <= v < scheds.len() && 0 <= k < scheds[v].len() && 0 <= w < scheds.len() && 0 <= l < scheds[w].len() && (v
            != w || k != l) ==> (#[trigger] scheds[v][k]).trip != (#[trigger] scheds[w][l]).trip
}

/// The trip reaches no stop of its variant twice.
pub open spec fn visits_stops_once(g: GTFS, t: ActualTripView) -> bool {
    let stops = variant_stops(g.variant_spec(t.variant));
    forall|i: int, j: int| 0 <= i < j < t.stop_times.len() ==> #[trigger] stops[i] != #[trigger] stops[j]
}

/// Boarding someone changes no event's trip or stop.
proof fn match_leg_slots(g: GTFS, mapping: Map<Seq<char>, nat>, st: MatchState, leg: JourneyLeg, j: nat, first_leg: bool)
    ensures
        slots_of(match_leg(g, mapping, st, leg, j, first_leg).per_vehicle) == slots_of(st.per_vehicle),
{
    match leg_target(mapping, st.per_vehicle, leg) {
        Some((v, e)) => {
            let name = leg.vehicle_name.0@;
            assert(exists|e2: int| last_event_before(st.per_vehicle[mapping[name] as int], leg.time, e2));
            let events = st.per_vehicle[v];
            let b = board(events[e], JourneyID(j as usize), first_leg);
            assert(events.update(e, b).map_values(event_slot()) =~= events.map_values(event_slot()));
            assert(slots_of(st.per_vehicle.update(v, events.update(e, b))) =~= slots_of(st.per_vehicle));
        },
        None => {},
    }
}

proof fn match_legs_slots(g: GTFS, mapping: Map<Seq<char>, nat>, st: MatchState, legs: Seq<JourneyLeg>, j: nat, n: nat)
    ensures
        slots_of(match_legs(g, mapping, st, legs, j, n).per_vehicle) == slots_of(st.per_vehicle),
    decreases n,
{
    if n > 0 {
        match_legs_slots(g, mapping, st, legs, j, (n - 1) as nat);
        match_leg_slots(g, mapping, match_legs(g, mapping, st, legs, j, (n - 1) as nat), legs[n - 1], j, n == 1);
    }
}

proof fn match_journeys_slots(g: GTFS, mapping: Map<Seq<char>, nat>, st: MatchState, journeys: Seq<Journey>, n: nat)
    ensures
        slots_of(match_journeys(g, mapping, st, journeys, n).per_vehicle) == slots_of(st.per_vehicle),
    decreases n,
{
    if n > 0 {
        match_journeys_slots(g, mapping, st, journeys, (n - 1) as nat);
        let before = match_journeys(g, mapping, st, journeys, (n - 1) as nat);
        match_legs_slots(g, mapping, before, journeys[n - 1].legs@, (n - 1) as nat, journeys[n - 1].legs@.len());
    }
}

/// Vehicles' events with the same trips and stops give, one vehicle after another, the same
/// trips and stops.
proof fn flatten_slots(a: Seq<Seq<BoardingEventView>>, b: Seq<Seq<BoardingEventView>>)
    requires
        slots_of(a) == slots_of(b),
    ensures
        flatten_events(a).map_values(event_slot()) == flatten_events(b).map_values(event_slot()),
    decreases a.len(),
{
    assert(a.len() == slots_of(a).len() && b.len() == slots_of(b).len());
    if a.len() > 0 {
        assert(slots_of(a.drop_last()) =~= slots_of(a).drop_last());
        assert(slots_of(b.drop_last()) =~= slots_of(b).drop_last());
        flatten_slots(a.drop_last(), b.drop_last());
        assert(a.last().map_values(event_slot()) == slots_of(a)[a.len() - 1]);
        assert(b.last().map_values(event_slot()) == slots_of(b)[b.len() - 1]);
        assert(flatten_events(a).map_values(event_slot()) =~= flatten_events(a.drop_last()).map_values(event_slot())
            + a.last().map_values(event_slot()));
        assert(flatten_events(b).map_values(event_slot()) =~= flatten_events(b.drop_last()).map_values(event_slot())
            + b.last().map_values(event_slot()));
    }
}

/// Events with the same trips and stops, position by position, are keyed alike.
proof fn same_slots_keyed(a: Seq<BoardingEventView>, b: Seq<BoardingEventView>)
    requires
        a.map_values(event_slot()) == b.map_values(event_slot()),
        keyed_by_trip_and_stop(b),
    ensures
        keyed_by_trip_and_stop(a),
{
    assert(a.len() == a.map_values(event_slot()).len());
    assert forall|i: int, j: int| 0 <= i < j < a.len() implies event_slot()(#[trigger] a[i]) != event_slot()(
        #[trigger] a[j],
    ) by {
        assert(a.map_values(event_slot())[i] == b.map_values(event_slot())[i]);
        assert(a.map_values(event_slot())[j] == b.map_values(event_slot())[j]);
        assert(event_slot()(b[i]) != event_slot()(b[j]));
    }
}

/// The events of a schedule are for its trips; when no trip repeats and none reaches a stop
/// twice, no two are for the same stop of the same trip.
proof fn schedule_events_keyed(g: GTFS, trips: Seq<ActualTripView>)
    requires
        forall|k: int, l: int| 0 <= k < l < trips.len() ==> (#[trigger] trips[k]).trip != (#[trigger] trips[l]).trip,
        forall|k: int| 0 <= k < trips.len() ==> visits_stops_once(g, #[trigger] trips[k]),
    ensures
        keyed_by_trip_and_stop(schedule_events(g, trips)),
        forall|i: int|
            #![trigger schedule_events(g, trips)[i]]
            0 <= i < schedule_events(g, trips).len() ==> exists|k: int|
                0 <= k < trips.len() && (#[trigger] trips[k]).trip == schedule_events(g, trips)[i].trip,
    decreases trips.len(),
{
    if trips.len() > 0 {
        let init = trips.drop_last();
        assert forall|k: int, l: int| 0 <= k < l < init.len() implies (#[trigger] init[k]).trip != (#[trigger] init[l]).trip by {
            assert(init[k] == trips[k] && init[l] == trips[l]);
        }
        assert forall|k: int| 0 <= k < init.len() implies visits_stops_once(g, #[trigger] init[k]) by {
            assert(init[k] == trips[k]);
        }
        schedule_events_keyed(g, init);
        let n = trips.len() - 1;
        let t = trips[n];
        let stops = variant_stops(g.variant_spec(t.variant));
        let evs = trip_events(t, stops);
        let before = schedule_events(g, init);
        assert(visits_stops_once(g, trips[n]));
        assert forall|i: int, j: int| 0 <= i < j < evs.len() implies event_slot()(#[trigger] evs[i]) != event_slot()(
            #[trigger] evs[j],
        ) by {
            assert(stops[i] != stops[j]);
        }
        assert forall|i: int, j: int| 0 <= i < before.len() && 0 <= j < evs.len() implies event_slot()(
            #[trigger] before[i],
        ) != event_slot()(#[trigger] evs[j]) by {
            let k = choose|k: int| 0 <= k < init.len() && (#[trigger] init[k]).trip == before[i].trip;
            assert(init[k] == trips[k]);
            assert(trips[k].trip != trips[n].trip);
        }
        append_distinct(before, evs, event_slot());
        let all = schedule_events(g, trips);
        assert(all == before + evs);
        assert forall|i: int| #![trigger all[i]] 0 <= i < all.len() implies exists|k: int|
            0 <= k < trips.len() && (#[trigger] trips[k]).trip == all[i].trip by {
            if i < before.len() {
                assert(all[i] == before[i]);
                let k = choose|k: int| 0 <= k < init.len() && (#[trigger] init[k]).trip == before[i].trip;
                assert(init[k] == trips[k]);
            } else {
                assert(all[i] == evs[i - before.len()]);
                assert(trips[n].trip == all[i].trip);
            }
        }
    }
}

/// Before anyone boards, the events of all vehicles are for their scheduled trips; when no trip is
/// scheduled twice and none reaches a stop twice, no two are for the same stop of the same trip.
proof fn flatten_keyed(g: GTFS, per: Seq<Seq<BoardingEventView>>, scheds: Seq<Seq<ActualTripView>>)
    requires
        per.len() == scheds.len(),
        forall|v: int| 0 <= v < per.len() ==> #[trigger] per[v] == schedule_events(g, scheds[v]),
        trips_scheduled_once(scheds),
        forall|v: int, k: int| 0 <= v < scheds.len() && 0 <= k < scheds[v].len() ==> visits_stops_once(g, #[trigger] scheds[v][k]),
    ensures
        keyed_by_trip_and_stop(flatten_events(per)),
        forall|i: int|
            #![trigger flatten_events(per)[i]]
            0 <= i < flatten_events(per).len() ==> exists|v: int, k: int|
                0 <= v < scheds.len() && 0 <= k < scheds[v].len() && (#[trigger] scheds[v][k]).trip == flatten_events(per)[i].trip,
    decreases per.len(),
{
    if per.len() > 0 {
        let n = per.len() - 1;
        let ip = per.drop_last();
        let is = scheds.drop_last();
        assert forall|v: int| 0 <= v < ip.len() implies #[trigger] ip[v] == schedule_events(g, is[v]) by {
            assert(ip[v] == per[v] && is[v] == scheds[v]);
        }
        assert forall|v: int, k: int, w: int, l: int|
            0 <= v < is.len() && 0 <= k < is[v].len() && 0 <= w < is.len() && 0 <= l < is[w].len() && (v != w || k
                != l) implies (#[trigger] is[v][k]).trip != (#[trigger] is[w][l]).trip by {
            assert(is[v] == scheds[v] && is[w] == scheds[w]);
            assert(scheds[v][k].trip != scheds[w][l].trip);
        }
        assert forall|v: int, k: int| 0 <= v < is.len() && 0 <= k < is[v].len() implies visits_stops_once(g, #[trigger] is[v][k]) by {
            assert(is[v] == scheds[v]);
            assert(visits_stops_once(g, scheds[v][k]));
        }
        flatten_keyed(g, ip, is);
        let last = scheds[n];
        assert forall|k: int, l: int| 0 <= k < l < last.len() implies (#[trigger] last[k]).trip != (#[trigger] last[l]).trip by {
            assert(scheds[n][k].trip != scheds[n][l].trip);
        }
        assert forall|k: int| 0 <= k < last.len() implies visits_stops_once(g, #[trigger] last[k]) by {
            assert(visits_stops_once(g, scheds[n][k]));
        }
        schedule_events_keyed(g, last);
        let before = flatten_events(ip);
        let evs = schedule_events(g, last);
        assert(per[n] == evs);
        assert forall|i: int, j: int| 0 <= i < before.len() && 0 <= j < evs.len() implies event_slot()(
            #[trigger] before[i],
        ) != event_slot()(#[trigger] evs[j]) by {
            let (v, k) = choose|v: int, k: int|
                0 <= v < is.len() && 0 <= k < is[v].len() && (#[trigger] is[v][k]).trip == before[i].trip;
            let l = choose|l: int| 0 <= l < last.len() && (#[trigger] last[l]).trip == evs[j].trip;
            assert(is[v] == scheds[v]);
            assert(scheds[v][k].trip != scheds[n][l].trip);
        }
        append_distinct(before, evs, event_slot());
        let all = flatten_events(per);
        assert(all == before + evs);
        assert forall|i: int| #![trigger all[i]] 0 <= i < all.len() implies exists|v: int, k: int|
            0 <= v < scheds.len() && 0 <= k < scheds[v].len() && (#[trigger] scheds[v][k]).trip == all[i].trip by {
            if i < before.len() {
                assert(all[i] == before[i]);
                let (v, k) = choose|v: int, k: int|
                    0 <= v < is.len() && 0 <= k < is[v].len() && (#[trigger] is[v][k]).trip == before[i].trip;
                assert(is[v] == scheds[v]);
                assert(scheds[v][k].trip == all[i].trip);
            } else {
                assert(all[i] == evs[i - before.len()]);
                let l = choose|l: int| 0 <= l < last.len() && (#[trigger] last[l]).trip == evs[i - before.len()].trip;
                assert(scheds[n][l].trip == all[i].trip);
            }
        }
    }
}

/// Boarding events are keyed by trip and stop. When the events already in the model are, none of
/// them is for a trip a vehicle is now scheduled on, no trip is scheduled twice (for one vehicle
/// or for two) and no scheduled trip reaches a stop twice, then no two of the events that
/// `populate_boarding` leaves in the model are for the same stop of the same trip.
pub proof fn boarding_events_keyed_by_trip_and_stop(m: Model, times: Seq<Vec<Vec<Vec<Time>>>>)
    requires
        keyed_by_trip_and_stop(events_view(m.boardings@)),
        trips_scheduled_once(all_schedules(m, times)),
        forall|v: int, k: int|
            0 <= v < all_schedules(m, times).len() && 0 <= k < all_schedules(m, times)[v].len() ==> visits_stops_once(
                m.gtfs,
                #[trigger] all_schedules(m, times)[v][k],
            ),
        forall|i: int, v: int, k: int|
            0 <= i < m.boardings@.len() && 0 <= v < all_schedules(m, times).len() && 0 <= k < all_schedules(
                m,
                times,
            )[v].len() ==> (#[trigger] m.boardings@[i]).trip != (#[trigger] all_schedules(m, times)[v][k]).trip,
    ensures
        keyed_by_trip_and_stop(
            stable_sorted_by(events_view(m.boardings@) + flatten_events(boarded(m, times).per_vehicle), arrival_key()),
        ),
{
    let scheds = all_schedules(m, times);
    let init = initial_state(m, times).per_vehicle;
    let fin = boarded(m, times).per_vehicle;
    match_journeys_slots(m.gtfs, m.vehicle_ids.mapping(), initial_state(m, times), m.journeys@, m.journeys@.len());
    flatten_slots(fin, init);
    assert forall|v: int| 0 <= v < init.len() implies #[trigger] init[v] == schedule_events(m.gtfs, scheds[v]) by {
    }
    flatten_keyed(m.gtfs, init, scheds);
    let old_evs = events_view(m.boardings@);
    let new_evs = flatten_events(fin);
    let start = flatten_events(init);
    same_slots_keyed(new_evs, start);
    assert forall|i: int, j: int| 0 <= i < old_evs.len() && 0 <= j < new_evs.len() implies event_slot()(
        #[trigger] old_evs[i],
    ) != event_slot()(#[trigger] new_evs[j]) by {
        assert(new_evs.len() == new_evs.map_values(event_slot()).len());
        assert(start.len() == start.map_values(event_slot()).len());
        assert(new_evs.map_values(event_slot())[j] == start.map_values(event_slot())[j]);
        assert(new_evs[j].trip == start[j].trip);
        let (v, k) = choose|v: int, k: int|
            0 <= v < scheds.len() && 0 <= k < scheds[v].len() && (#[trigger] scheds[v][k]).trip == start[j].trip;
        assert(old_evs[i] == m.boardings@[i]@);
        assert(m.boardings@[i].trip != scheds[v][k].trip);
    }
    append_distinct(old_evs, new_evs, event_slot());
    stable_sorted_distinct(old_evs + new_evs, arrival_key(), event_slot());
}

/// How matching taps to boarding events went.
pub struct BoardingSummary {
    /// Taps matched to an event.
    pub matched_events: usize,
    /// Taps naming an unknown vehicle, or made before the vehicle reached any stop.
    pub unmatched_events: usize,
    /// Matched taps whose route name differs from that of the trip the vehicle was serving.
    pub route_name_mismatches: usize,
}

/// Where a tap is matched, if anywhere.
fn find_target(ids: &IDMapping<VehicleName, VehicleID>, per: &Vec<Vec<BoardingEvent>>, leg: &JourneyLeg) -> (r: Option<(usize, usize)>)
    requires
        ids.wf(),
    ensures
        r is None <==> leg_target(ids.mapping(), per_vehicle_view(per@), *leg) is None,
        r matches Some(p) ==> leg_target(ids.mapping(), per_vehicle_view(per@), *leg) == Some((p.0 as int, p.1 as int))
            && p.0 < per@.len() && p.1 < per@[p.0 as int]@.len(),
{
    let ghost pv = per_vehicle_view(per@);
    match ids.lookup(&leg.vehicle_name) {
        Ok(id) => {
            if id.0 >= per.len() {
                return None;
            }
            let events = &per[id.0];
            let ghost evs = pv[id.0 as int];
            assert(evs == events_view(events@));
            let mut e: usize = events.len();
            while e > 0
                invariant
                    e <= events@.len(),
                    evs == events_view(events@),
                    ids.mapping().dom().contains(leg.vehicle_name.0@),
                    ids.mapping()[leg.vehicle_name.0@] == id.0,
                    id.0 < per@.len(),
                    pv == per_vehicle_view(per@),
                    evs == pv[id.0 as int],
                    *events == per@[id.0 as int],
                    forall|f: int| e <= f < evs.len() ==> leg.time.ms() < (#[trigger] evs[f]).arrival_time.ms(),
                decreases e,
            {
                if events[e - 1].arrival_time.0 <= leg.time.0 {
                    proof {
                        assert(last_event_before(evs, leg.time, e - 1));
                        let c = choose|c: int| last_event_before(evs, leg.time, c);
                        last_event_before_unique(evs, leg.time, c, e - 1);
                        assert(ids.mapping()[leg.vehicle_name.0@] == id.0);
                        assert(leg_target(ids.mapping(), pv, *leg) == Some((id.0 as int, (e - 1) as int)));
                    }
                    return Some((id.0, e - 1));
                }
                e -= 1;
            }
            proof {
                assert(ids.mapping()[leg.vehicle_name.0@] == id.0);
                if exists|c: int| last_event_before(evs, leg.time, c) {
                    let c = choose|c: int| last_event_before(evs, leg.time, c);
                    assert(leg.time.ms() < evs[c].arrival_time.ms());
                }
            }
            None
        },
        Err(_) => None,
    }
}

/// Taking legs from journeys never gives more than all of them.
proof fn all_legs_prefix(journeys: Seq<Journey>, k: int)
    requires
        0 <= k <= journeys.len(),
    ensures
        all_legs(journeys.take(k)).len() <= all_legs(journeys).len(),
    decreases journeys.len(),
{
    if k < journeys.len() {
        assert(journeys.drop_last().take(k) =~= journeys.take(k));
        all_legs_prefix(journeys.drop_last(), k);
    } else {
        assert(journeys.take(k) =~= journeys);
    }
}

/// Each vehicle's events before anyone boards, and the timetable of its schedule.
fn initial_events(model: &Model, times_near_stops: &Vec<Vec<Vec<Vec<Time>>>>) -> (r: (Vec<Vec<BoardingEvent>>, Vec<Timetable<TripID>>))
    requires
        model.wf(),
        times_near_stops@.len() == model.vehicles@.len(),
        forall|v: int|
            0 <= v < times_near_stops@.len() ==> observations_fit(*model, VehicleID(v as usize), (#[trigger] times_near_stops@[v])@),
    ensures
        per_vehicle_view(r.0@) == initial_state(*model, times_near_stops@).per_vehicle,
        r.1@.len() == model.vehicles@.len(),
        forall|v: int| 0 <= v < r.1@.len() ==> (#[trigger] r.1@[v]).entries() == timetable_of(vehicle_schedule(*model, times_near_stops@, v)),
        forall|v: int, f: int|
            0 <= v < r.0@.len() && 0 <= f < r.0@[v]@.len() ==> has_variant(model.gtfs.routes@, (#[trigger] r.0@[v]@[f]).variant),
{
    let n = model.vehicles.len();
    let mut per: Vec<Vec<BoardingEvent>> = Vec::new();
    let mut tables: Vec<Timetable<TripID>> = Vec::new();
    let mut v: usize = 0;
    while v < n
        invariant
            model.wf(),
            n == model.vehicles@.len(),
            times_near_stops@.len() == n,
            forall|w: int|
                0 <= w < times_near_stops@.len() ==> observations_fit(*model, VehicleID(w as usize), (#[trigger] times_near_stops@[w])@),
            v <= n,
            per@.len() == v,
            tables@.len() == v,
            forall|w: int| 0 <= w < v ==> (#[trigger] per_vehicle_view(per@)[w]) == schedule_events(model.gtfs, vehicle_schedule(*model, times_near_stops@, w)),
            forall|w: int| 0 <= w < v ==> (#[trigger] tables@[w]).entries() == timetable_of(vehicle_schedule(*model, times_near_stops@, w)),
            forall|w: int, f: int|
                0 <= w < per@.len() && 0 <= f < per@[w]@.len() ==> has_variant(model.gtfs.routes@, (#[trigger] per@[w]@[f]).variant),
        decreases n - v,
    {
        assert(observations_fit(*model, VehicleID(v), times_near_stops@[v as int]@));
        let schedule = model.infer_vehicle_schedule(VehicleID(v), &times_near_stops[v]);
        let ghost sched = vehicle_schedule(*model, times_near_stops@, v as int);
        assert(trips_view_of(schedule@) == sched);
        let (events, table) = events_for_schedule(&model.gtfs, VehicleID(v), &schedule);
        let ghost before = per@;
        per.push(events);
        tables.push(table);
        proof {
            assert forall|w: int| 0 <= w < v + 1 implies (#[trigger] per_vehicle_view(per@)[w]) == schedule_events(model.gtfs, vehicle_schedule(*model, times_near_stops@, w)) by {
                if w < v {
                    assert(per@[w] == before[w]);
                    assert(per_vehicle_view(before)[w] == per_vehicle_view(per@)[w]);
                } else {
                    assert(per@[w] == events);
                    assert(per_vehicle_view(per@)[w] == events_view(per@[w]@));
                    assert(events_view(events@) == schedule_events(model.gtfs, trips_view_of(schedule@)));
                    assert(w == v);
                    assert(sched == vehicle_schedule(*model, times_near_stops@, w));
                    assert(trips_view_of(schedule@) == sched);
                }
            }
            assert forall|w: int, f: int|
                0 <= w < per@.len() && 0 <= f < per@[w]@.len() implies has_variant(model.gtfs.routes@, (#[trigger] per@[w]@[f]).variant) by {
                if w < v {
                    assert(per@[w] == before[w]);
                }
            }
        }
        v += 1;
    }
    assert(per_vehicle_view(per@) =~= initial_state(*model, times_near_stops@).per_vehicle);
    (per, tables)
}

/// Matches every tap of the day to the event where its rider boarded, journey by journey.
fn match_taps(model: &Model, per: &mut Vec<Vec<BoardingEvent>>) -> (r: BoardingSummary)
    requires
        model.wf(),
        all_legs(model.journeys@).len() <= usize::MAX,
        forall|v: int, f: int|
            0 <= v < old(per)@.len() && 0 <= f < old(per)@[v]@.len() ==> has_variant(model.gtfs.routes@, (#[trigger] old(per)@[v]@[f]).variant),
    ensures
        ({
            let st = match_journeys(
                model.gtfs,
                model.vehicle_ids.mapping(),
                MatchState { per_vehicle: per_vehicle_view(old(per)@), matched: 0, unmatched: 0, mismatched: 0 },
                model.journeys@,
                model.journeys@.len(),
            );
            &&& per_vehicle_view(final(per)@) == st.per_vehicle
            &&& r.matched_events == st.matched
            &&& r.unmatched_events == st.unmatched
            &&& r.route_name_mismatches == st.mismatched
        }),
{
    let ghost g = model.gtfs;
    let ghost mapping = model.vehicle_ids.mapping();
    let ghost st0 = MatchState { per_vehicle: per_vehicle_view(per@), matched: 0, unmatched: 0, mismatched: 0 };
    let ghost journeys = model.journeys@;
    let mut matched: usize = 0;
    let mut unmatched: usize = 0;
    let mut mismatches: usize = 0;
    let mut j: usize = 0;
    proof {
        assert(journeys.take(0) =~= Seq::<Journey>::empty());
    }
    while j < model.journeys.len()
        invariant
            model.wf(),
            g == model.gtfs,
            mapping == model.vehicle_ids.mapping(),
            journeys == model.journeys@,
            all_legs(journeys).len() <= usize::MAX,
            j <= journeys.len(),
            forall|v: int, f: int|
                0 <= v < per@.len() && 0 <= f < per@[v]@.len() ==> has_variant(g.routes@, (#[trigger] per@[v]@[f]).variant),
            (MatchState {
                per_vehicle: per_vehicle_view(per@),
                matched: matched as nat,
                unmatched: unmatched as nat,
                mismatched: mismatches as nat,
            }) == match_journeys(g, mapping, st0, journeys, j as nat),
            matched + unmatched == all_legs(journeys.take(j as int)).len(),
            mismatches <= matched,
        decreases journeys.len() - j,
    {
        let journey = &model.journeys[j];
        let ghost base = match_journeys(g, mapping, st0, journeys, j as nat);
        let mut l: usize = 0;
        proof {
            assert(journeys.take(j + 1).drop_last() =~= journeys.take(j as int));
            assert(journeys.take(j + 1).last() == *journey);
            all_legs_prefix(journeys, j + 1);
        }
        while l < journey.legs.len()
            invariant
                model.wf(),
                g == model.gtfs,
                mapping == model.vehicle_ids.mapping(),
                journeys == model.journeys@,
                *journey == journeys[j as int],
                j < journeys.len(),
                l <= journey.legs@.len(),
                all_legs(journeys.take(j as int)).len() + journey.legs@.len() <= usize::MAX,
                forall|v: int, f: int|
                    0 <= v < per@.len() && 0 <= f < per@[v]@.len() ==> has_variant(g.routes@, (#[trigger] per@[v]@[f]).variant),
                (MatchState {
                    per_vehicle: per_vehicle_view(per@),
                    matched: matched as nat,
                    unmatched: unmatched as nat,
                    mismatched: mismatches as nat,
                }) == match_legs(g, mapping, base, journey.legs@, j as nat, l as nat),
                matched + unmatched == all_legs(journeys.take(j as int)).len() + l,
                mismatches <= matched,
            decreases journey.legs@.len() - l,
        {
            let leg = &journey.legs[l];
            let ghost st = MatchState {
                per_vehicle: per_vehicle_view(per@),
                matched: matched as nat,
                unmatched: unmatched as nat,
                mismatched: mismatches as nat,
            };
            match find_target(&model.vehicle_ids, &per, leg) {
                Some((v, e)) => {
                    let variant = per[v][e].variant;
                    assert(has_variant(g.routes@, variant));
                    let route = model.gtfs.parent_of_variant(variant);
                    let same = match &route.short_name {
                        Some(x) => same_text(x.as_str(), leg.route_short_name.as_str()),
                        None => false,
                    };
                    assert(same == route_named(g, st.per_vehicle[v as int][e as int].variant, leg.route_short_name@));
                    if !same {
                        mismatches += 1;
                    }
                    board_at(per, v, e, JourneyID(j), l == 0);
                    matched += 1;
                    proof {
                        let next = match_leg(g, mapping, st, *leg, j as nat, l == 0);
                        assert(leg_target(mapping, st.per_vehicle, *leg) == Some((v as int, e as int)));
                        assert(JourneyID((j as nat) as usize) == JourneyID(j));
                        assert(next.per_vehicle == per_vehicle_view(per@));
                        assert(next.matched == matched as nat);
                        assert(next.unmatched == unmatched as nat);
                        assert(next.mismatched == mismatches as nat);
                    }
                },
                None => {
                    unmatched += 1;
                    proof {
                        let next = match_leg(g, mapping, st, *leg, j as nat, l == 0);
                        assert(next.per_vehicle == per_vehicle_view(per@));
                    }
                },
            }
            assert((MatchState {
                per_vehicle: per_vehicle_view(per@),
                matched: matched as nat,
                unmatched: unmatched as nat,
                mismatched: mismatches as nat,
            }) == match_leg(g, mapping, st, *leg, j as nat, l == 0));
            l += 1;
        }
        proof {
            assert(journey.legs@.len() == l);
        }
        j += 1;
    }
    BoardingSummary { matched_events: matched, unmatched_events: unmatched, route_name_mismatches: mismatches }
}

/// Builds the day's boarding events. `times_near_stops[v]` holds what `infer_vehicle_schedule`
/// needs for vehicle `v`. Each vehicle's schedule is inferred and summarized in its timetable, and
/// yields one event per stop of each trip. Every tap is then matched to the vehicle it names, at
/// the last stop the vehicle reached no later than the tap (people tap on after boarding): the
/// first tap of a journey counts as a new rider, later ones as transfers. Taps naming an unknown
/// vehicle, or made before it reached any stop, stay unmatched. The events of all vehicles are
/// added to the model's boarding events, which are then sorted by arrival time.
pub fn populate_boarding(model: &mut Model, times_near_stops: &Vec<Vec<Vec<Vec<Time>>>>) -> (r: BoardingSummary)
    requires
        old(model).wf(),
        times_near_stops@.len() == old(model).vehicles@.len(),
        forall|v: int|
            0 <= v < times_near_stops@.len() ==> observations_fit(
                *old(model),
                VehicleID(v as usize),
                (#[trigger] times_near_stops@[v])@,
            ),
        all_legs(old(model).journeys@).len() <= usize::MAX,
    ensures
        final(model).wf(),
        final(model).gtfs == old(model).gtfs,
        final(model).journeys == old(model).journeys,
        final(model).vehicle_ids == old(model).vehicle_ids,
        final(model).main_date == old(model).main_date,
        final(model).vehicles@.len() == old(model).vehicles@.len(),
        forall|v: int|
            0 <= v < final(model).vehicles@.len() ==> {
                &&& (#[trigger] final(model).vehicles@[v]).id == old(model).vehicles@[v].id
                &&& final(model).vehicles@[v].original_id == old(model).vehicles@[v].original_id
                &&& final(model).vehicles@[v].timetable.entries() == timetable_of(
                    vehicle_schedule(*old(model), times_near_stops@, v),
                )
            },
        events_view(final(model).boardings@) == stable_sorted_by(
            events_view(old(model).boardings@) + flatten_events(boarded(*old(model), times_near_stops@).per_vehicle),
            arrival_key(),
        ),
        r.matched_events == boarded(*old(model), times_near_stops@).matched,
        r.unmatched_events == boarded(*old(model), times_near_stops@).unmatched,
        r.route_name_mismatches == boarded(*old(model), times_near_stops@).mismatched,
        r.matched_events + r.unmatched_events == all_legs(old(model).journeys@).len(),
        r.route_name_mismatches <= r.matched_events,
        sorted_by(events_view(final(model).boardings@), arrival_key()),
        sum_of(events_view(final(model).boardings@), riders_of()) == sum_of(events_view(old(model).boardings@), riders_of())
            + r.matched_events,
{
    let ghost m0 = *model;
    let (mut per, tables) = initial_events(model, times_near_stops);
    let summary = match_taps(model, &mut per);
    proof {
        match_journeys_counts(
            m0.gtfs,
            m0.vehicle_ids.mapping(),
            initial_state(m0, times_near_stops@),
            m0.journeys@,
            m0.journeys@.len(),
        );
        assert(m0.journeys@.take(m0.journeys@.len() as int) =~= m0.journeys@);
    }
    let ghost final_per = per_vehicle_view(per@);
    assert(final_per == boarded(m0, times_near_stops@).per_vehicle);
    let n = per.len();
    let mut all_events: Vec<BoardingEvent> = Vec::new();
    std::mem::swap(&mut all_events, &mut model.boardings);
    let ghost start = events_view(all_events@);
    assert(start == events_view(m0.boardings@));
    let mut v: usize = 0;
    proof {
        assert(final_per.take(0) =~= Seq::<Seq<BoardingEventView>>::empty());
        assert(start + flatten_events(final_per.take(0)) =~= start);
        assert(per_vehicle_view(per@) =~= final_per.subrange(0, n as int));
    }
    while per.len() > 0
        invariant
            n == final_per.len(),
            v + per@.len() == n,
            per_vehicle_view(per@) == final_per.subrange(v as int, n as int),
            events_view(all_events@) == start + flatten_events(final_per.take(v as int)),
        decreases per@.len(),
    {
        let ghost pv = per_vehicle_view(per@);
        let mut evs = per.remove(0);
        proof {
            assert(pv[0] == events_view(evs@));
            assert(per_vehicle_view(per@) =~= pv.drop_first());
            assert(final_per.take(v + 1).drop_last() =~= final_per.take(v as int));
            assert(final_per.take(v + 1).last() == pv[0]);
        }
        let ghost before = events_view(all_events@);
        let ghost added = events_view(evs@);
        all_events.append(&mut evs);
        proof {
            assert(events_view(all_events@) =~= before + added);
        }
        v += 1;
        assert(per_vehicle_view(per@) =~= final_per.subrange(v as int, n as int));
    }
    assert(final_per.take(v as int) =~= final_per);
    let ghost unsorted = all_events@;
    let sorted = stable_sort(all_events);
    proof {
        stable_sorted_map(unsorted, key_fn::<BoardingEvent>(), arrival_key(), event_view());
    }
    model.boardings = sorted;
    let mut tables = tables;
    let ghost all_tables = tables@;
    let vehicle_count = model.vehicles.len();
    let mut k: usize = 0;
    while k < vehicle_count
        invariant
            vehicle_count == m0.vehicles@.len(),
            all_tables.len() == vehicle_count,
            k <= vehicle_count,
            tables@ == all_tables.subrange(k as int, vehicle_count as int),
            model.gtfs == m0.gtfs,
            model.journeys == m0.journeys,
            model.vehicle_ids == m0.vehicle_ids,
            model.main_date == m0.main_date,
            events_view(model.boardings@) == stable_sorted_by(
                start + flatten_events(final_per),
                arrival_key(),
            ),
            model.vehicles@.len() == vehicle_count,
            forall|w: int|
                0 <= w < vehicle_count ==> (#[trigger] model.vehicles@[w]).id == m0.vehicles@[w].id
                    && model.vehicles@[w].original_id == m0.vehicles@[w].original_id,
            forall|w: int| 0 <= w < k ==> (#[trigger] model.vehicles@[w]).timetable == all_tables[w],
        decreases vehicle_count - k,
    {
        let table = tables.remove(0);
        proof {
            assert(table == all_tables[k as int]);
            assert(tables@ =~= all_tables.subrange(k + 1, vehicle_count as int));
        }
        let ghost before = model.vehicles@;
        model.vehicles[k].timetable = table;
        proof {
            assert forall|w: int| 0 <= w < vehicle_count && w != k implies #[trigger] model.vehicles@[w] == before[w] by {
            }
        }
        k += 1;
    }
    proof {
        assert forall|i: int| 0 <= i < model.vehicles@.len() implies (#[trigger] model.vehicles@[i]).id.0 == i by {
            assert(m0.vehicles@[i].id.0 == i);
        }
        stable_sorted_is_sorted_permutation(start + flatten_events(final_per), arrival_key());
        stable_sorted_sum(start + flatten_events(final_per), arrival_key(), riders_of());
        sum_of_append(start, flatten_events(final_per), riders_of());
        flatten_riders(final_per);
        initial_state_has_no_riders(m0, times_near_stops@);
        match_journeys_riders(
            m0.gtfs,
            m0.vehicle_ids.mapping(),
            initial_state(m0, times_near_stops@),
            m0.journeys@,
            m0.journeys@.len(),
        );
    }
    summary
}

/// The events at `stop`, in order.
pub open spec fn events_at_stop(events: Seq<BoardingEventView>, stop: StopID) -> Seq<BoardingEventView>
    decreases events.len(),
{
    if events.len() == 0 {
        Seq::empty()
    } else if events.last().stop == stop {
        events_at_stop(events.drop_last(), stop).push(events.last())
    } else {
        events_at_stop(events.drop_last(), stop)
    }
}

impl Model {
    /// The first boarding event of `trip` at `stop`.
    pub fn find_boarding_event(&self, trip: TripID, stop: StopID) -> (r: Option<&BoardingEvent>)
        ensures
            match r {
                Some(ev) => exists|i: int|
                    0 <= i < self.boardings@.len() && self.boardings@[i] == *ev && ev.trip == trip && ev.stop == stop
                        && forall|j: int|
                        0 <= j < i ==> !((#[trigger] self.boardings@[j]).trip == trip && self.boardings@[j].stop == stop),
                None => forall|j: int|
                    0 <= j < self.boardings@.len() ==> !((#[trigger] self.boardings@[j]).trip == trip
                        && self.boardings@[j].stop == stop),
            },
    {
        let mut i: usize = 0;
        while i < self.boardings.len()
            invariant
                i <= self.boardings@.len(),
                forall|j: int| 0 <= j < i ==> !((#[trigger] self.boardings@[j]).trip == trip && self.boardings@[j].stop == stop),
            decreases self.boardings@.len() - i,
        {
            let ev = &self.boardings[i];
            if ev.trip.0 == trip.0 && ev.stop.0 == stop.0 {
                return Some(ev);
            }
            i += 1;
        }
        None
    }

    /// The first boarding event of `trip` at `stop`, looked up by reference to the trip.
    pub fn find_event(&self, trip: &TripID, stop: StopID) -> (r: Option<&BoardingEvent>)
        ensures
            match r {
                Some(ev) => exists|i: int|
                    0 <= i < self.boardings@.len() && self.boardings@[i] == *ev && ev.trip == *trip && ev.stop == stop
                        && forall|j: int|
                        0 <= j < i ==> !((#[trigger] self.boardings@[j]).trip == *trip && self.boardings@[j].stop == stop),
                None => forall|j: int|
                    0 <= j < self.boardings@.len() ==> !((#[trigger] self.boardings@[j]).trip == *trip
                        && self.boardings@[j].stop == stop),
            },
    {
        self.find_boarding_event(*trip, stop)
    }

    /// The first boarding event of `vehicle` arriving at `stop` at `time`.
    pub fn boarding_event_for_vehicle_stop_time(&self, vehicle: VehicleID, stop: StopID, time: Time) -> (r: Option<&BoardingEvent>)
        ensures
            match r {
                Some(ev) => exists|i: int|
                    0 <= i < self.boardings@.len() && self.boardings@[i] == *ev && ev.vehicle == vehicle && ev.stop
                        == stop && ev.arrival_time == time && forall|j: int|
                        0 <= j < i ==> !((#[trigger] self.boardings@[j]).vehicle == vehicle && self.boardings@[j].stop
                            == stop && self.boardings@[j].arrival_time == time),
                None => forall|j: int|
                    0 <= j < self.boardings@.len() ==> !((#[trigger] self.boardings@[j]).vehicle == vehicle
                        && self.boardings@[j].stop == stop && self.boardings@[j].arrival_time == time),
            },
    {
        let mut i: usize = 0;
        while i < self.boardings.len()
            invariant
                i <= self.boardings@.len(),
                forall|j: int|
                    0 <= j < i ==> !((#[trigger] self.boardings@[j]).vehicle == vehicle && self.boardings@[j].stop == stop
                        && self.boardings@[j].arrival_time == time),
            decreases self.boardings@.len() - i,
        {
            let ev = &self.boardings[i];
            if ev.vehicle.0 == vehicle.0 && ev.stop.0 == stop.0 && ev.arrival_time.0 == time.0 {
                return Some(ev);
            }
            i += 1;
        }
        None
    }

    /// The last boarding event of `vehicle` arriving no later than `time`.
    pub fn most_recent_boarding_event_for_bus(&self, vehicle: VehicleID, time: Time) -> (r: Option<&BoardingEvent>)
        ensures
            match r {
                Some(ev) => exists|i: int|
                    0 <= i < self.boardings@.len() && self.boardings@[i] == *ev && ev.vehicle == vehicle
                        && ev.arrival_time.ms() <= time.ms() && forall|j: int|
                        i < j < self.boardings@.len() ==> !((#[trigger] self.boardings@[j]).vehicle == vehicle
                            && self.boardings@[j].arrival_time.ms() <= time.ms()),
                None => forall|j: int|
                    0 <= j < self.boardings@.len() ==> !((#[trigger] self.boardings@[j]).vehicle == vehicle
                        && self.boardings@[j].arrival_time.ms() <= time.ms()),
            },
    {
        let mut i: usize = self.boardings.len();
        while i > 0
            invariant
                i <= self.boardings@.len(),
                forall|j: int|
                    i <= j < self.boardings@.len() ==> !((#[trigger] self.boardings@[j]).vehicle == vehicle
                        && self.boardings@[j].arrival_time.ms() <= time.ms()),
            decreases i,
        {
            let ev = &self.boardings[i - 1];
            if ev.vehicle.0 == vehicle.0 && ev.arrival_time.0 <= time.0 {
                return Some(ev);
            }
            i -= 1;
        }
        None
    }

    /// Every boarding event at `stop`, in order.
    pub fn all_boarding_events_at_stop(&self, stop: StopID) -> (r: Vec<&BoardingEvent>)
        ensures
            r@.map_values(|e: &BoardingEvent| e@) == events_at_stop(events_view(self.boardings@), stop),
    {
        let mut r: Vec<&BoardingEvent> = Vec::new();
        let mut i: usize = 0;
        while i < self.boardings.len()
            invariant
                i <= self.boardings@.len(),
                r@.map_values(|e: &BoardingEvent| e@) == events_at_stop(events_view(self.boardings@.take(i as int)), stop),
            decreases self.boardings@.len() - i,
        {
            let ev = &self.boardings[i];
            proof {
                assert(events_view(self.boardings@.take(i + 1)).drop_last() =~= events_view(self.boardings@.take(i as int)));
                assert(events_view(self.boardings@.take(i + 1)).last() == ev@);
            }
            if ev.stop.0 == stop.0 {
                r.push(ev);
            }
            i += 1;
            assert(r@.map_values(|e: &BoardingEvent| e@) =~= events_at_stop(events_view(self.boardings@.take(i as int)), stop));
        }
        assert(self.boardings@.take(i as int) =~= self.boardings@);
        r
    }
}

} // verus!
