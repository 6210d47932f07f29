use vstd::prelude::*;

use crate::dates::{chrono_parse_datetime, parse_datetime_with, Date};
use crate::error::LoadError;
use crate::model::VehicleName;
use crate::sort::{key_fn, sorted_by, stable_sort, stable_sorted_by, stable_sorted_is_sorted_permutation, SortKey};
use crate::text::{
    list_at, list_at_index, list_at_insert, list_at_update, search_sorted, strictly_sorted, total_listed,
    total_listed_insert, total_listed_update, TextKeyed,
};
use crate::time::Time;

verus! {

#[derive(Clone, Debug, PartialEq, Eq, PartialOrd, Ord, Hash)]
pub struct CardID(pub String);

impl TextKeyed for CardID {
    open spec fn key_text(&self) -> Seq<char> {
        self.0@
    }

    fn key_str(&self) -> (r: &str) {
        self.0.as_str()
    }
}

/// Just an index into the day's journeys.
#[derive(Clone, Copy, Debug, PartialEq, Eq, PartialOrd, Ord, Hash, Structural)]
pub struct JourneyID(pub usize);

/// One tap of a ticket card on a vehicle.
#[derive(Clone, Debug)]
pub struct JourneyLeg {
    /// Sometime after boarding.
    pub time: Time,
    /// Where the tap happened, as an index into the caller's table of positions.
    pub pos: usize,
    pub route_short_name: String,
    pub vehicle_name: VehicleName,
}

impl SortKey for JourneyLeg {
    open spec fn key(&self) -> int {
        self.time.ms()
    }

    fn key_of(&self) -> (k: i128) {
        self.time.0 as i128
    }
}

/// The legs of one trip a passenger makes, possibly with transfers.
#[derive(Clone, Debug)]
pub struct Journey {
    pub card_id: CardID,
    pub legs: Vec<JourneyLeg>,
}

/// Two hours, the window of one journey.
pub open spec fn journey_window_ms() -> int {
    7_200_000
}

/// Splits time-sorted legs into journeys: a leg joins the current journey when that journey
/// has fewer than four legs and began less than two hours earlier; otherwise it starts a new
/// journey.
pub open spec fn group_journeys(legs: Seq<JourneyLeg>) -> Seq<Seq<JourneyLeg>>
    decreases legs.len(),
{
    if legs.len() == 0 {
        Seq::empty()
    } else if legs.len() == 1 {
        seq![legs]
    } else {
        let g = group_journeys(legs.drop_last());
        let cur = g.last();
        let leg = legs.last();
        if cur.len() < 4 && leg.time.ms() - cur[0].time.ms() < journey_window_ms() {
            g.update(g.len() - 1, cur.push(leg))
        } else {
            g.push(seq![leg])
        }
    }
}

/// Joins groups back into one sequence.
pub open spec fn flatten_legs(groups: Seq<Seq<JourneyLeg>>) -> Seq<JourneyLeg>
    decreases groups.len(),
{
    if groups.len() == 0 {
        Seq::empty()
    } else {
        flatten_legs(groups.drop_last()) + groups.last()
    }
}

/// The journeys `split_into_journeys` makes of one card's legs.
pub open spec fn journeys_of_card(legs: Seq<JourneyLeg>) -> Seq<Seq<JourneyLeg>> {
    group_journeys(stable_sorted_by(legs, key_fn::<JourneyLeg>()))
}

/// A passenger can board up to four buses in a two-hour window: grouping sorted legs gives
/// journeys of one to four legs, each leg less than two hours after its journey's first, each
/// journey in time order, and the journeys hold exactly the legs, in order.
pub proof fn journeys_respect_window(legs: Seq<JourneyLeg>)
    requires
        sorted_by(legs, key_fn::<JourneyLeg>()),
    ensures
        flatten_legs(group_journeys(legs)) == legs,
        forall|g: int|
            0 <= g < group_journeys(legs).len() ==> {
                &&& 1 <= (#[trigger] group_journeys(legs)[g]).len() <= 4
                &&& sorted_by(group_journeys(legs)[g], key_fn::<JourneyLeg>())
                &&& forall|k: int|
                    0 <= k < group_journeys(legs)[g].len() ==> (#[trigger] group_journeys(legs)[g][k]).time.ms()
                        - group_journeys(legs)[g][0].time.ms() < journey_window_ms()
            },
    decreases legs.len(),
{
    if legs.len() == 1 {
        assert(seq![legs].drop_last() =~= Seq::<Seq<JourneyLeg>>::empty());
        let one = seq![legs];
        assert(one.last() == legs);
        assert(flatten_legs(one.drop_last()) =~= Seq::<JourneyLeg>::empty());
        assert(flatten_legs(one) == flatten_legs(one.drop_last()) + one.last());
        assert(flatten_legs(one) =~= legs);
    } else if legs.len() > 1 {
        let rest = legs.drop_last();
        journeys_respect_window(rest);
        let g = group_journeys(rest);
        let cur = g.last();
        let leg = legs.last();
        assert(g.len() > 0) by {
            if g.len() == 0 {
                assert(flatten_legs(g) =~= Seq::<JourneyLeg>::empty());
            }
        }
        if cur.len() < 4 && leg.time.ms() - cur[0].time.ms() < journey_window_ms() {
            let g2 = g.update(g.len() - 1, cur.push(leg));
            assert(g2.drop_last() =~= g.drop_last());
            assert(flatten_legs(g2) =~= flatten_legs(g) + seq![leg]);
            assert(legs =~= rest.push(leg));
            // the new leg comes no earlier than the journey's other legs
            assert forall|k: int| 0 <= k < cur.len() implies (#[trigger] cur[k]).time.ms() <= leg.time.ms() by {
                flatten_tail(g);
                let off = rest.len() - cur.len();
                assert(rest[off + k] == cur[k]);
                assert(legs[off + k] == cur[k]);
            }
            assert forall|a: int, b: int| 0 <= a < b < cur.push(leg).len() implies (#[trigger] cur.push(leg)[a]).key()
                <= (#[trigger] cur.push(leg)[b]).key() by {
                if b < cur.len() {
                    assert(key_fn::<JourneyLeg>()(cur[a]) <= key_fn::<JourneyLeg>()(cur[b]));
                }
            }
        } else {
            let g2 = g.push(seq![leg]);
            assert(g2.drop_last() =~= g);
            assert(flatten_legs(g2) =~= flatten_legs(g) + seq![leg]);
            assert(legs =~= rest.push(leg));
        }
    }
}

/// Journeys are as long as the rules allow: every journey has one to four legs, and a leg starts
/// a new journey only when the journey before it already has four legs or began at least two
/// hours before that leg, whatever the routes and vehicles of the legs.
pub proof fn journeys_are_maximal(legs: Seq<JourneyLeg>)
    ensures
        legs.len() > 0 ==> group_journeys(legs).len() > 0,
        forall|g: int| 0 <= g < group_journeys(legs).len() ==> 1 <= (#[trigger] group_journeys(legs)[g]).len() <= 4,
        forall|g: int|
            0 <= g < group_journeys(legs).len() - 1 ==> (#[trigger] group_journeys(legs)[g]).len() == 4
                || group_journeys(legs)[g + 1][0].time.ms() - group_journeys(legs)[g][0].time.ms()
                >= journey_window_ms(),
    decreases legs.len(),
{
    if legs.len() == 1 {
        assert(group_journeys(legs) == seq![legs]);
    } else if legs.len() > 1 {
        let rest = legs.drop_last();
        journeys_are_maximal(rest);
        let g = group_journeys(rest);
        let n = g.len() - 1;
        let cur = g.last();
        let leg = legs.last();
        assert(cur == g[n]);
        assert(1 <= cur.len() <= 4);
        if cur.len() < 4 && leg.time.ms() - cur[0].time.ms() < journey_window_ms() {
            let g2 = g.update(n, cur.push(leg));
            assert(group_journeys(legs) == g2);
            assert forall|k: int| 0 <= k < g2.len() - 1 implies (#[trigger] g2[k]).len() == 4 || g2[k + 1][0].time.ms()
                - g2[k][0].time.ms() >= journey_window_ms() by {
                assert(g2[k] == g[k]);
                if k + 1 == n {
                    assert(g2[k + 1][0] == cur[0]);
                } else {
                    assert(g2[k + 1] == g[k + 1]);
                }
            }
            assert forall|k: int| 0 <= k < g2.len() implies 1 <= (#[trigger] g2[k]).len() <= 4 by {
                if k != n {
                    assert(g2[k] == g[k]);
                }
            }
        } else {
            let g2 = g.push(seq![leg]);
            assert(group_journeys(legs) == g2);
            assert forall|k: int| 0 <= k < g2.len() - 1 implies (#[trigger] g2[k]).len() == 4 || g2[k + 1][0].time.ms()
                - g2[k][0].time.ms() >= journey_window_ms() by {
                assert(g2[k] == g[k]);
                if k + 1 == g.len() {
                    assert(g2[k + 1] == seq![leg]);
                    assert(g[k] == cur);
                } else {
                    assert(g2[k + 1] == g[k + 1]);
                }
            }
            assert forall|k: int| 0 <= k < g2.len() implies 1 <= (#[trigger] g2[k]).len() <= 4 by {
                if k < g.len() {
                    assert(g2[k] == g[k]);
                }
            }
        }
    }
}

/// The last group is the tail of the flattened sequence.
proof fn flatten_tail(g: Seq<Seq<JourneyLeg>>)
    requires
        g.len() > 0,
    ensures
        flatten_legs(g) == flatten_legs(g.drop_last()) + g.last(),
        flatten_legs(g).subrange(flatten_legs(g).len() - g.last().len(), flatten_legs(g).len() as int)
            == g.last(),
{
    assert(flatten_legs(g).subrange(flatten_legs(g).len() - g.last().len(), flatten_legs(g).len() as int)
        =~= g.last());
}

/// How many legs the journeys hold in all.
pub open spec fn total_legs(journeys: Seq<Journey>) -> nat
    decreases journeys.len(),
{
    if journeys.len() == 0 {
        0
    } else {
        total_legs(journeys.drop_last()) + journeys.last().legs@.len()
    }
}

proof fn total_legs_append(a: Seq<Journey>, b: Seq<Journey>)
    ensures
        total_legs(a + b) == total_legs(a) + total_legs(b),
    decreases b.len(),
{
    if b.len() == 0 {
        assert(a + b =~= a);
    } else {
        total_legs_append(a, b.drop_last());
        assert((a + b).drop_last() =~= a + b.drop_last());
    }
}

/// Journeys holding the groups of legs hold as many legs as the groups joined.
proof fn total_legs_of_groups(js: Seq<Journey>, groups: Seq<Seq<JourneyLeg>>)
    requires
        js.len() == groups.len(),
        forall|i: int| 0 <= i < js.len() ==> (#[trigger] js[i]).legs@ == groups[i],
    ensures
        total_legs(js) == flatten_legs(groups).len(),
    decreases js.len(),
{
    if js.len() > 0 {
        total_legs_of_groups(js.drop_last(), groups.drop_last());
    }
}

pub(crate) fn copy_leg(leg: &JourneyLeg) -> (r: JourneyLeg)
    ensures
        r == *leg,
{
    JourneyLeg {
        time: leg.time,
        pos: leg.pos,
        route_short_name: leg.route_short_name.clone(),
        vehicle_name: VehicleName(leg.vehicle_name.0.clone()),
    }
}

/// Groups one card's legs into journeys (at most four boardings within two hours of the first).
/// The card must have a leg.
pub fn split_into_journeys(card_id: CardID, legs: Vec<JourneyLeg>) -> (r: Vec<Journey>)
    requires
        legs@.len() > 0,
    ensures
        r@.len() == journeys_of_card(legs@).len(),
        forall|i: int|
            0 <= i < r@.len() ==> (#[trigger] r@[i]).legs@ == journeys_of_card(legs@)[i]
                && r@[i].card_id.0@ == card_id.0@,
        total_legs(r@) == legs@.len(),
{
    let ghost input = legs@;
    let sorted = stable_sort(legs);
    proof {
        stable_sorted_is_sorted_permutation(input, key_fn::<JourneyLeg>());
    }
    let ghost s = sorted@;
    let mut journeys: Vec<Journey> = Vec::new();
    let mut current: Vec<JourneyLeg> = Vec::new();
    current.push(copy_leg(&sorted[0]));
    let mut i: usize = 1;
    proof {
        assert(s.take(1) =~= seq![s[0]]);
        assert(current@ =~= seq![s[0]]);
    }
    while i < sorted.len()
        invariant
            s == sorted@,
            s.len() > 0,
            1 <= i <= s.len(),
            current@.len() > 0,
            group_journeys(s.take(i as int)).len() == journeys@.len() + 1,
            group_journeys(s.take(i as int)).last() == current@,
            forall|k: int|
                0 <= k < journeys@.len() ==> (#[trigger] journeys@[k]).legs@ == group_journeys(
                    s.take(i as int),
                )[k] && journeys@[k].card_id.0@ == card_id.0@,
        decreases s.len() - i,
    {
        let ghost g = group_journeys(s.take(i as int));
        proof {
            assert(s.take(i + 1).drop_last() =~= s.take(i as int));
            assert(s.take(i + 1).last() == s[i as int]);
        }
        let leg = copy_leg(&sorted[i]);
        let first_time = current[0].time;
        if current.len() < 4 && (leg.time.0 as i64) - (first_time.0 as i64) < 7_200_000 {
            current.push(leg);
            proof {
                let g2 = group_journeys(s.take(i + 1));
                assert(g2 == g.update(g.len() - 1, g.last().push(s[i as int])));
                assert forall|k: int| 0 <= k < journeys@.len() implies (#[trigger] journeys@[k]).legs@
                    == g2[k] && journeys@[k].card_id.0@ == card_id.0@ by {
                    assert(g2[k] == g[k]);
                }
            }
        } else {
            let mut done: Vec<JourneyLeg> = Vec::new();
            std::mem::swap(&mut done, &mut current);
            journeys.push(Journey { card_id: CardID(card_id.0.clone()), legs: done });
            current.push(leg);
            proof {
                let g2 = group_journeys(s.take(i + 1));
                assert(g2 == g.push(seq![s[i as int]]));
                assert(current@ =~= seq![s[i as int]]);
                assert forall|k: int| 0 <= k < journeys@.len() implies (#[trigger] journeys@[k]).legs@
                    == g2[k] && journeys@[k].card_id.0@ == card_id.0@ by {
                    assert(g2[k] == g[k]);
                }
            }
        }
        i += 1;
    }
    journeys.push(Journey { card_id: CardID(card_id.0.clone()), legs: current });
    proof {
        assert(s.take(i as int) =~= s);
        journeys_respect_window(s);
        total_legs_of_groups(journeys@, group_journeys(s));
    }
    journeys
}

/// One row of the ticketing file: a card tapped on a vehicle at a date and time.
pub struct TicketRecord {
    pub datetime: String,
    pub vehicle_name: VehicleName,
    pub route_short_name: String,
    pub card_id: CardID,
    /// Where the tap happened, as an index into the caller's table of positions.
    pub pos: usize,
}

/// The format of the ticketing dates and times.
pub open spec fn ticket_format() -> Seq<char> {
    "%d/%m/%Y %H:%M:%S"@
}

/// What `chrono` reads from a row's date and time.
pub open spec fn tap_of(r: TicketRecord) -> Option<(int, int, int, int)> {
    chrono_parse_datetime(r.datetime@, ticket_format())
}

/// When the tap of a row happened, counted from the start of day `main_day`: taps on another
/// day are taken to be on the next one.
pub open spec fn tap_ms(tap: (int, int, int, int), main_day: int) -> int {
    let next_day: int = if tap.0 == main_day {
        0
    } else {
        86_400_000
    };
    tap.1 * 3_600_000 + tap.2 * 60_000 + tap.3 * 1000 + next_day
}

/// The leg a row gives.
pub open spec fn leg_of(r: TicketRecord, main_day: int) -> JourneyLeg {
    JourneyLeg {
        time: Time(tap_ms(tap_of(r)->Some_0, main_day) as u32),
        pos: r.pos,
        route_short_name: r.route_short_name,
        vehicle_name: r.vehicle_name,
    }
}

/// The legs of the card named `card`, in row order.
pub open spec fn legs_of_card(records: Seq<TicketRecord>, main_day: int, card: Seq<char>) -> Seq<JourneyLeg>
    decreases records.len(),
{
    if records.len() == 0 {
        Seq::empty()
    } else if records.last().card_id.0@ == card {
        legs_of_card(records.drop_last(), main_day, card).push(leg_of(records.last(), main_day))
    } else {
        legs_of_card(records.drop_last(), main_day, card)
    }
}

/// A journey as its card's name and its legs.
pub open spec fn journey_view(j: Journey) -> (Seq<char>, Seq<JourneyLeg>) {
    (j.card_id.0@, j.legs@)
}

/// The journeys of each card in turn.
pub open spec fn journeys_from(per_card: Seq<(String, Vec<JourneyLeg>)>) -> Seq<(Seq<char>, Seq<JourneyLeg>)>
    decreases per_card.len(),
{
    if per_card.len() == 0 {
        Seq::empty()
    } else {
        journeys_from(per_card.drop_last()) + journeys_of_card(per_card.last().1@).map_values(
            |g: Seq<JourneyLeg>| (per_card.last().0@, g),
        )
    }
}

/// The journeys are those of the cards of the rows, card by card in increasing order of the
/// card's name, each card's legs in row order (as `per_card` lists them).
pub open spec fn split_by_card(
    per_card: Seq<(String, Vec<JourneyLeg>)>,
    records: Seq<TicketRecord>,
    main_day: int,
    journeys: Seq<Journey>,
) -> bool {
    &&& strictly_sorted(per_card)
    &&& forall|name: Seq<char>| #[trigger] list_at(per_card, name) == legs_of_card(records, main_day, name)
    &&& journeys.map_values(|j: Journey| journey_view(j)) == journeys_from(per_card)
}

/// Every row reads, the day is that of the first row, and the journeys are those of the
/// cards (see `split_by_card`).
pub open spec fn tickets_read(records: Seq<TicketRecord>, journeys: Seq<Journey>, day: Date) -> bool {
    &&& forall|i: int| 0 <= i < records.len() ==> (#[trigger] tap_of(records[i])) is Some
    &&& day.0 == tap_of(records[0])->Some_0.0
    &&& total_legs(journeys) == records.len()
    &&& exists|per_card: Seq<(String, Vec<JourneyLeg>)>| #[trigger] split_by_card(per_card, records, day.0 as int, journeys)
}

fn copy_vehicle_name(v: &VehicleName) -> (r: VehicleName)
    ensures
        r == *v,
{
    VehicleName(v.0.clone())
}

/// Reads the ticketing rows, assumed sorted by time: the day of the first row is the day
/// modelled, and taps on another day count as the next day. Each card's taps are split into
/// journeys; the journeys come card by card, in increasing order of card. Fails at the first
/// row whose date and time do not read as `%d/%m/%Y %H:%M:%S`. There must be a row.
pub fn load(records: Vec<TicketRecord>) -> (r: Result<(Vec<Journey>, Date), LoadError>)
    requires
        records@.len() > 0,
    ensures
        match r {
            Ok((journeys, day)) => tickets_read(records@, journeys@, day),
            Err(e) => exists|i: int|
                0 <= i < records@.len() && tap_of(records@[i]) is None && e == LoadError::BadDateTime(
                    records@[i].datetime,
                ) && forall|j: int| 0 <= j < i ==> (#[trigger] tap_of(records@[j])) is Some,
        },
{
    let mut per_card: Vec<(String, Vec<JourneyLeg>)> = Vec::new();
    let mut main_day: Date = Date(0);
    let mut i: usize = 0;
    while i < records.len()
        invariant
            i <= records@.len(),
            records@.len() > 0,
            i > 0 ==> tap_of(records@[0]) is Some && main_day.0 == tap_of(records@[0])->Some_0.0,
            forall|j: int| 0 <= j < i ==> (#[trigger] tap_of(records@[j])) is Some,
            strictly_sorted(per_card@),
            total_listed(per_card@) == i,
            forall|k: int| 0 <= k < per_card@.len() ==> (#[trigger] per_card@[k]).1@.len() > 0,
            forall|name: Seq<char>|
                #[trigger] list_at(per_card@, name) == legs_of_card(records@.take(i as int), main_day.0 as int, name),
        decreases records@.len() - i,
    {
        let r = &records[i];
        let (day, h, m, sec) = match parse_datetime_with(r.datetime.as_str(), "%d/%m/%Y %H:%M:%S") {
            Some(x) => x,
            None => {
                proof {
                    reveal_strlit("%d/%m/%Y %H:%M:%S");
                }
                return Err(LoadError::BadDateTime(r.datetime.clone()));
            },
        };
        proof {
            reveal_strlit("%d/%m/%Y %H:%M:%S");
        }
        if i == 0 {
            main_day = day;
            proof {
                assert forall|name: Seq<char>| #[trigger] list_at(per_card@, name) == legs_of_card(
                    records@.take(0),
                    day.0 as int,
                    name,
                ) by {
                    assert(records@.take(0) =~= Seq::<TicketRecord>::empty());
                }
            }
        }
        let next_day: u32 = if day.0 == main_day.0 { 0 } else { 86_400_000 };
        let ms: u32 = h * 3_600_000 + m * 60_000 + sec * 1000 + next_day;
        let leg = JourneyLeg {
            time: Time(ms),
            pos: r.pos,
            route_short_name: r.route_short_name.clone(),
            vehicle_name: copy_vehicle_name(&r.vehicle_name),
        };
        let ghost before = per_card@;
        proof {
            assert(leg == leg_of(records@[i as int], main_day.0 as int));
            assert(records@.take(i + 1).drop_last() =~= records@.take(i as int));
            assert(records@.take(i + 1).last() == records@[i as int]);
        }
        match search_sorted(&per_card, r.card_id.0.as_str()) {
            Ok(q) => {
                proof {
                    list_at_index(before, q as int);
                }
                per_card[q].1.push(leg);
                proof {
                    assert(per_card@ =~= before.update(q as int, per_card@[q as int]));
                    list_at_update(before, q as int, per_card@[q as int]);
                    total_listed_update(before, q as int, per_card@[q as int]);
                }
            },
            Err(q) => {
                let mut list: Vec<JourneyLeg> = Vec::new();
                list.push(leg);
                let entry = (r.card_id.0.clone(), list);
                proof {
                    list_at_insert(before, q as int, entry);
                    total_listed_insert(before, q as int, entry);
                    assert(entry.1@ =~= Seq::<JourneyLeg>::empty().push(leg));
                }
                per_card.insert(q, entry);
            },
        }
        i += 1;
    }
    proof {
        assert(records@.take(records@.len() as int) =~= records@);
    }
    let ghost all_cards = per_card@;
    let mut journeys: Vec<Journey> = Vec::new();
    for entry in it: per_card.into_iter()
        invariant
            it.seq() == all_cards,
            records@.len() > 0,
            forall|q: int| 0 <= q < all_cards.len() ==> (#[trigger] all_cards[q]).1@.len() > 0,
            strictly_sorted(all_cards),
            forall|name: Seq<char>| #[trigger] list_at(all_cards, name) == legs_of_card(records@, main_day.0 as int, name),
            tap_of(records@[0]) is Some && main_day.0 == tap_of(records@[0])->Some_0.0,
            forall|j: int| 0 <= j < records@.len() ==> (#[trigger] tap_of(records@[j])) is Some,
            journeys@.map_values(|j: Journey| journey_view(j)) == journeys_from(all_cards.take(it.index() as int)),
            total_listed(all_cards) == records@.len(),
            total_legs(journeys@) == total_listed(all_cards.take(it.index() as int)),
    {
        let ghost k = it.index();
        let (name, legs) = entry;
        proof {
            assert(legs@ == all_cards[k as int].1@);
        }
        let mut split = split_into_journeys(CardID(name), legs);
        let ghost before_journeys = journeys@;
        let ghost added = split@;
        journeys.append(&mut split);
        proof {
            let prev = all_cards.take(k as int);
            let next = all_cards.take(k + 1);
            assert(next.drop_last() =~= prev);
            assert(next.last() == all_cards[k as int]);
            assert(journeys@ =~= before_journeys + added);
            total_legs_append(before_journeys, added);
            assert(journeys@.map_values(|j: Journey| journey_view(j)) =~= journeys_from(next));
        }
    }
    proof {
        assert(all_cards.take(all_cards.len() as int) =~= all_cards);
        assert(split_by_card(all_cards, records@, main_day.0 as int, journeys@));
        assert(total_legs(journeys@) == records@.len());
        assert(tickets_read(records@, journeys@, main_day));
    }
    Ok((journeys, main_day))
}

} // verus!
