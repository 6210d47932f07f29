use vstd::prelude::*;
use vstd::string::*;

use crate::dates::{chrono_parse_date, chrono_weekday, parse_date_with, weekday_of, Date};
use crate::error::LoadError;
use crate::text::{
    compare_text, gap_for, has_key, key_set, keyed_map, keyed_map_at, keyed_map_insert, keyed_map_update,
    search_sorted, strictly_sorted, TextKeyed, TextOrder,
};

verus! {

#[derive(Clone, Debug, PartialEq, Eq, PartialOrd, Ord, Hash)]
pub struct ServiceID(pub String);

impl TextKeyed for ServiceID {
    open spec fn key_text(&self) -> Seq<char> {
        self.0@
    }

    fn key_str(&self) -> (r: &str) {
        self.0.as_str()
    }
}

/// The days of the week a service runs.
#[derive(Clone, Copy, Debug, PartialEq, Eq, Structural)]
pub struct DaysOfWeek {
    pub monday: bool,
    pub tuesday: bool,
    pub wednesday: bool,
    pub thursday: bool,
    pub friday: bool,
    pub saturday: bool,
    pub sunday: bool,
}

/// Which days a query is about.
#[derive(Clone, Copy, Debug, PartialEq, Eq, Structural)]
pub enum DateFilter {
    Unfiltered,
    SingleDay(Date),
    Daily(DaysOfWeek),
}

/// A service pattern from `calendar.txt`, with the exceptions of `calendar_dates.txt`.
#[derive(Clone, Debug)]
pub struct Service {
    pub service_id: ServiceID,
    pub days_of_week: DaysOfWeek,
    pub start_date: Date,
    pub end_date: Date,
    /// Days the service runs besides its pattern, in increasing order.
    pub extra_days: Vec<Date>,
    /// Days the service does not run despite its pattern, in increasing order.
    pub removed_days: Vec<Date>,
}

impl TextKeyed for Service {
    open spec fn key_text(&self) -> Seq<char> {
        self.service_id.0@
    }

    fn key_str(&self) -> (r: &str) {
        self.service_id.0.as_str()
    }
}

/// What a service says, with its exception days as sets.
pub ghost struct ServiceView {
    pub id: Seq<char>,
    pub days: DaysOfWeek,
    pub start: Date,
    pub end: Date,
    pub extra: Set<Date>,
    pub removed: Set<Date>,
}

impl View for Service {
    type V = ServiceView;

    open spec fn view(&self) -> ServiceView {
        ServiceView {
            id: self.service_id.0@,
            days: self.days_of_week,
            start: self.start_date,
            end: self.end_date,
            extra: self.extra_days@.to_set(),
            removed: self.removed_days@.to_set(),
        }
    }
}

/// All services, sorted by their identifier's text (so no identifier occurs twice).
#[derive(Clone, Debug)]
pub struct Calendar {
    pub services: Vec<Service>,
}

pub open spec fn bit(b: bool) -> int {
    if b {
        1
    } else {
        0
    }
}

/// The number of weekdays (Monday to Friday) in `d`.
pub open spec fn weekday_count(d: DaysOfWeek) -> int {
    bit(d.monday) + bit(d.tuesday) + bit(d.wednesday) + bit(d.thursday) + bit(d.friday)
}

/// The number of weekend days in `d`.
pub open spec fn weekend_count(d: DaysOfWeek) -> int {
    bit(d.saturday) + bit(d.sunday)
}

pub open spec fn part(b: bool, text: Seq<char>) -> Seq<char> {
    if b {
        text
    } else {
        Seq::empty()
    }
}

/// How `DaysOfWeek::describe` reads a set of days.
pub open spec fn describe_days(d: DaysOfWeek) -> Seq<char> {
    if weekday_count(d) + weekend_count(d) == 7 {
        "every day"@
    } else if weekday_count(d) == 5 && weekend_count(d) == 0 {
        "weekdays"@
    } else if weekday_count(d) == 0 && weekend_count(d) == 2 {
        "weekends"@
    } else if weekday_count(d) == 0 && weekend_count(d) == 0 {
        "never?!"@
    } else {
        part(d.monday, "M"@) + part(d.tuesday, "T"@) + part(d.wednesday, "W"@) + part(
            d.thursday,
            "Th"@,
        ) + part(d.friday, "F"@) + part(d.saturday, "Sat"@) + part(d.sunday, "Sun"@)
    }
}

/// The flag of `d` for weekday `w` (0 is Monday).
pub open spec fn runs_on_weekday(d: DaysOfWeek, w: int) -> bool {
    if w == 0 {
        d.monday
    } else if w == 1 {
        d.tuesday
    } else if w == 2 {
        d.wednesday
    } else if w == 3 {
        d.thursday
    } else if w == 4 {
        d.friday
    } else if w == 5 {
        d.saturday
    } else {
        d.sunday
    }
}

/// Do two sets of days share a day?
pub open spec fn share_a_day(a: DaysOfWeek, b: DaysOfWeek) -> bool {
    (a.monday && b.monday) || (a.tuesday && b.tuesday) || (a.wednesday && b.wednesday) || (
    a.thursday && b.thursday) || (a.friday && b.friday) || (a.saturday && b.saturday) || (
    a.sunday && b.sunday)
}

/// Does a service with the given pattern run on `day`? Days whose weekday `chrono` cannot
/// tell do not count.
pub open spec fn includes_day(d: DaysOfWeek, day: Date) -> bool {
    match chrono_weekday(day.0 as int) {
        Some(w) => runs_on_weekday(d, w),
        None => false,
    }
}

/// Does a service match a date filter? Extra days win over removed days, which win over the
/// date range and the weekly pattern.
pub open spec fn service_matches(s: Service, filter: DateFilter) -> bool {
    match filter {
        DateFilter::Unfiltered => true,
        DateFilter::SingleDay(day) => if s.extra_days@.contains(day) {
            true
        } else if s.removed_days@.contains(day) {
            false
        } else if day.0 < s.start_date.0 || day.0 > s.end_date.0 {
            false
        } else {
            includes_day(s.days_of_week, day)
        },
        DateFilter::Daily(days) => share_a_day(s.days_of_week, days),
    }
}

/// Which services run on a single day: a service always runs on its extra days; on any other
/// day it never runs when the day is removed or lies outside its date range (before its start
/// date or after its end date), and within its range it runs exactly on the weekdays of its
/// pattern.
pub proof fn single_day_service(s: Service, day: Date)
    ensures
        s.extra_days@.contains(day) ==> service_matches(s, DateFilter::SingleDay(day)),
        !s.extra_days@.contains(day) && s.removed_days@.contains(day) ==> !service_matches(
            s,
            DateFilter::SingleDay(day),
        ),
        !s.extra_days@.contains(day) && day.0 < s.start_date.0 ==> !service_matches(s, DateFilter::SingleDay(day)),
        !s.extra_days@.contains(day) && s.end_date.0 < day.0 ==> !service_matches(s, DateFilter::SingleDay(day)),
        !s.extra_days@.contains(day) && !s.removed_days@.contains(day) && s.start_date.0 <= day.0 <= s.end_date.0
            ==> (service_matches(s, DateFilter::SingleDay(day)) <==> includes_day(s.days_of_week, day)),
{
}

impl DaysOfWeek {
    /// Every day of the week.
    pub fn all() -> (d: Self)
        ensures
            d.monday && d.tuesday && d.wednesday && d.thursday && d.friday && d.saturday
                && d.sunday,
    {
        DaysOfWeek {
            monday: true,
            tuesday: true,
            wednesday: true,
            thursday: true,
            friday: true,
            saturday: true,
            sunday: true,
        }
    }

    /// A short description: "every day", "weekdays", "weekends", "never?!", or the
    /// abbreviations of the days, such as "MWF".
    pub fn describe(&self) -> (r: String)
        ensures
            r@ == describe_days(*self),
    {
        let weekdays: u8 = (if self.monday { 1u8 } else { 0 }) + (if self.tuesday { 1u8 } else { 0 }) + (
        if self.wednesday { 1u8 } else { 0 }) + (if self.thursday { 1u8 } else { 0 }) + (
        if self.friday { 1u8 } else { 0 });
        let weekends: u8 = (if self.saturday { 1u8 } else { 0 }) + (if self.sunday { 1u8 } else { 0 });
        if weekdays + weekends == 7 {
            return String::from_str("every day");
        }
        if weekdays == 5 && weekends == 0 {
            return String::from_str("weekdays");
        }
        if weekdays == 0 && weekends == 2 {
            return String::from_str("weekends");
        }
        if weekdays == 0 && weekends == 0 {
            return String::from_str("never?!");
        }
        let mut result = String::new();
        if self.monday {
            result.append("M");
        }
        let ghost a = part(self.monday, "M"@);
        assert(result@ =~= a);
        if self.tuesday {
            result.append("T");
        }
        let ghost a = a + part(self.tuesday, "T"@);
        assert(result@ =~= a);
        if self.wednesday {
            result.append("W");
        }
        let ghost a = a + part(self.wednesday, "W"@);
        assert(result@ =~= a);
        if self.thursday {
            result.append("Th");
        }
        let ghost a = a + part(self.thursday, "Th"@);
        assert(result@ =~= a);
        if self.friday {
            result.append("F");
        }
        let ghost a = a + part(self.friday, "F"@);
        assert(result@ =~= a);
        if self.saturday {
            result.append("Sat");
        }
        let ghost a = a + part(self.saturday, "Sat"@);
        assert(result@ =~= a);
        if self.sunday {
            result.append("Sun");
        }
        let ghost a = a + part(self.sunday, "Sun"@);
        assert(result@ =~= a);
        result
    }

    /// Do the two sets of days share a day?
    pub fn overlaps(&self, other: &DaysOfWeek) -> (r: bool)
        ensures
            r == share_a_day(*self, *other),
    {
        (self.monday && other.monday) || (self.tuesday && other.tuesday) || (self.wednesday
            && other.wednesday) || (self.thursday && other.thursday) || (self.friday
            && other.friday) || (self.saturday && other.saturday) || (self.sunday
            && other.sunday)
    }

    /// Does the weekly pattern include the weekday of `day`?
    pub fn includes(&self, day: &Date) -> (r: bool)
        ensures
            r == includes_day(*self, *day),
    {
        match weekday_of(*day) {
            Some(w) => if w == 0 {
                self.monday
            } else if w == 1 {
                self.tuesday
            } else if w == 2 {
                self.wednesday
            } else if w == 3 {
                self.thursday
            } else if w == 4 {
                self.friday
            } else if w == 5 {
                self.saturday
            } else {
                self.sunday
            },
            None => false,
        }
    }
}

fn contains_date(days: &Vec<Date>, day: Date) -> (r: bool)
    ensures
        r == days@.contains(day),
{
    let mut i: usize = 0;
    while i < days.len()
        invariant
            i <= days.len(),
            forall|k: int| 0 <= k < i ==> days@[k] != day,
        decreases days.len() - i,
    {
        if days[i].0 == day.0 {
            assert(days@[i as int] == day);
            return true;
        }
        i += 1;
    }
    false
}

impl Service {
    /// Does the service run on the filtered days?
    pub fn matches_date(&self, filter: &DateFilter) -> (r: bool)
        ensures
            r == service_matches(*self, *filter),
    {
        match filter {
            DateFilter::Unfiltered => true,
            DateFilter::SingleDay(day) => {
                if contains_date(&self.extra_days, *day) {
                    return true;
                }
                if contains_date(&self.removed_days, *day) {
                    return false;
                }
                if day.0 < self.start_date.0 || day.0 > self.end_date.0 {
                    return false;
                }
                self.days_of_week.includes(day)
            },
            DateFilter::Daily(days_of_week) => self.days_of_week.overlaps(days_of_week),
        }
    }

    /// The description of the weekly pattern.
    pub fn describe_days(&self) -> (r: String)
        ensures
            r@ == describe_days(self.days_of_week),
    {
        self.days_of_week.describe()
    }
}

/// The days are in increasing order, so none repeats.
pub open spec fn dates_ascending(days: Seq<Date>) -> bool {
    forall|i: int, j: int| 0 <= i < j < days.len() ==> (#[trigger] days[i]).0 < (#[trigger] days[j]).0
}

impl Service {
    /// Each list of exception days is in increasing order.
    pub open spec fn wf(&self) -> bool {
        dates_ascending(self.extra_days@) && dates_ascending(self.removed_days@)
    }
}

impl Calendar {
    /// Services sorted by identifier, each with its exception days in increasing order.
    pub open spec fn wf(&self) -> bool {
        &&& strictly_sorted(self.services@)
        &&& forall|i: int| 0 <= i < self.services@.len() ==> (#[trigger] self.services@[i]).wf()
    }

    /// The services by identifier.
    pub open spec fn by_id(&self) -> Map<Seq<char>, Service> {
        keyed_map(self.services@)
    }

    /// What the calendar says, by service identifier.
    pub open spec fn view_by_id(&self) -> Map<Seq<char>, ServiceView> {
        self.by_id().map_values(|s: Service| s@)
    }

    pub fn new() -> (c: Calendar)
        ensures
            c.wf(),
            c.services@.len() == 0,
    {
        Calendar { services: Vec::new() }
    }

    /// The identifiers of the services that match the filter, in text order.
    pub fn services_matching_dates(&self, filter: &DateFilter) -> (r: Vec<ServiceID>)
        requires
            self.wf(),
        ensures
            strictly_sorted(r@),
            key_set(r@) == Set::new(
                |t: Seq<char>|
                    self.by_id().dom().contains(t) && service_matches(self.by_id()[t], *filter),
            ),
    {
        let mut result: Vec<ServiceID> = Vec::new();
        let mut i: usize = 0;
        while i < self.services.len()
            invariant
                self.wf(),
                i <= self.services.len(),
                strictly_sorted(result@),
                forall|k: int|
                    0 <= k < result@.len() ==> exists|j: int|
                        0 <= j < i && (#[trigger] result@[k]).key_text()
                            == self.services@[j].key_text(),
                forall|t: Seq<char>|
                    has_key(result@, t) <==> exists|j: int|
                        0 <= j < i && #[trigger] self.services@[j].key_text() == t
                            && service_matches(self.services@[j], *filter),
            decreases self.services.len() - i,
        {
            let service = &self.services[i];
            if service.matches_date(filter) {
                let ghost before = result@;
                let id = ServiceID(service.service_id.0.clone());
                proof {
                    assert forall|k: int| 0 <= k < before.len() implies crate::text::text_lt(
                        (#[trigger] before[k]).key_text(),
                        id.key_text(),
                    ) by {
                        let j = choose|j: int|
                            0 <= j < i && (#[trigger] before[k]).key_text()
                                == self.services@[j].key_text();
                    }
                }
                result.push(id);
                proof {
                    assert forall|t: Seq<char>|
                        has_key(result@, t) <==> exists|j: int|
                            0 <= j < i + 1 && #[trigger] self.services@[j].key_text() == t
                                && service_matches(self.services@[j], *filter) by {
                        if has_key(result@, t) {
                            let k = choose|k: int| 0 <= k < result@.len() && #[trigger] result@[k].key_text() == t;
                            if k < before.len() {
                                assert(before[k] == result@[k]);
                                assert(has_key(before, t));
                            } else {
                                assert(self.services@[i as int].key_text() == t);
                            }
                        }
                        if exists|j: int|
                            0 <= j < i + 1 && #[trigger] self.services@[j].key_text() == t
                                && service_matches(self.services@[j], *filter) {
                            let j = choose|j: int|
                                0 <= j < i + 1 && #[trigger] self.services@[j].key_text() == t
                                    && service_matches(self.services@[j], *filter);
                            if j < i {
                                assert(self.services@[j].key_text() == t && service_matches(self.services@[j], *filter));
                                assert(has_key(before, t));
                                let k = choose|k: int| 0 <= k < before.len() && #[trigger] before[k].key_text() == t;
                                assert(result@[k] == before[k]);
                            } else {
                                assert(result@[before.len() as int].key_text() == t);
                            }
                        }
                    }
                    assert forall|k: int|
                        0 <= k < result@.len() implies exists|j: int|
                            0 <= j < i + 1 && (#[trigger] result@[k]).key_text()
                                == self.services@[j].key_text() by {
                        if k < before.len() {
                            assert(before[k] == result@[k]);
                        } else {
                            assert(result@[k].key_text() == self.services@[i as int].key_text());
                        }
                    }
                }
            } else {
                proof {
                    assert forall|t: Seq<char>|
                        has_key(result@, t) <==> exists|j: int|
                            0 <= j < i + 1 && #[trigger] self.services@[j].key_text() == t
                                && service_matches(self.services@[j], *filter) by {
                        if exists|j: int|
                            0 <= j < i + 1 && #[trigger] self.services@[j].key_text() == t
                                && service_matches(self.services@[j], *filter) {
                            let j = choose|j: int|
                                0 <= j < i + 1 && #[trigger] self.services@[j].key_text() == t
                                    && service_matches(self.services@[j], *filter);
                            assert(j < i);
                        }
                    }
                }
            }
            i += 1;
        }
        proof {
            let target = Set::new(
                |t: Seq<char>|
                    self.by_id().dom().contains(t) && service_matches(self.by_id()[t], *filter),
            );
            assert forall|t: Seq<char>| key_set(result@).contains(t) <==> target.contains(t) by {
                if has_key(result@, t) {
                    let j = choose|j: int|
                        0 <= j < i && #[trigger] self.services@[j].key_text() == t
                            && service_matches(self.services@[j], *filter);
                    keyed_map_at(self.services@, j);
                }
                if target.contains(t) {
                    let j = choose|j: int| 0 <= j < self.services@.len() && #[trigger] self.services@[j].key_text() == t;
                    keyed_map_at(self.services@, j);
                }
            }
            assert(key_set(result@) =~= target);
        }
        result
    }
}

/// One row of `calendar.txt`; the weekday columns hold 0 or 1.
pub struct CalendarRecord {
    pub service_id: ServiceID,
    pub monday: u8,
    pub tuesday: u8,
    pub wednesday: u8,
    pub thursday: u8,
    pub friday: u8,
    pub saturday: u8,
    pub sunday: u8,
    pub start_date: String,
    pub end_date: String,
}

/// One row of `calendar_dates.txt`.
pub struct DateRecord {
    pub service_id: ServiceID,
    pub date: String,
    /// 1 adds the date to the service, 2 removes it.
    pub exception_type: u8,
}

/// The format of dates in the calendar files.
pub open spec fn gtfs_date_format() -> Seq<char> {
    "%Y%m%d"@
}

pub open spec fn flag_value(n: u8) -> Result<bool, LoadError> {
    if n == 1 {
        Ok(true)
    } else if n == 0 {
        Ok(false)
    } else {
        Err(LoadError::BadFlag(n))
    }
}

/// Reads a 0/1 column.
pub fn parse_bool(n: u8) -> (r: Result<bool, LoadError>)
    ensures
        r == flag_value(n),
{
    if n == 1 {
        return Ok(true);
    }
    if n == 0 {
        return Ok(false);
    }
    Err(LoadError::BadFlag(n))
}

/// The weekly pattern of a record, or the error of its first malformed weekday column.
pub open spec fn record_days(r: CalendarRecord) -> Result<DaysOfWeek, LoadError> {
    if flag_value(r.monday) is Err {
        Err(LoadError::BadFlag(r.monday))
    } else if flag_value(r.tuesday) is Err {
        Err(LoadError::BadFlag(r.tuesday))
    } else if flag_value(r.wednesday) is Err {
        Err(LoadError::BadFlag(r.wednesday))
    } else if flag_value(r.thursday) is Err {
        Err(LoadError::BadFlag(r.thursday))
    } else if flag_value(r.friday) is Err {
        Err(LoadError::BadFlag(r.friday))
    } else if flag_value(r.saturday) is Err {
        Err(LoadError::BadFlag(r.saturday))
    } else if flag_value(r.sunday) is Err {
        Err(LoadError::BadFlag(r.sunday))
    } else {
        Ok(
            DaysOfWeek {
                monday: r.monday == 1,
                tuesday: r.tuesday == 1,
                wednesday: r.wednesday == 1,
                thursday: r.thursday == 1,
                friday: r.friday == 1,
                saturday: r.saturday == 1,
                sunday: r.sunday == 1,
            },
        )
    }
}

/// Adds one record to the services read so far: its weekday columns must be flags, its
/// identifier new, and its dates readable.
pub open spec fn calendar_step(services: Map<Seq<char>, ServiceView>, r: CalendarRecord) -> Result<
    Map<Seq<char>, ServiceView>,
    LoadError,
> {
    match record_days(r) {
        Err(e) => Err(e),
        Ok(days) => if services.dom().contains(r.service_id.0@) {
            Err(LoadError::DuplicateService(r.service_id.0))
        } else {
            match chrono_parse_date(r.start_date@, gtfs_date_format()) {
                None => Err(LoadError::BadDate(r.start_date)),
                Some(start) => match chrono_parse_date(r.end_date@, gtfs_date_format()) {
                    None => Err(LoadError::BadDate(r.end_date)),
                    Some(end) => Ok(
                        services.insert(
                            r.service_id.0@,
                            ServiceView {
                                id: r.service_id.0@,
                                days,
                                start: Date(start as i32),
                                end: Date(end as i32),
                                extra: Set::empty(),
                                removed: Set::empty(),
                            },
                        ),
                    ),
                },
            }
        },
    }
}

/// The services of a sequence of `calendar.txt` rows, or the error of the first bad row.
pub open spec fn calendar_from(records: Seq<CalendarRecord>) -> Result<
    Map<Seq<char>, ServiceView>,
    LoadError,
>
    decreases records.len(),
{
    if records.len() == 0 {
        Ok(Map::empty())
    } else {
        match calendar_from(records.drop_last()) {
            Err(e) => Err(e),
            Ok(services) => calendar_step(services, records.last()),
        }
    }
}

fn record_days_of(r: &CalendarRecord) -> (d: Result<DaysOfWeek, LoadError>)
    ensures
        d == record_days(*r),
{
    let monday = parse_bool(r.monday)?;
    let tuesday = parse_bool(r.tuesday)?;
    let wednesday = parse_bool(r.wednesday)?;
    let thursday = parse_bool(r.thursday)?;
    let friday = parse_bool(r.friday)?;
    let saturday = parse_bool(r.saturday)?;
    let sunday = parse_bool(r.sunday)?;
    Ok(DaysOfWeek { monday, tuesday, wednesday, thursday, friday, saturday, sunday })
}

/// Builds the calendar from the rows of `calendar.txt`, in file order. Fails on a malformed
/// flag or date, or a repeated service identifier.
pub fn load(records: Vec<CalendarRecord>) -> (r: Result<Calendar, LoadError>)
    ensures
        match r {
            Ok(c) => c.wf() && calendar_from(records@) == Ok::<_, LoadError>(c.view_by_id()),
            Err(e) => calendar_from(records@) == Err::<Map<Seq<char>, ServiceView>, _>(e),
        },
{
    let mut calendar = Calendar::new();
    let mut i: usize = 0;
    proof {
        assert(records@.take(0) =~= Seq::<CalendarRecord>::empty());
        assert(calendar.view_by_id() =~= Map::empty());
    }
    while i < records.len()
        invariant
            i <= records.len(),
            calendar.wf(),
            calendar_from(records@.take(i as int)) == Ok::<_, LoadError>(calendar.view_by_id()),
        decreases records.len() - i,
    {
        let r = &records[i];
        proof {
            assert(records@.take(i + 1).drop_last() =~= records@.take(i as int));
        }
        let days = match record_days_of(r) {
            Ok(d) => d,
            Err(e) => {
                proof { prefix_error_stays(records@, i as int); }
                return Err(e);
            },
        };
        match search_sorted(&calendar.services, r.service_id.0.as_str()) {
            Ok(k) => {
                proof {
                    keyed_map_at(calendar.services@, k as int);
                    prefix_error_stays(records@, i as int);
                }
                return Err(LoadError::DuplicateService(r.service_id.0.clone()));
            },
            Err(k) => {
                let start = match parse_date_with(r.start_date.as_str(), "%Y%m%d") {
                    Some(d) => d,
                    None => {
                        proof {
                            if calendar.by_id().dom().contains(r.service_id.0@) {
                                let j = choose|j: int| 0 <= j < calendar.services@.len() && #[trigger] calendar.services@[j].key_text() == r.service_id.0@;
                            }
                            prefix_error_stays(records@, i as int);
                        }
                        return Err(LoadError::BadDate(r.start_date.clone()));
                    },
                };
                let end = match parse_date_with(r.end_date.as_str(), "%Y%m%d") {
                    Some(d) => d,
                    None => {
                        proof {
                            if calendar.by_id().dom().contains(r.service_id.0@) {
                                let j = choose|j: int| 0 <= j < calendar.services@.len() && #[trigger] calendar.services@[j].key_text() == r.service_id.0@;
                            }
                            prefix_error_stays(records@, i as int);
                        }
                        return Err(LoadError::BadDate(r.end_date.clone()));
                    },
                };
                let service = Service {
                    service_id: ServiceID(r.service_id.0.clone()),
                    days_of_week: days,
                    start_date: start,
                    end_date: end,
                    extra_days: Vec::new(),
                    removed_days: Vec::new(),
                };
                let ghost before = calendar.services@;
                proof {
                    keyed_map_insert(calendar.services@, service, k as int);
                }
                calendar.services.insert(k, service);
                proof {
                    if calendar.by_id().dom().contains(r.service_id.0@) {
                    }
                    assert(!keyed_map(before).dom().contains(r.service_id.0@));
                    assert(service@.extra =~= Set::<Date>::empty());
                    assert(service@.removed =~= Set::<Date>::empty());
                    assert(calendar.view_by_id() =~= keyed_map(before).map_values(|s: Service| s@).insert(r.service_id.0@, service@));
                }
            },
        }
        i += 1;
    }
    proof {
        assert(records@.take(i as int) =~= records@);
    }
    Ok(calendar)
}

/// Once a prefix of the records fails, every longer prefix fails the same way.
proof fn prefix_error_stays(records: Seq<CalendarRecord>, i: int)
    requires
        0 <= i < records.len(),
    ensures
        calendar_from(records.take(i + 1)) is Err ==> calendar_from(records) == calendar_from(
            records.take(i + 1),
        ),
{
    if calendar_from(records.take(i + 1)) is Err {
        error_persists(records, i + 1, records.len() as int);
        assert(records.take(records.len() as int) =~= records);
    }
}

proof fn error_persists(records: Seq<CalendarRecord>, i: int, j: int)
    requires
        0 <= i <= j <= records.len(),
        calendar_from(records.take(i)) is Err,
    ensures
        calendar_from(records.take(j)) == calendar_from(records.take(i)),
    decreases j - i,
{
    if j > i {
        error_persists(records, i, j - 1);
        assert(records.take(j).drop_last() =~= records.take(j - 1));
    }
}

/// Applies one row of `calendar_dates.txt`. Rows for unknown services are skipped (before
/// their date is read); otherwise the date must be readable and the exception type 1 or 2.
pub open spec fn exception_step(services: Map<Seq<char>, ServiceView>, r: DateRecord) -> Result<
    Map<Seq<char>, ServiceView>,
    LoadError,
> {
    let id = r.service_id.0@;
    if !services.dom().contains(id) {
        Ok(services)
    } else {
        match chrono_parse_date(r.date@, gtfs_date_format()) {
            None => Err(LoadError::BadDate(r.date)),
            Some(d) => {
                let sv = services[id];
                if r.exception_type == 1 {
                    Ok(services.insert(id, ServiceView { extra: sv.extra.insert(Date(d as i32)), ..sv }))
                } else if r.exception_type == 2 {
                    Ok(
                        services.insert(
                            id,
                            ServiceView { removed: sv.removed.insert(Date(d as i32)), ..sv },
                        ),
                    )
                } else {
                    Err(LoadError::UnknownExceptionType(r.exception_type))
                }
            },
        }
    }
}

/// The services after applying the rows in order, and the error that stopped the rows, if any.
/// Rows before a failing row stay applied.
pub open spec fn apply_exceptions(services: Map<Seq<char>, ServiceView>, records: Seq<DateRecord>) -> (
    Map<Seq<char>, ServiceView>,
    Option<LoadError>,
)
    decreases records.len(),
{
    if records.len() == 0 {
        (services, None)
    } else {
        let (m, e) = apply_exceptions(services, records.drop_last());
        if e is Some {
            (m, e)
        } else {
            match exception_step(m, records.last()) {
                Ok(m2) => (m2, None),
                Err(err) => (m, Some(err)),
            }
        }
    }
}

/// Adds `day` to days in increasing order, where it belongs, unless it is there already.
fn add_date(days: &mut Vec<Date>, day: Date)
    requires
        dates_ascending(old(days)@),
    ensures
        dates_ascending(final(days)@),
        final(days)@.to_set() == old(days)@.to_set().insert(day),
{
    let mut p: usize = 0;
    while p < days.len() && days[p].0 < day.0
        invariant
            days@ == old(days)@,
            p <= days@.len(),
            forall|k: int| 0 <= k < p ==> (#[trigger] days@[k]).0 < day.0,
        decreases days@.len() - p,
    {
        p += 1;
    }
    if p < days.len() && days[p].0 == day.0 {
        assert(days@[p as int] == day);
        assert(old(days)@.to_set().insert(day) =~= old(days)@.to_set());
        return;
    }
    let ghost before = days@;
    assert(before == old(days)@);
    days.insert(p, day);
    assert(days@ == before.insert(p as int, day));
    assert forall|i: int, j: int| 0 <= i < j < days@.len() implies (#[trigger] days@[i]).0 < (#[trigger] days@[j]).0 by {
        if j < p {
            assert(days@[i] == before[i] && days@[j] == before[j]);
        } else if j == p {
            assert(days@[i] == before[i]);
        } else if i == p {
            assert(days@[j] == before[j - 1]);
            if j - 1 > p {
                assert(before[p as int].0 < before[j - 1].0);
            }
        } else if i < p {
            assert(days@[i] == before[i] && days@[j] == before[j - 1]);
        } else {
            assert(days@[i] == before[i - 1] && days@[j] == before[j - 1]);
        }
    }
    assert forall|x: Date| days@.contains(x) <==> before.contains(x) || x == day by {
        if days@.contains(x) {
            let k = choose|k: int| 0 <= k < days@.len() && days@[k] == x;
            if k < p {
                assert(before[k] == x);
            } else if k > p {
                assert(before[k - 1] == x);
            }
        }
        if before.contains(x) {
            let k = choose|k: int| 0 <= k < before.len() && before[k] == x;
            if k < p {
                assert(days@[k] == x);
            } else {
                assert(days@[k + 1] == x);
            }
        }
        if x == day {
            assert(days@[p as int] == x);
        }
    }
    assert forall|x: Date| #[trigger] days@.to_set().contains(x) == old(days)@.to_set().insert(day).contains(x) by {
        assert(days@.contains(x) <==> before.contains(x) || x == day);
    }
    assert(days@.to_set() =~= old(days)@.to_set().insert(day));
}

/// Applies the rows of `calendar_dates.txt` to the calendar, in file order, stopping at the
/// first row with an unreadable date or an unknown exception type.
pub fn load_exceptions(calendar: &mut Calendar, records: Vec<DateRecord>) -> (r: Result<(), LoadError>)
    requires
        old(calendar).wf(),
    ensures
        final(calendar).wf(),
        apply_exceptions(old(calendar).view_by_id(), records@) == (
            final(calendar).view_by_id(),
            match r {
                Ok(_) => None::<LoadError>,
                Err(e) => Some(e),
            },
        ),
{
    let mut i: usize = 0;
    proof {
        assert(records@.take(0) =~= Seq::<DateRecord>::empty());
    }
    while i < records.len()
        invariant
            i <= records.len(),
            calendar.wf(),
            apply_exceptions(old(calendar).view_by_id(), records@.take(i as int)) == (
                calendar.view_by_id(),
                None::<LoadError>,
            ),
        decreases records.len() - i,
    {
        let r = &records[i];
        proof {
            assert(records@.take(i + 1).drop_last() =~= records@.take(i as int));
        }
        let k = match search_sorted(&calendar.services, r.service_id.0.as_str()) {
            Ok(k) => k,
            Err(_) => {
                // An exception for a service the calendar does not have.
                i += 1;
                continue;
            },
        };
        proof {
            keyed_map_at(calendar.services@, k as int);
        }
        let date = match parse_date_with(r.date.as_str(), "%Y%m%d") {
            Some(d) => d,
            None => {
                proof {
                    exceptions_stop(old(calendar).view_by_id(), records@, i as int);
                }
                return Err(LoadError::BadDate(r.date.clone()));
            },
        };
        if r.exception_type != 1 && r.exception_type != 2 {
            proof {
                exceptions_stop(old(calendar).view_by_id(), records@, i as int);
            }
            return Err(LoadError::UnknownExceptionType(r.exception_type));
        }
        let ghost before = calendar.services@;
        let mut service = calendar.services.remove(k);
        if r.exception_type == 1 {
            add_date(&mut service.extra_days, date);
        } else {
            add_date(&mut service.removed_days, date);
        }
        proof {
            keyed_map_update(before, k as int, service);
        }
        calendar.services.insert(k, service);
        proof {
            assert(calendar.services@ =~= before.update(k as int, service));
            let id = r.service_id.0@;
            assert(calendar.view_by_id() =~= keyed_map(before).map_values(|s: Service| s@).insert(
                id,
                service@,
            ));
        }
        i += 1;
    }
    proof {
        assert(records@.take(i as int) =~= records@);
    }
    Ok(())
}

/// When row `i` fails, the whole sequence stops there with the same state and error.
proof fn exceptions_stop(start: Map<Seq<char>, ServiceView>, records: Seq<DateRecord>, i: int)
    requires
        0 <= i < records.len(),
        apply_exceptions(start, records.take(i + 1)).1 is Some,
    ensures
        apply_exceptions(start, records) == apply_exceptions(start, records.take(i + 1)),
{
    exceptions_stop_at(start, records, i + 1, records.len() as int);
    assert(records.take(records.len() as int) =~= records);
}

proof fn exceptions_stop_at(start: Map<Seq<char>, ServiceView>, records: Seq<DateRecord>, i: int, j: int)
    requires
        0 <= i <= j <= records.len(),
        apply_exceptions(start, records.take(i)).1 is Some,
    ensures
        apply_exceptions(start, records.take(j)) == apply_exceptions(start, records.take(i)),
    decreases j - i,
{
    if j > i {
        exceptions_stop_at(start, records, i, j - 1);
        assert(records.take(j).drop_last() =~= records.take(j - 1));
    }
}

} // verus!
