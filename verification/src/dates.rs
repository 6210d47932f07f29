use vstd::prelude::*;

verus! {

/// A calendar day, as its day number: day 1 is January 1 of year 1 in the proleptic Gregorian
/// calendar, the numbering of `chrono`'s `num_days_from_ce`. Later days have larger numbers.
#[derive(Clone, Copy, Debug, PartialEq, Eq, PartialOrd, Ord, Hash, Structural)]
pub struct Date(pub i32);

/// The day number `chrono` gives the date it parses from `text` with the strftime-style
/// `format`, or `None` when it rejects the text.
pub uninterp spec fn chrono_parse_date(text: Seq<char>, format: Seq<char>) -> Option<int>;

/// The weekday (0 for Monday through 6 for Sunday) that `chrono` gives a day number, or `None`
/// when the number lies outside its range of dates. `weekday_of` states which weekday it is.
pub uninterp spec fn chrono_weekday(day_number: int) -> Option<int>;

/// What `chrono` parses from `text` as a date and time with the given format: the day number,
/// hour, minute and second, or `None` when it rejects the text.
pub uninterp spec fn chrono_parse_datetime(text: Seq<char>, format: Seq<char>) -> Option<(int, int, int, int)>;

/// Calls `chrono::NaiveDate::parse_from_str` and returns the parsed date's
/// `num_days_from_ce`. Claims only that the result is the named value `chrono_parse_date`.
#[verifier::external_body]
pub(crate) fn parse_date_with(text: &str, format: &str) -> (r: Option<Date>)
    ensures
        match r {
            Some(d) => chrono_parse_date(text@, format@) == Some(d.0 as int),
            None => chrono_parse_date(text@, format@) == None::<int>,
        },
{
    match chrono::NaiveDate::parse_from_str(text, format) {
        Ok(d) => Some(Date(chrono::Datelike::num_days_from_ce(&d))),
        Err(_) => None,
    }
}

/// Calls `chrono::NaiveDate::from_num_days_from_ce_opt`, then `weekday` and
/// `num_days_from_monday` on the date. Claims that the result is the named value
/// `chrono_weekday` (whether a date exists depends on `chrono`'s range of dates) and, when there
/// is one, its weekday counted from Monday: day 1 is January 1 of year 1 of the proleptic
/// Gregorian calendar, a Monday, and weekdays repeat every seven days.
#[verifier::external_body]
pub(crate) fn weekday_of(day: Date) -> (r: Option<u32>)
    ensures
        match r {
            Some(w) => chrono_weekday(day.0 as int) == Some(w as int) && w < 7 && w == (day.0 - 1) % 7,
            None => chrono_weekday(day.0 as int) == None::<int>,
        },
{
    match chrono::NaiveDate::from_num_days_from_ce_opt(day.0) {
        Some(d) => Some(chrono::Datelike::weekday(&d).num_days_from_monday()),
        None => None,
    }
}

/// Calls `chrono::NaiveDateTime::parse_from_str` and returns the date's `num_days_from_ce` and
/// the time's `hour`, `minute` and `second`. Claims that the result is the named value
/// `chrono_parse_datetime` and, as `chrono` documents for those accessors, that the hour is
/// below 24 and the minute and second below 60.
#[verifier::external_body]
pub(crate) fn parse_datetime_with(text: &str, format: &str) -> (r: Option<(Date, u32, u32, u32)>)
    ensures
        match r {
            Some((d, h, m, s)) => {
                &&& chrono_parse_datetime(text@, format@) == Some(
                    (d.0 as int, h as int, m as int, s as int),
                )
                &&& h < 24 && m < 60 && s < 60
            },
            None => chrono_parse_datetime(text@, format@) == None::<(int, int, int, int)>,
        },
{
    match chrono::NaiveDateTime::parse_from_str(text, format) {
        Ok(dt) => Some((
            Date(chrono::Datelike::num_days_from_ce(&dt.date())),
            chrono::Timelike::hour(&dt.time()),
            chrono::Timelike::minute(&dt.time()),
            chrono::Timelike::second(&dt.time()),
        )),
        Err(_) => None,
    }
}

} // verus!
