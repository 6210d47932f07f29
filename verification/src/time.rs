use vstd::prelude::*;
use vstd::string::*;

verus! {

/// A moment of a service day, in milliseconds since midnight. Schedules may run past 24:00.
#[derive(Clone, Copy, Debug, PartialEq, Eq, PartialOrd, Ord, Hash, Structural)]
pub struct Time(pub u32);

/// A signed span between two times, in milliseconds.
#[derive(Clone, Copy, Debug, PartialEq, Eq, PartialOrd, Ord, Hash, Structural)]
pub struct Duration(pub i64);

impl Time {
    pub open spec fn ms(self) -> int {
        self.0 as int
    }

    /// Midnight, the start of the service day.
    pub fn start_of_day() -> (t: Time)
        ensures
            t.ms() == 0,
    {
        Time(0)
    }

    /// Whole hours, minutes and seconds since midnight; `None` when the total does not fit.
    pub fn from_hms(hours: u32, minutes: u32, seconds: u32) -> (t: Option<Time>)
        ensures
            t is Some <==> (hours * 3600 + minutes * 60 + seconds) * 1000 <= u32::MAX,
            t matches Some(v) ==> v.ms() == (hours * 3600 + minutes * 60 + seconds) * 1000,
    {
        let total: u64 = (hours as u64) * 3600 + (minutes as u64) * 60 + (seconds as u64);
        if total > 4294967 {
            assert(total * 1000 > u32::MAX);
            return None;
        }
        let ms: u64 = total * 1000;
        if ms > 4294967295 {
            None
        } else {
            Some(Time(ms as u32))
        }
    }

    /// The span from `earlier` to `self`.
    pub fn since(self, earlier: Time) -> (d: Duration)
        ensures
            d.0 == self.ms() - earlier.ms(),
    {
        Duration(self.0 as i64 - earlier.0 as i64)
    }
}

impl Duration {
    /// The absolute length of this span.
    pub fn abs(self) -> (d: Duration)
        requires
            self.0 > i64::MIN,
        ensures
            d.0 == if self.0 < 0 { -self.0 } else { self.0 as int },
    {
        if self.0 < 0 {
            Duration(-self.0)
        } else {
            self
        }
    }
}

/// A decimal digit.
pub open spec fn is_digit(c: char) -> bool {
    '0' <= c && c <= '9'
}

/// Nonempty, and only digits.
pub open spec fn all_digits(s: Seq<char>) -> bool {
    s.len() > 0 && forall|i: int| 0 <= i < s.len() ==> is_digit(#[trigger] s[i])
}

/// The number written in decimal digits.
pub open spec fn digits_value(s: Seq<char>) -> nat
    decreases s.len(),
{
    if s.len() == 0 {
        0
    } else {
        digits_value(s.drop_last()) * 10 + ((s.last() as int - '0' as int) as nat)
    }
}

/// `s` is hours, minutes and seconds in digits, with the colons at `a` and `b`.
pub open spec fn hms_at(s: Seq<char>, a: int, b: int) -> bool {
    &&& 0 < a && a + 1 < b && b + 1 < s.len()
    &&& s[a] == ':' && s[b] == ':'
    &&& all_digits(s.subrange(0, a))
    &&& all_digits(s.subrange(a + 1, b))
    &&& all_digits(s.subrange(b + 1, s.len() as int))
}

/// The milliseconds written as hours, minutes and seconds with colons at `a` and `b`.
pub open spec fn hms_ms(s: Seq<char>, a: int, b: int) -> int {
    ((digits_value(s.subrange(0, a)) * 3600 + digits_value(s.subrange(a + 1, b)) * 60 + digits_value(
        s.subrange(b + 1, s.len() as int),
    )) * 1000) as int
}

/// The time a schedule writes as "H:MM:SS": hours (possibly past 24), minutes and seconds below
/// 60, in digits; `None` for anything else, or a time past what fits.
pub open spec fn parsed_time(s: Seq<char>) -> Option<Time> {
    if exists|a: int, b: int|
        hms_at(s, a, b) && digits_value(s.subrange(a + 1, b)) < 60 && digits_value(
            s.subrange(b + 1, s.len() as int),
        ) < 60 && hms_ms(s, a, b) <= u32::MAX {
        let (a, b) = choose|a: int, b: int|
            hms_at(s, a, b) && digits_value(s.subrange(a + 1, b)) < 60 && digits_value(
                s.subrange(b + 1, s.len() as int),
            ) < 60 && hms_ms(s, a, b) <= u32::MAX;
        Some(Time(hms_ms(s, a, b) as u32))
    } else {
        None
    }
}

/// The colons of a time are where its digits stop.
proof fn hms_at_unique(s: Seq<char>, a: int, b: int, c: int, d: int)
    requires
        hms_at(s, a, b),
        hms_at(s, c, d),
    ensures
        a == c && b == d,
{
    if a < c {
        assert(s.subrange(0, c)[a] == s[a]);
    } else if c < a {
        assert(s.subrange(0, a)[c] == s[c]);
    }
    if b < d {
        assert(s.subrange(a + 1, d)[b - a - 1] == s[b]);
    } else if d < b {
        assert(s.subrange(a + 1, b)[d - a - 1] == s[d]);
    }
}

/// Is character `i` of `s` a digit?
fn digit_at(s: &str, i: usize) -> (r: bool)
    requires
        i < s@.len(),
    ensures
        r == is_digit(s@[i as int]),
{
    let c = s.get_char(i);
    '0' <= c && c <= '9'
}

/// Reads digits of `s` from `start` up to the first non-digit: where they stop, and their value,
/// or `None` when the value passes ten million.
fn read_digits(s: &str, start: usize) -> (r: (usize, Option<u32>))
    requires
        start <= s@.len(),
    ensures
        start <= r.0 <= s@.len(),
        forall|i: int| start <= i < r.0 ==> is_digit(#[trigger] s@[i]),
        r.0 < s@.len() ==> !is_digit(s@[r.0 as int]),
        match r.1 {
            Some(v) => v == digits_value(s@.subrange(start as int, r.0 as int)) && v <= 10_000_000,
            None => digits_value(s@.subrange(start as int, r.0 as int)) > 10_000_000,
        },
{
    let n = s.unicode_len();
    let mut i = start;
    let mut value: u32 = 0;
    let mut big = false;
    while i < n && digit_at(s, i)
        invariant
            n == s@.len(),
            start <= i <= n,
            forall|k: int| start <= k < i ==> is_digit(#[trigger] s@[k]),
            !big ==> value == digits_value(s@.subrange(start as int, i as int)) && value <= 10_000_000,
            big ==> digits_value(s@.subrange(start as int, i as int)) > 10_000_000,
        decreases n - i,
    {
        let c = s.get_char(i);
        let ghost prefix = s@.subrange(start as int, i as int);
        let ghost next = s@.subrange(start as int, i + 1);
        proof {
            assert(next.drop_last() =~= prefix);
            assert(next.last() == c);
        }
        if !big {
            let d = (c as u32) - ('0' as u32);
            let v: u64 = (value as u64) * 10 + (d as u64);
            if v > 10_000_000 {
                big = true;
            } else {
                value = v as u32;
            }
        }
        i += 1;
    }
    if big {
        (i, None)
    } else {
        (i, Some(value))
    }
}

/// A run of digits from `start` that stops at `stop` ends at the first colon after `start`.
proof fn run_ends_at_colon(s: Seq<char>, start: int, stop: int, c: int)
    requires
        0 <= start <= stop <= s.len(),
        forall|i: int| start <= i < stop ==> is_digit(#[trigger] s[i]),
        stop < s.len() ==> !is_digit(s[stop]),
        start <= c < s.len(),
        s[c] == ':',
        all_digits(s.subrange(start, c)),
    ensures
        c == stop,
{
    if c < stop {
        assert(is_digit(s[c]));
    }
    if c > stop {
        assert(s.subrange(start, c)[stop - start] == s[stop]);
    }
}

/// A run of digits from `start` that stops at `stop` ends the text when all the rest is digits.
proof fn run_ends_text(s: Seq<char>, start: int, stop: int)
    requires
        0 <= start <= stop <= s.len(),
        stop < s.len() ==> !is_digit(s[stop]),
        all_digits(s.subrange(start, s.len() as int)),
    ensures
        stop == s.len(),
{
    if stop < s.len() {
        assert(s.subrange(start, s.len() as int)[stop - start] == s[stop]);
    }
}

impl Time {
    /// Reads a time written "H:MM:SS", as schedules write it: hours may pass 24.
    pub fn parse(s: &str) -> (t: Option<Time>)
        ensures
            t == parsed_time(s@),
    {
        let n = s.unicode_len();
        let (a, hours) = read_digits(s, 0);
        if a == 0 || a >= n || s.get_char(a) != ':' {
            proof {
                assert forall|c: int, d: int| !hms_at(s@, c, d) by {
                    if hms_at(s@, c, d) {
                        run_ends_at_colon(s@, 0, a as int, c);
                    }
                }
            }
            return None;
        }
        let (b, minutes) = read_digits(s, a + 1);
        if b == a + 1 || b >= n || s.get_char(b) != ':' {
            proof {
                assert forall|c: int, d: int| !hms_at(s@, c, d) by {
                    if hms_at(s@, c, d) {
                        run_ends_at_colon(s@, 0, a as int, c);
                        run_ends_at_colon(s@, a + 1, b as int, d);
                    }
                }
            }
            return None;
        }
        let (c, seconds) = read_digits(s, b + 1);
        if c == b + 1 || c != n {
            proof {
                assert forall|x: int, y: int| !hms_at(s@, x, y) by {
                    if hms_at(s@, x, y) {
                        run_ends_at_colon(s@, 0, a as int, x);
                        run_ends_at_colon(s@, a + 1, b as int, y);
                        run_ends_text(s@, b + 1, c as int);
                    }
                }
            }
            return None;
        }
        proof {
            assert(all_digits(s@.subrange(0, a as int)));
            assert(all_digits(s@.subrange(a + 1, b as int)));
            assert(all_digits(s@.subrange(b + 1, n as int)));
            assert(hms_at(s@, a as int, b as int));
            only_colons(s@, a as int, b as int);
        }
        match (hours, minutes, seconds) {
            (Some(h), Some(m), Some(sec)) => {
                if m >= 60 || sec >= 60 {
                    return None;
                }
                let total: u64 = ((h as u64) * 3600 + (m as u64) * 60 + (sec as u64)) * 1000;
                assert(total == hms_ms(s@, a as int, b as int));
                if total > 4294967295 {
                    return None;
                }
                Some(Time(total as u32))
            },
            _ => {
                None
            },
        }
    }
}

/// When `s` has hours, minutes and seconds with colons at `a` and `b`, these are its only colons.
proof fn only_colons(s: Seq<char>, a: int, b: int)
    requires
        hms_at(s, a, b),
    ensures
        forall|c: int, d: int| #[trigger] hms_at(s, c, d) ==> c == a && d == b,
{
    assert forall|c: int, d: int| #[trigger] hms_at(s, c, d) implies c == a && d == b by {
        hms_at_unique(s, a, b, c, d);
    }
}

} // verus!
