use vstd::prelude::*;
use vstd::string::StringSliceAdditionalSpecFns;

verus! {

/// The largest number of minutes since midnight that a `Time` can hold:
/// the last minute of the largest representable hour.
pub const MAX_MINUTES: u64 = 257698037759;

/// The campus a meeting takes place on.
#[derive(Clone, Copy, Debug, PartialEq, Eq, Structural)]
pub enum Campus {
    North,
    Centennial,
}

/// A weekday on which a section can meet.
#[derive(Clone, Copy, Debug, PartialEq, Eq, Structural)]
pub enum Day {
    Mon,
    Tue,
    Wed,
    Thu,
    Fri,
}

impl Day {
    /// Two days overlap exactly when they are the same day.
    pub fn overlap(&self, other: &Day) -> (r: bool)
        ensures
            r == (*self == *other),
    {
        *self == *other
    }
}

/// A time of day. The fields are not range checked; the order is by hour,
/// then by minute.
#[derive(Clone, Copy, Debug, PartialEq, Eq, Structural)]
pub struct Time {
    pub hour: u32,
    pub minute: u32,
}

/// Minutes clamped to what a `Time` can hold.
pub open spec fn clamp_minutes(m: int) -> int {
    if m < 0 {
        0
    } else if m > MAX_MINUTES {
        MAX_MINUTES as int
    } else {
        m
    }
}

impl Time {
    /// Minutes since midnight.
    pub open spec fn minutes(self) -> int {
        self.hour * 60 + self.minute
    }

    /// The order on times: by hour, then by minute.
    pub open spec fn le(self, other: Time) -> bool {
        self.hour < other.hour || (self.hour == other.hour && self.minute <= other.minute)
    }

    pub open spec fn cmp_spec(self, other: Time) -> core::cmp::Ordering {
        if self.hour > other.hour {
            core::cmp::Ordering::Greater
        } else if self.hour < other.hour {
            core::cmp::Ordering::Less
        } else if self.minute > other.minute {
            core::cmp::Ordering::Greater
        } else if self.minute < other.minute {
            core::cmp::Ordering::Less
        } else {
            core::cmp::Ordering::Equal
        }
    }

    /// The normalised time that lies `m` minutes after midnight.
    pub open spec fn from_minutes(m: int) -> Time {
        Time { hour: (m / 60) as u32, minute: (m % 60) as u32 }
    }

    /// This time moved by `delta` minutes, clamped at midnight below and at
    /// `MAX_MINUTES` above.
    pub open spec fn shifted(self, delta: int) -> Time {
        Time::from_minutes(clamp_minutes(self.minutes() + delta))
    }

    /// A time is normalised when its minute is below 60.
    pub open spec fn normalized(self) -> bool {
        self.minute < 60
    }

    pub fn into_min(&self) -> (r: u64)
        ensures
            r == self.minutes(),
    {
        self.hour as u64 * 60 + self.minute as u64
    }

    pub fn from_min(min: u64) -> (r: Time)
        requires
            min <= MAX_MINUTES,
        ensures
            r == Time::from_minutes(min as int),
            r.normalized(),
            r.minutes() == min,
    {
        Time { hour: (min / 60) as u32, minute: (min % 60) as u32 }
    }

    fn from_min_clamped(m: u64) -> (r: Time)
        ensures
            r == Time::from_minutes(clamp_minutes(m as int)),
    {
        if m > MAX_MINUTES {
            Time::from_min(MAX_MINUTES)
        } else {
            Time::from_min(m)
        }
    }

    /// This time `d` minutes later, held at `MAX_MINUTES`.
    pub fn add_minutes(self, d: u32) -> (r: Time)
        ensures
            r == self.shifted(d as int),
    {
        Time::from_min_clamped(self.into_min() + d as u64)
    }

    /// This time `d` minutes earlier, held at midnight.
    pub fn sub_minutes(self, d: u32) -> (r: Time)
        ensures
            r == self.shifted(-(d as int)),
    {
        let m = self.into_min();
        if m < d as u64 {
            Time::from_min(0)
        } else {
            Time::from_min_clamped(m - d as u64)
        }
    }

    /// Compares by hour, then by minute.
    pub fn cmp(&self, other: &Time) -> (r: core::cmp::Ordering)
        ensures
            r == self.cmp_spec(*other),
    {
        if self.hour > other.hour {
            core::cmp::Ordering::Greater
        } else if self.hour < other.hour {
            core::cmp::Ordering::Less
        } else {
            if self.minute > other.minute {
                core::cmp::Ordering::Greater
            } else if self.minute < other.minute {
                core::cmp::Ordering::Less
            } else {
                core::cmp::Ordering::Equal
            }
        }
    }

    /// `self` comes no later than `other`.
    pub fn is_le(&self, other: &Time) -> (r: bool)
        ensures
            r == self.le(*other),
    {
        match self.cmp(other) {
            core::cmp::Ordering::Greater => false,
            _ => true,
        }
    }
}

/// The byte is an ASCII decimal digit.
pub open spec fn is_digit(b: u8) -> bool {
    48 <= b <= 57
}

/// The number that two ASCII digits spell.
pub open spec fn two_digits(hi: u8, lo: u8) -> u32 {
    ((hi - 48) * 10 + (lo - 48)) as u32
}

/// The time that the last five bytes of `b` spell as `HH:MM`, if they do.
pub open spec fn parse_hhmm(b: Seq<u8>) -> Option<Time> {
    let n = b.len() as int;
    if n >= 5 && is_digit(b[n - 5]) && is_digit(b[n - 4]) && b[n - 3] == 58 && is_digit(b[n - 2])
        && is_digit(b[n - 1]) {
        Some(Time { hour: two_digits(b[n - 5], b[n - 4]), minute: two_digits(b[n - 2], b[n - 1]) })
    } else {
        None
    }
}

/// The time that the last five characters of `s` spell as `HH:MM`, if they
/// do.
pub open spec fn parse_time_text(s: Seq<char>) -> Option<Time> {
    parse_hhmm(vstd::utf8::encode_utf8(s))
}

impl Time {
    /// Reads the time from the last five characters of `s`, which must be
    /// `HH:MM`. Hours and minutes are not range checked.
    pub fn from_str(s: &str) -> (r: Result<Time, ()>)
        ensures
            match r {
                Ok(t) => parse_time_text(s@) == Some(t),
                Err(_) => parse_time_text(s@) is None,
            },
    {
        let b = s.as_bytes();
        let n = b.len();
        if n < 5 {
            return Err(());
        }
        let (h1, h0, sep, m1, m0) = (b[n - 5], b[n - 4], b[n - 3], b[n - 2], b[n - 1]);
        if 48 <= h1 && h1 <= 57 && 48 <= h0 && h0 <= 57 && sep == 58 && 48 <= m1 && m1 <= 57
            && 48 <= m0 && m0 <= 57 {
            let hour = ((h1 - 48) as u32) * 10 + (h0 - 48) as u32;
            let minute = ((m1 - 48) as u32) * 10 + (m0 - 48) as u32;
            Ok(Time { hour, minute })
        } else {
            Err(())
        }
    }
}

/// A closed interval of time within one day.
#[derive(Clone, Copy, Debug, PartialEq, Eq, Structural)]
pub struct TimeRange {
    pub start: Time,
    pub end: Time,
}

impl TimeRange {
    /// Closed intervals overlap; touching end points count.
    pub open spec fn overlaps(self, other: TimeRange) -> bool {
        self.start.le(other.end) && other.start.le(self.end)
    }

    pub fn overlap(&self, other: &TimeRange) -> (r: bool)
        ensures
            r == self.overlaps(*other),
    {
        self.start.is_le(&other.end) && other.start.is_le(&self.end)
    }

    /// The length of the range in minutes.
    pub fn len(&self) -> (r: u64)
        requires
            self.start.minutes() <= self.end.minutes(),
        ensures
            r == self.end.minutes() - self.start.minutes(),
    {
        self.end.into_min() - self.start.into_min()
    }
}

/// One weekly meeting of a section.
#[derive(Clone, Copy, Debug, PartialEq, Eq, Structural)]
pub struct DayTime {
    pub meet_day: Day,
    pub time: TimeRange,
    pub campus: Campus,
}

impl DayTime {
    /// Two meetings clash when they fall on one day, at overlapping times, on
    /// one campus.
    pub open spec fn overlaps(self, other: DayTime) -> bool {
        self.meet_day == other.meet_day && self.time.overlaps(other.time) && self.campus
            == other.campus
    }

    pub fn overlap(&self, other: &DayTime) -> (r: bool)
        ensures
            r == self.overlaps(*other),
    {
        self.meet_day.overlap(&other.meet_day) && self.time.overlap(&other.time) && self.campus
            == other.campus
    }
}

} // verus!

verus! {

/// Overlap of time ranges does not depend on the order of the two ranges.
pub proof fn lemma_overlap_symmetric(a: TimeRange, b: TimeRange)
    ensures
        a.overlaps(b) == b.overlaps(a),
{
}

/// A range whose start comes no later than its end overlaps itself.
pub proof fn lemma_overlap_reflexive(a: TimeRange)
    requires
        a.start.le(a.end),
    ensures
        a.overlaps(a),
{
}

/// On normalised times the order by hour and minute is the order by minutes
/// since midnight.
pub proof fn lemma_le_by_minutes(t: Time, u: Time)
    requires
        t.normalized(),
        u.normalized(),
    ensures
        t.le(u) == (t.minutes() <= u.minutes()),
{
    assert(t.le(u) == (t.minutes() <= u.minutes())) by (nonlinear_arith)
        requires
            t.minute < 60,
            u.minute < 60,
            t.minutes() == t.hour * 60 + t.minute,
            u.minutes() == u.hour * 60 + u.minute,
            t.le(u) == (t.hour < u.hour || (t.hour == u.hour && t.minute <= u.minute)),
    ;
}

/// A shifted time is normalised and lies at the clamped number of minutes.
pub proof fn lemma_shifted(t: Time, delta: int)
    ensures
        t.shifted(delta).normalized(),
        t.shifted(delta).minutes() == clamp_minutes(t.minutes() + delta),
{
    let m = clamp_minutes(t.minutes() + delta);
    assert(0 <= m <= MAX_MINUTES);
    assert(m / 60 <= 0xffff_ffff && m % 60 < 60 && (m / 60) * 60 + m % 60 == m)
        by (nonlinear_arith)
        requires
            0 <= m <= 257698037759,
    ;
}

/// A normalised time never lies past `MAX_MINUTES`.
pub proof fn lemma_normalized_bound(t: Time)
    requires
        t.normalized(),
    ensures
        0 <= t.minutes() <= MAX_MINUTES,
{
    assert(0 <= t.hour * 60 + t.minute <= 257698037759) by (nonlinear_arith)
        requires
            0 <= t.hour <= 0xffff_ffff,
            0 <= t.minute < 60,
    ;
}

} // verus!
