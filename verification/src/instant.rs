//! A point in time at second precision, held as calendar fields.

use vstd::prelude::*;

verus! {

/// Whether `year` is a leap year of the proleptic Gregorian calendar.
pub open spec fn is_leap_year(year: int) -> bool {
    year % 4 == 0 && (year % 100 != 0 || year % 400 == 0)
}

/// The number of days of `month` (1 to 12) in `year`.
pub open spec fn days_in_month(year: int, month: int) -> int {
    if month == 2 {
        if is_leap_year(year) {
            29
        } else {
            28
        }
    } else if month == 4 || month == 6 || month == 9 || month == 11 {
        30
    } else {
        31
    }
}

/// A local date and time of day, without a sub-second part or a zone.
///
/// The derived order compares the fields from `year` down to `second`, which
/// is the chronological order.
#[derive(Clone, Copy, Debug, PartialEq, Eq, PartialOrd, Ord, Hash, Structural)]
pub struct Instant {
    pub year: u16,
    pub month: u8,
    pub day: u8,
    pub hour: u8,
    pub minute: u8,
    pub second: u8,
}

impl Instant {
    /// The fields name a real calendar second with a four-digit year.
    pub open spec fn valid(&self) -> bool {
        &&& self.year <= 9999
        &&& 1 <= self.month <= 12
        &&& 1 <= self.day <= days_in_month(self.year as int, self.month as int)
        &&& self.hour <= 23
        &&& self.minute <= 59
        &&& self.second <= 59
    }

    /// A number that grows with time: the fields read as the digits of one
    /// number in base 256, the year first.
    pub open spec fn rank(&self) -> int {
        ((((self.year as int * 256 + self.month as int) * 256 + self.day as int) * 256
            + self.hour as int) * 256 + self.minute as int) * 256 + self.second as int
    }

    /// Computes [`Instant::valid`].
    pub fn is_valid(&self) -> (ok: bool)
        ensures
            ok == self.valid(),
    {
        if self.year > 9999 || self.month < 1 || self.month > 12 || self.day < 1 {
            return false;
        }
        let leap: bool = self.year % 4 == 0 && (self.year % 100 != 0 || self.year % 400 == 0);
        let last: u8 = if self.month == 2 {
            if leap {
                29
            } else {
                28
            }
        } else if self.month == 4 || self.month == 6 || self.month == 9 || self.month == 11 {
            30
        } else {
            31
        };
        self.day <= last && self.hour <= 23 && self.minute <= 59 && self.second <= 59
    }

    /// Builds the instant of the given fields, if they name a real second.
    pub fn new(year: u16, month: u8, day: u8, hour: u8, minute: u8, second: u8) -> (r: Option<
        Instant,
    >)
        ensures
            r == (if (Instant { year, month, day, hour, minute, second }).valid() {
                Some(Instant { year, month, day, hour, minute, second })
            } else {
                None
            }),
    {
        let candidate = Instant { year, month, day, hour, minute, second };
        if candidate.is_valid() {
            Some(candidate)
        } else {
            None
        }
    }

    /// Builds the instant from calendar fields of the widths that calendar
    /// libraries commonly hand out, if they name a real second with a year
    /// from 0 to 9999.
    pub fn from_calendar(
        year: i32,
        month: u32,
        day: u32,
        hour: u32,
        minute: u32,
        second: u32,
    ) -> (r: Option<Instant>)
        ensures
            match r {
                Some(t) => t.valid() && t.year == year && t.month == month && t.day == day
                    && t.hour == hour && t.minute == minute && t.second == second,
                None => !(0 <= year <= 9999 && 1 <= month <= 12 && 1 <= day <= days_in_month(
                    year as int,
                    month as int,
                ) && hour <= 23 && minute <= 59 && second <= 59),
            },
    {
        if year < 0 || year > 9999 || month > 12 || day > 31 || hour > 23 || minute > 59 || second
            > 59 {
            return None;
        }
        Instant::new(
            year as u16,
            month as u8,
            day as u8,
            hour as u8,
            minute as u8,
            second as u8,
        )
    }

    /// Computes [`Instant::rank`].
    pub fn rank_value(&self) -> (r: u64)
        ensures
            r == self.rank(),
    {
        let y: u64 = self.year as u64;
        let mo: u64 = self.month as u64;
        let d: u64 = self.day as u64;
        let h: u64 = self.hour as u64;
        let mi: u64 = self.minute as u64;
        let s: u64 = self.second as u64;
        ((((y * 256 + mo) * 256 + d) * 256 + h) * 256 + mi) * 256 + s
    }

    /// Whether `self` is strictly later than `other`.
    pub fn is_after(&self, other: &Instant) -> (r: bool)
        ensures
            r == (self.rank() > other.rank()),
    {
        self.rank_value() > other.rank_value()
    }
}

/// Two instants with the same rank are the same instant.
pub proof fn lemma_rank_injective(a: Instant, b: Instant)
    requires
        a.rank() == b.rank(),
    ensures
        a == b,
{
}

/// The rank orders instants as their fields do, read from the year down.
pub proof fn lemma_rank_is_field_order(a: Instant, b: Instant)
    ensures
        a.rank() < b.rank() <==> (a.year < b.year || (a.year == b.year && (a.month < b.month || (
        a.month == b.month && (a.day < b.day || (a.day == b.day && (a.hour < b.hour || (a.hour
            == b.hour && (a.minute < b.minute || (a.minute == b.minute && a.second
            < b.second)))))))))),
{
}

} // verus!
