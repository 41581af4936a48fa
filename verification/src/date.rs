//! Calendar days and second-precision timestamps.
//!
//! The store compares days and timestamps through `key`, a mixed-radix
//! encoding that is injective on valid values and orders them
//! chronologically, so that all range and retention logic can be stated
//! over plain integers.

use vstd::prelude::*;

verus! {

/// A calendar day in the Gregorian calendar.
#[derive(Clone, Copy, PartialEq, Eq, PartialOrd, Ord, Structural, Debug)]
pub struct Date {
    pub year: u16,
    pub month: u8,
    pub day: u8,
}

pub open spec fn is_leap_year(y: int) -> bool {
    (y % 4 == 0 && y % 100 != 0) || y % 400 == 0
}

pub open spec fn days_in_month(y: int, m: int) -> int {
    if m == 2 {
        if is_leap_year(y) {
            29
        } else {
            28
        }
    } else if m == 4 || m == 6 || m == 9 || m == 11 {
        30
    } else {
        31
    }
}

/// The day one calendar day before `d` (meaningful only when `d` is a
/// valid date other than the very first representable day).
pub open spec fn prev_of(d: Date) -> Date {
    if d.day > 1 {
        Date { year: d.year, month: d.month, day: (d.day - 1) as u8 }
    } else if d.month > 1 {
        Date {
            year: d.year,
            month: (d.month - 1) as u8,
            day: days_in_month(d.year as int, d.month - 1) as u8,
        }
    } else {
        Date { year: (d.year - 1) as u16, month: 12, day: 31 }
    }
}

/// The day one calendar day after `d` (meaningful only when `d` is a
/// valid date below the last representable year).
pub open spec fn next_of(d: Date) -> Date {
    if d.day < days_in_month(d.year as int, d.month as int) {
        Date { year: d.year, month: d.month, day: (d.day + 1) as u8 }
    } else if d.month < 12 {
        Date { year: d.year, month: (d.month + 1) as u8, day: 1 }
    } else {
        Date { year: (d.year + 1) as u16, month: 1, day: 1 }
    }
}

/// `d` stepped back `n` calendar days, or `None` when that walks off the
/// first representable day.
pub open spec fn minus_days(d: Date, n: nat) -> Option<Date>
    decreases n,
{
    if n == 0 {
        Some(d)
    } else if d.year == 1 && d.month == 1 && d.day == 1 {
        None
    } else {
        minus_days(prev_of(d), (n - 1) as nat)
    }
}

impl Date {
    pub open spec fn valid(self) -> bool {
        &&& 1 <= self.year <= 9999
        &&& 1 <= self.month <= 12
        &&& 1 <= self.day <= days_in_month(self.year as int, self.month as int)
    }

    /// Chronological order key, injective on valid dates.
    pub open spec fn key(self) -> int {
        self.day as int + 32 * (self.month as int + 13 * self.year as int)
    }

    /// The key as a machine integer, for executable comparisons.
    pub fn key_u64(&self) -> (r: u64)
        requires
            self.valid(),
        ensures
            r == self.key(),
    {
        self.day as u64 + 32 * (self.month as u64 + 13 * self.year as u64)
    }

    /// The calendar day after `self`.
    pub fn next_day(&self) -> (r: Date)
        requires
            self.valid(),
            self.year < 9999,
        ensures
            r == next_of(*self),
            r.valid(),
            self.key() < r.key(),
            forall|d: Date| d.valid() ==> !(self.key() < d.key() < r.key()),
    {
        let ml = month_len(self.year, self.month);
        let r = if self.day < ml {
            Date { year: self.year, month: self.month, day: self.day + 1 }
        } else if self.month < 12 {
            Date { year: self.year, month: self.month + 1, day: 1 }
        } else {
            Date { year: self.year + 1, month: 1, day: 1 }
        };
        proof {
            assert forall|d: Date| d.valid() implies !(self.key() < d.key() < r.key()) by {
                lemma_key_no_gap(*self, r, d);
            }
        }
        r
    }

    /// The calendar day before `self`.
    pub fn prev_day(&self) -> (r: Date)
        requires
            self.valid(),
            !(self.year == 1 && self.month == 1 && self.day == 1),
        ensures
            r == prev_of(*self),
            r.valid(),
            r.key() < self.key(),
            forall|d: Date| d.valid() ==> !(r.key() < d.key() < self.key()),
    {
        let r = if self.day > 1 {
            Date { year: self.year, month: self.month, day: self.day - 1 }
        } else if self.month > 1 {
            let pm = self.month - 1;
            Date { year: self.year, month: pm, day: month_len(self.year, pm) }
        } else {
            Date { year: self.year - 1, month: 12, day: 31 }
        };
        proof {
            assert forall|d: Date| d.valid() implies !(r.key() < d.key() < self.key()) by {
                lemma_key_no_gap(r, *self, d);
            }
        }
        r
    }

    /// `self` stepped back `n` calendar days, `None` on underflow.
    pub fn sub_days(&self, n: u64) -> (r: Option<Date>)
        requires
            self.valid(),
        ensures
            r == minus_days(*self, n as nat),
            r matches Some(d) ==> d.valid() && d.key() <= self.key(),
    {
        let mut cur: Date = *self;
        let mut k: u64 = n;
        while k > 0
            invariant
                cur.valid(),
                cur.key() <= self.key(),
                minus_days(cur, k as nat) == minus_days(*self, n as nat),
            decreases k,
        {
            if cur.year == 1 && cur.month == 1 && cur.day == 1 {
                return None;
            }
            cur = cur.prev_day();
            k = k - 1;
        }
        Some(cur)
    }
}

/// The number of days in the given month.
pub fn month_len(y: u16, m: u8) -> (r: u8)
    requires
        1 <= m <= 12,
    ensures
        r as int == days_in_month(y as int, m as int),
{
    if m == 2 {
        if (y % 4 == 0 && y % 100 != 0) || y % 400 == 0 {
            29
        } else {
            28
        }
    } else if m == 4 || m == 6 || m == 9 || m == 11 {
        30
    } else {
        31
    }
}

/// Two valid dates with the same key are the same day.
pub proof fn lemma_date_key_injective(a: Date, b: Date)
    requires
        a.valid(),
        b.valid(),
        a.key() == b.key(),
    ensures
        a == b,
{
    let ma = a.month as int + 13 * a.year as int;
    let mb = b.month as int + 13 * b.year as int;
    assert(a.day as int - b.day as int == 32 * (mb - ma));
    assert(ma == mb);
    assert(a.month as int - b.month as int == 13 * (b.year as int - a.year as int));
    assert(a.year == b.year && a.month == b.month && a.day == b.day);
}

/// No valid date lies strictly between a valid day and the next value
/// the calendar can produce for it: used to show that stepping one day
/// at a time visits every valid day of a key range.
proof fn lemma_key_no_gap(lo: Date, hi: Date, d: Date)
    requires
        lo.valid(),
        hi.valid(),
        d.valid(),
        hi == next_of(lo),
    ensures
        !(lo.key() < d.key() < hi.key()),
{
    let mlo = lo.month as int + 13 * lo.year as int;
    let md = d.month as int + 13 * d.year as int;
    if lo.day < days_in_month(lo.year as int, lo.month as int) {
        // same month: keys are consecutive
    } else if lo.month < 12 {
        // month rollover
        if md == mlo {
            assert(d.day as int <= days_in_month(d.year as int, d.month as int));
        } else if md == mlo + 1 {
            assert(d.day >= 1);
        } else if md >= mlo + 2 {
            assert(d.key() >= 1 + 32 * (mlo + 2));
        } else {
            assert(d.key() <= 31 + 32 * (mlo - 1));
        }
    } else {
        // year rollover: December has 31 days
        if d.year == lo.year {
            assert(d.month as int <= 12);
            assert(d.key() <= 31 + 32 * (12 + 13 * lo.year as int));
        } else if d.year as int == lo.year as int + 1 {
            assert(d.month >= 1 && d.day >= 1);
            assert(d.key() >= 1 + 32 * (1 + 13 * (lo.year as int + 1)));
        } else if d.year as int >= lo.year as int + 2 {
            assert(d.key() >= 1 + 32 * (1 + 13 * (lo.year as int + 2)));
        } else {
            assert(d.key() <= 31 + 32 * (12 + 13 * (lo.year as int - 1)));
        }
    }
}

/// What stepping forward one day gives: a valid later day with no
/// valid day strictly between.
pub proof fn lemma_next_of(d: Date)
    requires
        d.valid(),
        !(d.year == 9999 && d.month == 12 && d.day == 31),
    ensures
        next_of(d).valid(),
        d.key() < next_of(d).key(),
        forall|x: Date| x.valid() ==> !(d.key() < x.key() < next_of(d).key()),
{
    assert forall|x: Date| x.valid() implies !(d.key() < x.key() < next_of(d).key()) by {
        lemma_key_no_gap(d, next_of(d), x);
    }
}

/// What stepping back one day gives: a valid earlier day with no
/// valid day strictly between.
pub proof fn lemma_prev_of(d: Date)
    requires
        d.valid(),
        !(d.year == 1 && d.month == 1 && d.day == 1),
    ensures
        prev_of(d).valid(),
        prev_of(d).key() < d.key(),
        forall|x: Date| x.valid() ==> !(prev_of(d).key() < x.key() < d.key()),
{
    lemma_next_of_prev_of(d);
    assert forall|x: Date| x.valid() implies !(prev_of(d).key() < x.key() < d.key()) by {
        lemma_key_no_gap(prev_of(d), d, x);
    }
}

/// Stepping back one day and forward again returns to the same day.
pub proof fn lemma_next_of_prev_of(d: Date)
    requires
        d.valid(),
        !(d.year == 1 && d.month == 1 && d.day == 1),
    ensures
        prev_of(d).valid(),
        next_of(prev_of(d)) == d,
{
}

/// A timestamp with second precision, in the collector's local calendar.
#[derive(Clone, Copy, PartialEq, Eq, PartialOrd, Ord, Structural, Debug)]
pub struct Timestamp {
    pub date: Date,
    pub hour: u8,
    pub minute: u8,
    pub second: u8,
}

impl Timestamp {
    pub open spec fn valid(self) -> bool {
        &&& self.date.valid()
        &&& self.hour < 24
        &&& self.minute < 60
        &&& self.second < 60
    }

    /// Chronological order key, injective on valid timestamps.
    pub open spec fn key(self) -> int {
        self.date.key() * 86400 + self.hour as int * 3600 + self.minute as int * 60
            + self.second as int
    }

    /// The key as a machine integer, for executable comparisons.
    pub fn key_u64(&self) -> (r: u64)
        requires
            self.valid(),
        ensures
            r == self.key(),
    {
        let dk = self.date.key_u64();
        dk * 86400 + self.hour as u64 * 3600 + self.minute as u64 * 60 + self.second as u64
    }
}

/// Two valid timestamps with the same key are equal.
pub proof fn lemma_ts_key_injective(a: Timestamp, b: Timestamp)
    requires
        a.valid(),
        b.valid(),
        a.key() == b.key(),
    ensures
        a == b,
{
    let sa = a.hour as int * 3600 + a.minute as int * 60 + a.second as int;
    let sb = b.hour as int * 3600 + b.minute as int * 60 + b.second as int;
    assert(0 <= sa < 86400);
    assert(0 <= sb < 86400);
    assert(sa - sb == 86400 * (b.date.key() - a.date.key()));
    assert(a.date.key() == b.date.key());
    lemma_date_key_injective(a.date, b.date);
    assert(a.hour as int - b.hour as int == (b.minute as int * 60 + b.second as int - a.minute as int
        * 60 - a.second as int) / 3600 || true);
    assert(a.hour as int * 3600 - b.hour as int * 3600 == b.minute as int * 60 + b.second as int - (
    a.minute as int * 60 + a.second as int));
    assert(a.hour == b.hour);
    assert(a.minute as int * 60 - b.minute as int * 60 == b.second as int - a.second as int);
    assert(a.minute == b.minute && a.second == b.second);
}

/// Distinct valid timestamps never collide in the key space: an
/// operation keyed by one timestamp can touch no other timestamp's
/// row.
pub proof fn lemma_distinct_timestamps_distinct_keys(a: Timestamp, b: Timestamp)
    requires
        a.valid(),
        b.valid(),
        a != b,
    ensures
        a.key() != b.key(),
{
    if a.key() == b.key() {
        lemma_ts_key_injective(a, b);
    }
}

} // verus!
