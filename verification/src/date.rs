use vstd::prelude::*;

verus! {

/// A calendar date in the proleptic Gregorian calendar, held as plain
/// year, month and day numbers.
///
/// The library works on UTC dates only; a value is meaningful when
/// [`Date::valid`] holds.
#[derive(Clone, Copy, PartialEq, Eq, Structural, Debug)]
pub struct Date {
    pub year: i32,
    pub month: u8,
    pub day: u8,
}

/// Whether `y` is a leap year.
pub open spec fn spec_is_leap_year(y: int) -> bool {
    (y % 4 == 0 && y % 100 != 0) || y % 400 == 0
}

/// Number of days of month `m` of year `y`.
pub open spec fn spec_days_in_month(y: int, m: int) -> int {
    if m == 2 {
        if spec_is_leap_year(y) {
            29
        } else {
            28
        }
    } else if m == 4 || m == 6 || m == 9 || m == 11 {
        30
    } else {
        31
    }
}

pub fn is_leap_year(y: i32) -> (r: bool)
    requires
        y >= 0,
    ensures
        r == spec_is_leap_year(y as int),
{
    (y % 4 == 0 && y % 100 != 0) || y % 400 == 0
}

pub fn days_in_month(y: i32, m: u8) -> (r: u8)
    requires
        y >= 0,
    ensures
        r as int == spec_days_in_month(y as int, m as int),
{
    if m == 2 {
        if is_leap_year(y) {
            29
        } else {
            28
        }
    } else if m == 4 || m == 6 || m == 9 || m == 11 {
        30
    } else {
        31
    }
}

impl Date {
    /// The date designates an existing day, within the range the library supports.
    pub open spec fn valid(self) -> bool {
        &&& 1 <= self.year <= 9999
        &&& 1 <= self.month <= 12
        &&& 1 <= self.day <= spec_days_in_month(self.year as int, self.month as int)
    }

    /// Month and day numbers lie in their calendar ranges and the year is
    /// within the supported span; enough for comparisons, weaker than
    /// [`Date::valid`].
    pub open spec fn in_bounds(self) -> bool {
        &&& -9999 <= self.year <= 9999
        &&& 1 <= self.month <= 12
        &&& 1 <= self.day <= 31
    }

    /// A linear ordinal that orders dates exactly as the lexicographic
    /// (year, month, day) order does; used for comparisons and termination.
    pub open spec fn ord(self) -> int {
        self.year * 500 + self.month * 35 + self.day
    }

    /// Number of days since 0000-03-01 of the civil calendar; differences of
    /// two values give the number of days between the dates.
    pub open spec fn spec_day_number(self) -> int {
        let y: int = if self.month <= 2 {
            self.year - 1
        } else {
            self.year as int
        };
        let era: int = y / 400;
        let yoe: int = y - era * 400;
        let mp: int = if self.month > 2 {
            self.month - 3
        } else {
            self.month + 9
        };
        let doy: int = (153 * mp + 2) / 5 + self.day - 1;
        let doe: int = yoe * 365 + yoe / 4 - yoe / 100 + doy;
        era * 146097 + doe
    }

    pub fn new(year: i32, month: u8, day: u8) -> (r: Date)
        requires
            (Date { year, month, day }).valid(),
        ensures
            r == (Date { year, month, day }),
    {
        Date { year, month, day }
    }

    /// Days since 0000-03-01.
    pub fn day_number(&self) -> (r: u32)
        requires
            self.valid(),
        ensures
            r as int == self.spec_day_number(),
    {
        let y: u32 = if self.month <= 2 {
            (self.year - 1) as u32
        } else {
            self.year as u32
        };
        let era: u32 = y / 400;
        let yoe: u32 = y - era * 400;
        let mp: u32 = if self.month > 2 {
            (self.month - 3) as u32
        } else {
            (self.month + 9) as u32
        };
        let doy: u32 = (153 * mp + 2) / 5 + (self.day - 1) as u32;
        let doe: u32 = yoe * 365 + yoe / 4 - yoe / 100 + doy;
        era * 146097 + doe
    }

    /// `self` comes no later than `other`.
    pub fn le(&self, other: &Date) -> (r: bool)
        requires
            self.in_bounds() || self.valid(),
            other.in_bounds() || other.valid(),
        ensures
            r == (self.ord() <= other.ord()),
    {
        if self.year != other.year {
            self.year < other.year
        } else if self.month != other.month {
            self.month < other.month
        } else {
            self.day <= other.day
        }
    }

    /// `self` comes strictly before `other`.
    pub fn lt(&self, other: &Date) -> (r: bool)
        requires
            self.in_bounds() || self.valid(),
            other.in_bounds() || other.valid(),
        ensures
            r == (self.ord() < other.ord()),
    {
        if self.year != other.year {
            self.year < other.year
        } else if self.month != other.month {
            self.month < other.month
        } else {
            self.day < other.day
        }
    }

    /// The day after `self`.
    pub open spec fn spec_next_day(self) -> Date {
        if self.day < spec_days_in_month(self.year as int, self.month as int) {
            Date { year: self.year, month: self.month, day: (self.day + 1) as u8 }
        } else if self.month < 12 {
            Date { year: self.year, month: (self.month + 1) as u8, day: 1 }
        } else {
            Date { year: (self.year + 1) as i32, month: 1, day: 1 }
        }
    }

    pub fn next_day(&self) -> (r: Date)
        requires
            self.valid(),
            self.year < 9999 || !(self.month == 12 && self.day == 31),
        ensures
            r == self.spec_next_day(),
            r.valid(),
            r.ord() > self.ord(),
    {
        if self.day < days_in_month(self.year, self.month) {
            Date { year: self.year, month: self.month, day: self.day + 1 }
        } else if self.month < 12 {
            Date { year: self.year, month: self.month + 1, day: 1 }
        } else {
            Date { year: self.year + 1, month: 1, day: 1 }
        }
    }

    /// The first day of the month that `self` lies in.
    pub open spec fn spec_first_of_month(self) -> Date {
        Date { year: self.year, month: self.month, day: 1 }
    }

    pub fn first_of_month(&self) -> (r: Date)
        requires
            self.valid(),
        ensures
            r == self.spec_first_of_month(),
            r.valid(),
    {
        Date { year: self.year, month: self.month, day: 1 }
    }
}

/// The current date in UTC.
///
/// Relies on `time::OffsetDateTime::now_utc`: the civil date of the system
/// clock. `time::Date` holds a month of 1 to 12, a day of 1 to 31 and a
/// year between -9999 and 9999, which is what is claimed of the result.
#[verifier::external_body]
pub fn today_utc() -> (r: Date)
    ensures
        r.in_bounds(),
{
    let d = time::OffsetDateTime::now_utc().date();
    Date { year: d.year(), month: d.month() as u8, day: d.day() }
}

/// An iterator between two [`Date`]s in increments of one day.
/// The end is exclusive: from 2022-01-01 to 2022-01-03 there are two items.
pub struct DateIter {
    pub from: Date,
    pub to: Date,
}

impl DateIter {
    pub fn new(from: Date, to: Date) -> (r: DateIter)
        requires
            from.valid(),
            to.valid(),
        ensures
            r.from == from,
            r.to == to,
    {
        DateIter { from, to }
    }

    /// Yields the current date and advances by one day, or returns `None`
    /// once the end is reached.
    pub fn next(&mut self) -> (r: Option<Date>)
        requires
            old(self).from.valid(),
            old(self).to.valid(),
        ensures
            final(self).to == old(self).to,
            final(self).to.valid(),
            final(self).from.valid(),
            match r {
                Some(d) => {
                    &&& old(self).from.ord() < old(self).to.ord()
                    &&& d == old(self).from
                    &&& final(self).from == d.spec_next_day()
                },
                None => {
                    &&& old(self).from.ord() >= old(self).to.ord()
                    &&& final(self).from == old(self).from
                },
            },
    {
        if self.from.lt(&self.to) {
            let maybe_next = self.from;
            self.from = self.from.next_day();
            Some(maybe_next)
        } else {
            None
        }
    }
}

/// Within one month the day number advances with the day.
pub proof fn lemma_day_number_same_month(d: Date, e: Date)
    requires
        d.valid(),
        e.valid(),
        d.year == e.year,
        d.month == e.month,
    ensures
        d.spec_day_number() - e.spec_day_number() == d.day - e.day,
{
}

/// The day after a date has the next day number.
pub proof fn lemma_next_day_number(d: Date)
    requires
        d.valid(),
        d.year < 9999 || !(d.month == 12 && d.day == 31),
    ensures
        d.spec_next_day().valid(),
        d.spec_next_day().spec_day_number() == d.spec_day_number() + 1,
{
    let n = d.spec_next_day();
    if d.day < spec_days_in_month(d.year as int, d.month as int) {
        assert(n.spec_day_number() == d.spec_day_number() + 1);
    } else if d.month == 2 {
        // the only boundary where the era arithmetic shifts by one year
        let y = d.year as int;
        let e = y / 400;
        let r = y % 400;
        vstd::arithmetic::div_mod::lemma_fundamental_div_mod(y, 400);
        vstd::arithmetic::div_mod::lemma_mod_bound(y, 400);
        if r != 0 {
            vstd::arithmetic::div_mod::lemma_fundamental_div_mod_converse(y - 1, 400, e, r - 1);
            let q4 = r / 4;
            let r4 = r % 4;
            vstd::arithmetic::div_mod::lemma_fundamental_div_mod(r, 4);
            vstd::arithmetic::div_mod::lemma_mod_bound(r, 4);
            if r4 == 0 {
                vstd::arithmetic::div_mod::lemma_fundamental_div_mod_converse(r - 1, 4, q4 - 1, 3);
            } else {
                vstd::arithmetic::div_mod::lemma_fundamental_div_mod_converse(r - 1, 4, q4, r4 - 1);
            }
            let q100 = r / 100;
            let r100 = r % 100;
            vstd::arithmetic::div_mod::lemma_fundamental_div_mod(r, 100);
            vstd::arithmetic::div_mod::lemma_mod_bound(r, 100);
            if r100 == 0 {
                vstd::arithmetic::div_mod::lemma_fundamental_div_mod_converse(
                    r - 1,
                    100,
                    q100 - 1,
                    99,
                );
            } else {
                vstd::arithmetic::div_mod::lemma_fundamental_div_mod_converse(
                    r - 1,
                    100,
                    q100,
                    r100 - 1,
                );
            }
            // the year's leap rule reads off the year-of-era remainders
            vstd::arithmetic::div_mod::lemma_fundamental_div_mod_converse(
                y,
                4,
                100 * e + q4,
                r4,
            );
            vstd::arithmetic::div_mod::lemma_fundamental_div_mod_converse(
                y,
                100,
                4 * e + q100,
                r100,
            );
            if r100 == 0 {
                // a multiple of one hundred years is a multiple of four
                vstd::arithmetic::div_mod::lemma_fundamental_div_mod_converse(r, 4, 25 * q100, 0);
            }
            assert(n.spec_day_number() == d.spec_day_number() + 1);
        } else {
            vstd::arithmetic::div_mod::lemma_fundamental_div_mod_converse(y - 1, 400, e - 1, 399);
            vstd::arithmetic::div_mod::lemma_fundamental_div_mod_converse(y, 4, 100 * e, 0);
            assert(n.spec_day_number() == d.spec_day_number() + 1);
        }
    } else if d.month < 12 {
        assert(n.spec_day_number() == d.spec_day_number() + 1) by {
            if d.month == 1 {
            } else if d.month == 3 {
            } else if d.month == 4 {
            } else if d.month == 5 {
            } else if d.month == 6 {
            } else if d.month == 7 {
            } else if d.month == 8 {
            } else if d.month == 9 {
            } else if d.month == 10 {
            } else {
                assert(d.month == 11);
            }
        }
    } else {
        assert(n.spec_day_number() == d.spec_day_number() + 1);
    }
}

/// Two meaningful dates with the same ordinal are the same date.
proof fn lemma_ord_inj(d1: Date, d2: Date)
    requires
        d1.valid(),
        d2.valid(),
        d1.ord() == d2.ord(),
    ensures
        d1 == d2,
{
    assert(36 <= d1.month * 35 + d1.day <= 451);
    assert(36 <= d2.month * 35 + d2.day <= 451);
}

/// A later date has a greater day number.
pub proof fn lemma_day_number_mono(d1: Date, d2: Date)
    requires
        d1.valid(),
        d2.valid(),
        d1.ord() < d2.ord(),
    ensures
        d1.spec_day_number() < d2.spec_day_number(),
    decreases d2.ord() - d1.ord(),
{
    assert(!(d1.year == 9999 && d1.month == 12 && d1.day == 31)) by {
        assert(d2.ord() <= 9999 * 500 + 12 * 35 + 31);
    }
    lemma_next_day_number(d1);
    let n = d1.spec_next_day();
    assert(n.ord() <= d2.ord()) by {
        if d1.day < spec_days_in_month(d1.year as int, d1.month as int) {
        } else if d1.month < 12 {
            if d2.year == d1.year && d2.month == d1.month {
                assert(d2.day <= spec_days_in_month(d2.year as int, d2.month as int));
                assert(false);
            } else if d2.year == d1.year {
                assert(d2.month >= d1.month + 1);
            } else {
                assert(d2.year >= d1.year + 1);
            }
        } else {
            if d2.year == d1.year {
                assert(d2.month <= 12 && d2.day <= 31);
                assert(false);
            } else {
                assert(d2.year >= d1.year + 1);
            }
        }
    }
    if n.ord() == d2.ord() {
        lemma_ord_inj(n, d2);
    } else {
        lemma_day_number_mono(n, d2);
    }
}

/// Day numbers are distinct for distinct meaningful dates.
pub proof fn lemma_day_number_inj(d1: Date, d2: Date)
    requires
        d1.valid(),
        d2.valid(),
        d1.spec_day_number() == d2.spec_day_number(),
    ensures
        d1 == d2,
{
    if d1.ord() < d2.ord() {
        lemma_day_number_mono(d1, d2);
    } else if d2.ord() < d1.ord() {
        lemma_day_number_mono(d2, d1);
    } else {
        lemma_ord_inj(d1, d2);
    }
}

/// Every meaningful date's day number lies between the first and the last
/// supported day.
pub proof fn lemma_day_number_bounds(d: Date)
    requires
        d.valid(),
    ensures
        306 <= d.spec_day_number() <= 3652364,
{
    let dmin = Date { year: 1, month: 1, day: 1 };
    let dmax = Date { year: 9999, month: 12, day: 31 };
    assert(dmin.spec_day_number() == 306);
    assert(dmax.spec_day_number() == 3652364);
    if d.ord() > dmin.ord() {
        lemma_day_number_mono(dmin, d);
    } else {
        assert(d == dmin);
    }
    if d.ord() < dmax.ord() {
        lemma_day_number_mono(d, dmax);
    } else {
        assert(d == dmax);
    }
}

/// The meaningful date whose day number is `n`; day numbers are unique,
/// so for a day number within the supported years this is the one date
/// the number counts to.
pub open spec fn spec_date_of_day_number(n: int) -> Date {
    choose|d: Date| d.valid() && d.spec_day_number() == n
}

/// Returns the date of day number `n`: the inverse of [`Date::day_number`]
/// over the supported years.
pub fn date_from_day_number(n: u32) -> (r: Date)
    requires
        (Date { year: 1, month: 1, day: 1 }).spec_day_number() <= n <= (Date {
            year: 9999,
            month: 12,
            day: 31,
        }).spec_day_number(),
    ensures
        r.valid(),
        r.spec_day_number() == n,
        r == spec_date_of_day_number(n as int),
{
    let mut y: i32 = 1;
    let mut done = false;
    while !done
        invariant
            1 <= y <= 9999,
            (Date { year: y, month: 1, day: 1 }).spec_day_number() <= n,
            done ==> y == 9999 || (Date {
                year: (y + 1) as i32,
                month: 1,
                day: 1,
            }).spec_day_number() > n,
        decreases 9999 - y + (if done {
            0int
        } else {
            1int
        }),
    {
        if y == 9999 {
            done = true;
        } else {
            let next = Date { year: y + 1, month: 1, day: 1 };
            if next.day_number() > n {
                done = true;
            } else {
                y = y + 1;
            }
        }
    }
    let mut m: u8 = 1;
    let mut mdone = false;
    while !mdone
        invariant
            1 <= y <= 9999,
            1 <= m <= 12,
            (Date { year: y, month: m, day: 1 }).spec_day_number() <= n,
            y == 9999 || (Date { year: (y + 1) as i32, month: 1, day: 1 }).spec_day_number() > n,
            n <= (Date { year: 9999, month: 12, day: 31 }).spec_day_number(),
            mdone ==> m == 12 || (Date { year: y, month: (m + 1) as u8, day: 1 }).spec_day_number()
                > n,
        decreases 12 - m + (if mdone {
            0int
        } else {
            1int
        }),
    {
        if m == 12 {
            mdone = true;
        } else {
            let next = Date { year: y, month: m + 1, day: 1 };
            if next.day_number() > n {
                mdone = true;
            } else {
                m = m + 1;
            }
        }
    }
    let first = Date { year: y, month: m, day: 1 };
    let base = first.day_number();
    let dim = days_in_month(y, m);
    proof {
        let last = Date { year: y, month: m, day: dim };
        lemma_day_number_same_month(last, first);
        if m < 12 {
            lemma_next_day_number(last);
            assert(last.spec_next_day() == (Date { year: y, month: (m + 1) as u8, day: 1u8 }));
        } else if y < 9999 {
            lemma_next_day_number(last);
            assert(last.spec_next_day() == (Date { year: (y + 1) as i32, month: 1u8, day: 1u8 }));
        } else {
            lemma_day_number_same_month(Date { year: 9999, month: 12, day: 31 }, first);
        }
        assert(n <= base + dim - 1);
    }
    let day = (n - base + 1) as u8;
    let r = Date { year: y, month: m, day };
    proof {
        lemma_day_number_same_month(r, first);
        assert(r.valid() && r.spec_day_number() == n);
        assert(spec_date_of_day_number(n as int).valid() && spec_date_of_day_number(
            n as int,
        ).spec_day_number() == n);
        lemma_day_number_inj(spec_date_of_day_number(n as int), r);
    }
    r
}

/// The day after a meaningful date comes strictly later.
proof fn lemma_next_day_ord(d: Date)
    requires
        d.valid(),
    ensures
        d.spec_next_day().ord() > d.ord(),
{
}

/// Consecutive days make a strictly increasing run.
proof fn lemma_run_increasing(s: Seq<Date>, i: int, j: int)
    requires
        0 <= i < j < s.len(),
        forall|x: int| 0 <= x < s.len() ==> (#[trigger] s[x]).valid(),
        forall|x: int| 0 <= x < s.len() - 1 ==> #[trigger] s[x + 1] == s[x].spec_next_day(),
    ensures
        s[i].ord() < s[j].ord(),
    decreases j - i,
{
    assert(s[i + 1] == s[i].spec_next_day());
    lemma_next_day_ord(s[i]);
    if i + 1 < j {
        lemma_run_increasing(s, i + 1, j);
    }
}

/// All days `d` with `from <= d < to`, in ascending order.
#[verifier::spinoff_prover]
#[verifier::rlimit(100)]
pub fn date_range(from: Date, to: Date) -> (r: Vec<Date>)
    requires
        from.valid(),
        to.valid(),
    ensures
        forall|i: int| 0 <= i < r@.len() ==> (#[trigger] r@[i]).valid(),
        forall|i: int|
            0 <= i < r@.len() ==> from.ord() <= (#[trigger] r@[i]).ord() < to.ord(),
        forall|i: int, j: int| 0 <= i < j < r@.len() ==> r@[i].ord() < r@[j].ord(),
        r@.len() == 0 <==> from.ord() >= to.ord(),
        r@.len() > 0 ==> r@[0] == from,
        forall|i: int|
            0 <= i < r@.len() - 1 ==> #[trigger] r@[i + 1] == r@[i].spec_next_day(),
        r@.len() > 0 ==> r@[r@.len() - 1].spec_next_day().ord() >= to.ord(),
{
    let mut r: Vec<Date> = Vec::new();
    let mut cur = from;
    while cur.lt(&to)
        invariant
            from.valid(),
            to.valid(),
            cur.valid(),
            from.ord() <= cur.ord(),
            forall|i: int| 0 <= i < r@.len() ==> (#[trigger] r@[i]).valid(),
            forall|i: int|
                0 <= i < r@.len() ==> from.ord() <= (#[trigger] r@[i]).ord() < to.ord(),
            r@.len() == 0 ==> cur == from,
            r@.len() > 0 ==> r@[0] == from,
            r@.len() > 0 ==> cur == r@[r@.len() - 1].spec_next_day(),
            forall|i: int|
                0 <= i < r@.len() - 1 ==> #[trigger] r@[i + 1] == r@[i].spec_next_day(),
        decreases to.ord() - cur.ord(),
    {
        r.push(cur);
        cur = cur.next_day();
    }
    proof {
        assert forall|i: int, j: int| 0 <= i < j < r@.len() implies r@[i].ord() < r@[j].ord() by {
            lemma_run_increasing(r@, i, j);
        }
    }
    r
}

} // verus!
