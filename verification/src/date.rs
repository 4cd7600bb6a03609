use vstd::prelude::*;
use vstd::string::StringExecFns;

use crate::datepart::Datepart;
use crate::text::all_digit_chars;
use crate::text::char_digit;
use crate::text::digits_val;
use crate::text::is_digit_char;
use crate::text::padded_num;
use crate::text::padded_num_string;
use crate::text::parse_i32_from;
use crate::text::spec_parse_i32;
use crate::util::chars_of;

verus! {

/// A calendar date without time or timezone information. Values are
/// guaranteed to be between `0000-01-01` and `9999-12-31`.
#[derive(Debug, Clone, Copy, PartialEq, Eq, Hash, Structural)]
pub struct Date {
    pub year: u16,
    pub month: u8,
    pub day: u8,
}

/// The Gregorian leap-year rule: divisible by 4, not by 100 unless by 400.
pub open spec fn spec_is_leap_year(y: int) -> bool {
    y % 4 == 0 && (y % 100 != 0 || y % 400 == 0)
}

/// Days in a month of the Gregorian calendar.
pub open spec fn spec_days_in_month(y: int, m: int) -> int {
    if m == 2 {
        if spec_is_leap_year(y) {
            29
        } else {
            28
        }
    } else if m == 4 || m == 6 || m == 9 || m == 11 {
        30
    } else {
        31
    }
}

pub open spec fn date_valid(y: int, m: int, d: int) -> bool {
    &&& 0 <= y <= 9999
    &&& 1 <= m <= 12
    &&& 1 <= d <= spec_days_in_month(y, m)
}

impl Date {
    /// The struct holds a real calendar date within bounds.
    pub open spec fn wf(self) -> bool {
        date_valid(self.year as int, self.month as int, self.day as int)
    }

    pub open spec fn spec_year(self) -> int {
        self.year as int
    }

    pub open spec fn spec_month(self) -> int {
        self.month as int
    }

    pub open spec fn spec_day(self) -> int {
        self.day as int
    }

    /// A single integer that orders dates chronologically.
    pub open spec fn key(self) -> int {
        self.year * 10000 + self.month * 100 + self.day
    }

    pub open spec fn spec_le(self, other: Self) -> bool {
        self.key() <= other.key()
    }

    pub open spec fn spec_lt(self, other: Self) -> bool {
        self.key() < other.key()
    }
}

/// 0000-01-01, the smallest representable date.
pub open spec fn spec_min_date() -> Date {
    Date { year: 0, month: 1, day: 1 }
}

/// 9999-12-31, the largest representable date.
pub open spec fn spec_max_date() -> Date {
    Date { year: 9999, month: 12, day: 31 }
}

/// The day after `d`; meaningful only when `d` is not the largest date.
pub open spec fn spec_next_date(d: Date) -> Date {
    if d.spec_day() < spec_days_in_month(d.spec_year(), d.spec_month()) {
        Date { year: d.year, month: d.month, day: (d.day + 1) as u8 }
    } else if d.spec_month() < 12 {
        Date { year: d.year, month: (d.month + 1) as u8, day: 1 }
    } else {
        Date { year: (d.year + 1) as u16, month: 1, day: 1 }
    }
}

/// The first day of the year, month, or day that `d` lies in.
pub open spec fn spec_first_of(d: Date, part: Datepart) -> Date {
    match part {
        Datepart::Day => d,
        Datepart::Month => Date { year: d.year, month: d.month, day: 1 },
        Datepart::Year => Date { year: d.year, month: 1, day: 1 },
    }
}

/// The last day of the year, month, or day that `d` lies in.
pub open spec fn spec_last_of(d: Date, part: Datepart) -> Date {
    match part {
        Datepart::Day => d,
        Datepart::Month => Date {
            year: d.year,
            month: d.month,
            day: spec_days_in_month(d.spec_year(), d.spec_month()) as u8,
        },
        Datepart::Year => Date { year: d.year, month: 12, day: 31 },
    }
}

/// Shifting by whole days: one calendar step per unit of the offset, failing
/// when the walk leaves the representable range.
pub open spec fn spec_shift_days(d: Date, offset: int) -> Option<Date>
    decreases
            if offset < 0 {
                -offset
            } else {
                offset
            },
{
    if offset == 0 {
        Some(d)
    } else if offset > 0 {
        if d == spec_max_date() {
            None
        } else {
            spec_shift_days(spec_next_date(d), offset - 1)
        }
    } else {
        if d == spec_min_date() {
            None
        } else {
            spec_shift_days(spec_prev_date(d), offset + 1)
        }
    }
}

/// The day before `d`; meaningful only when `d` is not the smallest date.
pub open spec fn spec_prev_date(d: Date) -> Date {
    if d.spec_day() > 1 {
        Date { year: d.year, month: d.month, day: (d.day - 1) as u8 }
    } else if d.spec_month() > 1 {
        Date {
            year: d.year,
            month: (d.month - 1) as u8,
            day: spec_days_in_month(d.spec_year(), d.spec_month() - 1) as u8,
        }
    } else {
        Date { year: (d.year - 1) as u16, month: 12, day: 31 }
    }
}

/// Shifting by whole months: months are counted continuously, the day is
/// clamped to the target month's last day, and the result must stay within
/// the representable years.
pub open spec fn spec_shift_months(d: Date, offset: int) -> Option<Date> {
    let total = d.spec_year() * 12 + (d.spec_month() - 1) + offset;
    if 0 <= total <= 9999 * 12 + 11 {
        let y = total / 12;
        let m = total % 12 + 1;
        let day = if d.spec_day() <= spec_days_in_month(y, m) {
            d.spec_day()
        } else {
            spec_days_in_month(y, m)
        };
        Some(Date { year: y as u16, month: m as u8, day: day as u8 })
    } else {
        None
    }
}

/// Shifting by whole years: the day is clamped to the target month's last
/// day (a Feb-29 shifted to a non-leap year lands on Feb-28).
pub open spec fn spec_shift_years(d: Date, offset: int) -> Option<Date> {
    let y = d.spec_year() + offset;
    if 0 <= y <= 9999 {
        let day = if d.spec_day() <= spec_days_in_month(y, d.spec_month()) {
            d.spec_day()
        } else {
            spec_days_in_month(y, d.spec_month())
        };
        Some(Date { year: y as u16, month: d.month, day: day as u8 })
    } else {
        None
    }
}

pub open spec fn spec_shift(d: Date, part: Datepart, offset: int) -> Option<Date> {
    match part {
        Datepart::Day => spec_shift_days(d, offset),
        Datepart::Month => spec_shift_months(d, offset),
        Datepart::Year => spec_shift_years(d, offset),
    }
}

pub fn is_leap_year(y: u16) -> (r: bool)
    ensures
        r == spec_is_leap_year(y as int),
{
    y % 4 == 0 && (y % 100 != 0 || y % 400 == 0)
}

pub fn days_in_month(y: u16, m: u8) -> (r: u8)
    requires
        1 <= m <= 12,
    ensures
        r == spec_days_in_month(y as int, m as int),
        28 <= r <= 31,
{
    if m == 2 {
        if is_leap_year(y) {
            29
        } else {
            28
        }
    } else if m == 4 || m == 6 || m == 9 || m == 11 {
        30
    } else {
        31
    }
}

impl Date {
    /// Builds a date, failing outside the calendar or the representable
    /// range.
    pub fn from_ymd(year: u16, month: u16, day: u16) -> (r: Option<Date>)
        ensures
            date_valid(year as int, month as int, day as int) ==> r == Some(
                Date { year, month: month as u8, day: day as u8 },
            ),
            !date_valid(year as int, month as int, day as int) ==> r is None,
            r matches Some(d) ==> d.wf() && d.spec_year() == year && d.spec_month() == month
                && d.spec_day() == day,
    {
        if year > 9999 || month < 1 || month > 12 {
            return None;
        }
        let dim = days_in_month(year, month as u8);
        if day < 1 || day > dim as u16 {
            return None;
        }
        Some(Date { year, month: month as u8, day: day as u8 })
    }

    /// 0000-01-01.
    pub fn min_value() -> (r: Date)
        ensures
            r == spec_min_date(),
            r.wf(),
    {
        Date { year: 0, month: 1, day: 1 }
    }

    /// 9999-12-31.
    pub fn max_value() -> (r: Date)
        ensures
            r == spec_max_date(),
            r.wf(),
    {
        Date { year: 9999, month: 12, day: 31 }
    }

    /// The chronological key, as a machine integer.
    pub fn key_u32(self) -> (k: u32)
        ensures
            k == self.key(),
    {
        self.year as u32 * 10000 + self.month as u32 * 100 + self.day as u32
    }

    pub fn year(self) -> (r: u16)
        ensures
            r == self.spec_year(),
    {
        self.year
    }

    pub fn month(self) -> (r: u16)
        ensures
            r == self.spec_month(),
    {
        self.month as u16
    }

    pub fn day(self) -> (r: u16)
        ensures
            r == self.spec_day(),
    {
        self.day as u16
    }

    /// Chronological comparison.
    pub fn le(self, other: Self) -> (r: bool)
        ensures
            r == self.spec_le(other),
    {
        let a: u32 = self.year as u32 * 10000 + self.month as u32 * 100 + self.day as u32;
        let b: u32 = other.year as u32 * 10000 + other.month as u32 * 100 + other.day as u32;
        a <= b
    }

    pub fn lt(self, other: Self) -> (r: bool)
        ensures
            r == self.spec_lt(other),
    {
        let a: u32 = self.year as u32 * 10000 + self.month as u32 * 100 + self.day as u32;
        let b: u32 = other.year as u32 * 10000 + other.month as u32 * 100 + other.day as u32;
        a < b
    }

    /// Chronological minimum.
    pub fn min_date(self, other: Self) -> (r: Self)
        ensures
            r == if self.spec_le(other) {
                self
            } else {
                other
            },
    {
        if self.le(other) {
            self
        } else {
            other
        }
    }

    /// Chronological maximum.
    pub fn max_date(self, other: Self) -> (r: Self)
        ensures
            r == if other.spec_le(self) {
                self
            } else {
                other
            },
    {
        if other.le(self) {
            self
        } else {
            other
        }
    }

    /// The first day of the year, month, or day that this date lies in.
    pub fn first_of(self, part: Datepart) -> (r: Date)
        requires
            self.wf(),
        ensures
            r == spec_first_of(self, part),
            r.wf(),
    {
        match part {
            Datepart::Day => self,
            Datepart::Month => Date { year: self.year, month: self.month, day: 1 },
            Datepart::Year => Date { year: self.year, month: 1, day: 1 },
        }
    }

    /// The last day of the year, month, or day that this date lies in.
    pub fn last_of(self, part: Datepart) -> (r: Date)
        requires
            self.wf(),
        ensures
            r == spec_last_of(self, part),
            r.wf(),
    {
        match part {
            Datepart::Day => self,
            Datepart::Month => Date {
                year: self.year,
                month: self.month,
                day: days_in_month(self.year, self.month),
            },
            Datepart::Year => Date { year: self.year, month: 12, day: 31 },
        }
    }

    /// The next calendar day, if there is one.
    pub fn next(self) -> (r: Option<Date>)
        requires
            self.wf(),
        ensures
            self == spec_max_date() ==> r is None,
            self != spec_max_date() ==> r == Some(spec_next_date(self)) && spec_next_date(
                self,
            ).wf(),
    {
        let dim = days_in_month(self.year, self.month);
        if self.day < dim {
            Some(Date { year: self.year, month: self.month, day: self.day + 1 })
        } else if self.month < 12 {
            Some(Date { year: self.year, month: self.month + 1, day: 1 })
        } else if self.year < 9999 {
            Some(Date { year: self.year + 1, month: 1, day: 1 })
        } else {
            None
        }
    }

    /// The previous calendar day, if there is one.
    pub fn prev(self) -> (r: Option<Date>)
        requires
            self.wf(),
        ensures
            self == spec_min_date() ==> r is None,
            self != spec_min_date() ==> r == Some(spec_prev_date(self)) && spec_prev_date(
                self,
            ).wf(),
    {
        if self.day > 1 {
            Some(Date { year: self.year, month: self.month, day: self.day - 1 })
        } else if self.month > 1 {
            Some(
                Date {
                    year: self.year,
                    month: self.month - 1,
                    day: days_in_month(self.year, self.month - 1),
                },
            )
        } else if self.year > 0 {
            Some(Date { year: self.year - 1, month: 12, day: 31 })
        } else {
            None
        }
    }

    /// Offsets the date by the given part, returning `None` if the result is
    /// out of bounds.
    ///
    /// When shifting by years or months, the resulting day is clamped to the
    /// resulting month's last day: a Feb-29 shifted by one year yields the
    /// next year's Feb-28.
    pub fn shift(self, part: Datepart, offset: i32) -> (r: Option<Date>)
        requires
            self.wf(),
        ensures
            r == spec_shift(self, part, offset as int),
            r matches Some(d) ==> d.wf(),
    {
        match part {
            Datepart::Day => self.shift_days(offset),
            Datepart::Month => {
                let total: i64 = self.year as i64 * 12 + (self.month as i64 - 1) + offset as i64;
                if total < 0 || total > 9999 * 12 + 11 {
                    return None;
                }
                let y = (total / 12) as u16;
                let m = (total % 12 + 1) as u8;
                let dim = days_in_month(y, m);
                let day = if self.day <= dim {
                    self.day
                } else {
                    dim
                };
                Some(Date { year: y, month: m, day })
            },
            Datepart::Year => {
                let y: i64 = self.year as i64 + offset as i64;
                if y < 0 || y > 9999 {
                    return None;
                }
                let dim = days_in_month(y as u16, self.month);
                let day = if self.day <= dim {
                    self.day
                } else {
                    dim
                };
                Some(Date { year: y as u16, month: self.month, day })
            },
        }
    }

    fn shift_days(self, offset: i32) -> (r: Option<Date>)
        requires
            self.wf(),
        ensures
            r == spec_shift_days(self, offset as int),
            r matches Some(d) ==> d.wf(),
    {
        let mut cur = self;
        if offset >= 0 {
            let mut left: u32 = offset as u32;
            while left > 0
                invariant
                    cur.wf(),
                    spec_shift_days(self, offset as int) == spec_shift_days(cur, left as int),
                decreases left,
            {
                match cur.next() {
                    Some(d) => {
                        cur = d;
                    },
                    None => {
                        return None;
                    },
                }
                left = left - 1;
            }
            Some(cur)
        } else {
            let mut left: u32 = (-(offset as i64)) as u32;
            while left > 0
                invariant
                    cur.wf(),
                    spec_shift_days(self, offset as int) == spec_shift_days(
                        cur,
                        -(left as int),
                    ),
                decreases left,
            {
                match cur.prev() {
                    Some(d) => {
                        cur = d;
                    },
                    None => {
                        return None;
                    },
                }
                left = left - 1;
            }
            Some(cur)
        }
    }
}

/// Why a date token failed to parse.
#[derive(Debug, Clone, Copy, PartialEq, Eq, Structural)]
pub enum ParseError {
    /// The input is empty.
    Empty,
    /// A digit-leading input is not a well-formed calendar date.
    BadFormat,
    /// The anchor character is not one of `{y, Y, m, M, d, D}`, or the
    /// anchored date falls outside the representable range.
    InvalidFirstChar,
    /// The offset after the anchor is not a well-formed 32-bit integer.
    InvalidOffset,
}

/// The `yyyy-mm-dd` rendering of a date.
pub open spec fn date_text(d: Date) -> Seq<char> {
    padded_num(d.spec_year() as nat, 4) + seq!['-'] + padded_num(d.spec_month() as nat, 2)
        + seq!['-'] + padded_num(d.spec_day() as nat, 2)
}

/// Strict `yyyy-mm-dd` with a real calendar date.
pub open spec fn spec_parse_iso(s: Seq<char>) -> Option<Date> {
    if s.len() == 10 && s[4] == '-' && s[7] == '-' && all_digit_chars(s.take(4))
        && all_digit_chars(s.subrange(5, 7)) && all_digit_chars(s.subrange(8, 10)) {
        let y = digits_val(s.take(4));
        let m = digits_val(s.subrange(5, 7));
        let d = digits_val(s.subrange(8, 10));
        if date_valid(y as int, m as int, d as int) {
            Some(Date { year: y as u16, month: m as u8, day: d as u8 })
        } else {
            None
        }
    } else {
        None
    }
}

/// How a date token reads, `today` supplying the anchor for relative forms:
/// a digit-leading token is an absolute ISO date; otherwise the first
/// character picks an anchor (`d`/`D` today, `y`/`Y` first/last of year,
/// `m`/`M` first/last of month) offset by the signed integer that follows.
pub open spec fn spec_parse_token(s: Seq<char>, today: Date) -> Result<Date, ParseError> {
    if s.len() == 0 {
        Err(ParseError::Empty)
    } else if is_digit_char(s[0]) {
        match spec_parse_iso(s) {
            Some(d) => Ok(d),
            None => Err(ParseError::BadFormat),
        }
    } else {
        let off = if s.len() == 1 {
            Some(0int)
        } else {
            spec_parse_i32(s.skip(1))
        };
        match off {
            None => Err(ParseError::InvalidOffset),
            Some(o) => {
                let shifted = if s[0] == 'd' || s[0] == 'D' {
                    spec_shift_days(today, o)
                } else if s[0] == 'y' {
                    spec_shift_years(spec_first_of(today, Datepart::Year), o)
                } else if s[0] == 'Y' {
                    spec_shift_years(spec_last_of(today, Datepart::Year), o)
                } else if s[0] == 'm' {
                    spec_shift_months(spec_first_of(today, Datepart::Month), o)
                } else if s[0] == 'M' {
                    match spec_shift_months(today, o) {
                        Some(dt) => Some(spec_last_of(dt, Datepart::Month)),
                        None => None,
                    }
                } else {
                    None
                };
                match shifted {
                    Some(d) => Ok(d),
                    None => Err(ParseError::InvalidFirstChar),
                }
            },
        }
    }
}

impl Date {
    /// Renders as `yyyy-mm-dd`.
    pub fn render(self) -> (r: String)
        requires
            self.wf(),
        ensures
            r@ == date_text(self),
    {
        let mut r = padded_num_string(self.year as u64, 4);
        let m = padded_num_string(self.month as u64, 2);
        let d = padded_num_string(self.day as u64, 2);
        r.append("-");
        r.append(m.as_str());
        r.append("-");
        r.append(d.as_str());
        proof {
            reveal_strlit("-");
            assert(("-")@ =~= seq!['-']);
            assert(r@ =~= date_text(self));
        }
        r
    }

    /// Parses a date token. A digit-leading token must be the strict
    /// `yyyy-mm-dd` form — no other ISO spelling is read; anything else is
    /// an anchor character with a signed offset, relative to `today`.
    pub fn parse(s: &str, today: Date) -> (r: Result<Date, ParseError>)
        requires
            today.wf(),
        ensures
            r == spec_parse_token(s@, today),
            r matches Ok(d) ==> d.wf(),
    {
        let cs = chars_of(s);
        if cs.len() == 0 {
            return Err(ParseError::Empty);
        }
        let c0 = cs[0];
        let leading_digit = match c0 {
            '0' | '1' | '2' | '3' | '4' | '5' | '6' | '7' | '8' | '9' => true,
            _ => false,
        };
        if leading_digit {
            return match parse_iso(&cs) {
                Some(d) => Ok(d),
                None => Err(ParseError::BadFormat),
            };
        }
        let off: i32 = if cs.len() == 1 {
            0
        } else {
            match parse_i32_from(&cs, 1) {
                Some(o) => o,
                None => {
                    return Err(ParseError::InvalidOffset);
                },
            }
        };
        let shifted: Option<Date> = match c0 {
            'd' | 'D' => today.shift(Datepart::Day, off),
            'y' => today.first_of(Datepart::Year).shift(Datepart::Year, off),
            'Y' => today.last_of(Datepart::Year).shift(Datepart::Year, off),
            'm' => today.first_of(Datepart::Month).shift(Datepart::Month, off),
            'M' => match today.shift(Datepart::Month, off) {
                Some(dt) => Some(dt.last_of(Datepart::Month)),
                None => None,
            },
            _ => None,
        };
        match shifted {
            Some(d) => Ok(d),
            None => Err(ParseError::InvalidFirstChar),
        }
    }
}

/// Strict `yyyy-mm-dd`.
fn parse_iso(cs: &Vec<char>) -> (r: Option<Date>)
    ensures
        r == spec_parse_iso(cs@),
        r matches Some(d) ==> d.wf(),
{
    if cs.len() != 10 {
        return None;
    }
    if !(cs[4] == '-' && cs[7] == '-') {
        return None;
    }
    let y = match parse_field(cs, 0, 4) {
        Some(v) => v,
        None => {
            return None;
        },
    };
    let m = match parse_field(cs, 5, 7) {
        Some(v) => v,
        None => {
            return None;
        },
    };
    let d = match parse_field(cs, 8, 10) {
        Some(v) => v,
        None => {
            return None;
        },
    };
    proof {
        crate::text::lemma_digits_val_bound(cs@.subrange(0, 4));
        crate::text::lemma_digits_val_bound(cs@.subrange(5, 7));
        crate::text::lemma_digits_val_bound(cs@.subrange(8, 10));
        crate::util::lemma_pow10_18_19_20();
        reveal_with_fuel(crate::util::pow10, 5);
        assert(cs@.take(4) =~= cs@.subrange(0, 4));
    }
    Date::from_ymd(y as u16, m as u16, d as u16)
}

/// The value of the all-digit run `cs[from..to]`, if it is one.
fn parse_field(cs: &Vec<char>, from: usize, to: usize) -> (r: Option<u32>)
    requires
        from <= to <= cs@.len(),
        to - from <= 5,
    ensures
        match r {
            Some(v) => all_digit_chars(cs@.subrange(from as int, to as int)) && v == digits_val(
                cs@.subrange(from as int, to as int),
            ),
            None => !all_digit_chars(cs@.subrange(from as int, to as int)),
        },
{
    let ghost ds = cs@.subrange(from as int, to as int);
    let mut acc: u32 = 0;
    let mut j: usize = from;
    while j < to
        invariant
            from <= j <= to <= cs@.len(),
            to - from <= 5,
            ds == cs@.subrange(from as int, to as int),
            acc == digits_val(ds.take(j - from)),
            all_digit_chars(ds.take(j - from)),
            acc < crate::util::pow10((j - from) as nat),
        decreases to - j,
    {
        let c = cs[j];
        let d: u32 = match c {
            '0' => 0,
            '1' => 1,
            '2' => 2,
            '3' => 3,
            '4' => 4,
            '5' => 5,
            '6' => 6,
            '7' => 7,
            '8' => 8,
            '9' => 9,
            _ => {
                proof {
                    assert(ds[j - from] == c);
                    assert(!is_digit_char(c));
                    assert(!all_digit_chars(ds));
                }
                return None;
            },
        };
        proof {
            let k = j - from;
            assert(is_digit_char(c) && char_digit(c) == d);
            assert(ds.take(k + 1).drop_last() =~= ds.take(k));
            assert(ds.take(k + 1).last() == c);
            reveal_with_fuel(crate::util::pow10, 7);
            assert(acc * 10 + d < crate::util::pow10((k + 1) as nat)) by (nonlinear_arith)
                requires
                    acc < crate::util::pow10(k as nat),
                    d < 10,
                    crate::util::pow10((k + 1) as nat) == 10 * crate::util::pow10(k as nat),
            ;
            assert(crate::util::pow10((to - from) as nat) <= 100000) by {
                reveal_with_fuel(crate::util::pow10, 7);
                crate::util::lemma_pow10_increases((to - from) as nat, 5);
            }
            crate::util::lemma_pow10_increases((k + 1) as nat, 5);
        }
        acc = acc * 10 + d;
        j = j + 1;
    }
    proof {
        assert(ds.take(ds.len() as int) =~= ds);
    }
    Some(acc)
}

/// Walking one unit of `part` forward from anywhere in a calendar period
/// lands on the day after the period's last day; at the top of the range
/// the walk fails exactly when the period ends at the largest date.
pub proof fn lemma_period_contiguous(d: Date, part: Datepart)
    requires
        d.wf(),
    ensures
        spec_last_of(d, part) == spec_max_date() <==> spec_shift(d, part, 1) is None,
        spec_shift(d, part, 1) matches Some(n) ==> n.wf() && spec_first_of(n, part)
            == spec_next_date(spec_last_of(d, part)) && spec_last_of(d, part).wf(),
{
    match part {
        Datepart::Day => {
            if d == spec_max_date() {
            } else {
                assert(spec_shift_days(d, 1) == spec_shift_days(spec_next_date(d), 0));
            }
        },
        Datepart::Month => {
            let total = d.spec_year() * 12 + (d.spec_month() - 1) + 1;
            if d.spec_year() == 9999 && d.spec_month() == 12 {
                assert(total > 9999 * 12 + 11);
            } else {
                assert(total == d.spec_year() * 12 + d.spec_month());
                assert(0 <= total <= 9999 * 12 + 11);
                let y = total / 12;
                let m = total % 12 + 1;
                if d.spec_month() == 12 {
                    assert(total == (d.spec_year() + 1) * 12) by (nonlinear_arith)
                        requires
                            total == d.spec_year() * 12 + 12,
                    ;
                    assert(y == d.spec_year() + 1 && m == 1) by (nonlinear_arith)
                        requires
                            total == (d.spec_year() + 1) * 12,
                            y == total / 12,
                            m == total % 12 + 1,
                            0 <= d.spec_year() + 1,
                    ;
                } else {
                    assert(y == d.spec_year() && m == d.spec_month() + 1) by (nonlinear_arith)
                        requires
                            total == d.spec_year() * 12 + d.spec_month(),
                            1 <= d.spec_month() <= 11,
                            y == total / 12,
                            m == total % 12 + 1,
                            0 <= d.spec_year(),
                    ;
                }
            }
        },
        Datepart::Year => {
            if d.spec_year() == 9999 {
            } else {
            }
        },
    }
}

/// Distinct real dates have distinct keys.
pub proof fn lemma_key_injective(a: Date, b: Date)
    requires
        a.wf(),
        b.wf(),
        a.key() == b.key(),
    ensures
        a == b,
{
    assert(1 <= a.month <= 12 && 1 <= a.day <= 31);
    assert(1 <= b.month <= 12 && 1 <= b.day <= 31);
}

/// The key ordering sees the step forward, even at the top of the range.
pub proof fn lemma_next_date_key_gt(d: Date)
    requires
        d.wf(),
    ensures
        d.key() < spec_next_date(d).key(),
{
}

} // verus!
