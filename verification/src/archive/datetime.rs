//! Packed date and time.
//!
//! Four bytes, the most significant one first: the day in five bits, the month
//! less one in four, the year in six, the hour in five, the minute and the
//! second in six each. The year field has four pieces:
//!
//! | field | years     |
//! |-------|-----------|
//! | 8-29  | 1978-1999 |
//! | 58-63 | 2000-2005 |
//! | 30-57 | 2006-2033 |
//! | 0-7   | 2034-2041 |

use std::time::{Duration, SystemTime, UNIX_EPOCH};

use vstd::prelude::*;

use crate::archive::calendar;
use crate::archive::calendar::{civil_to_days, days_to_civil};
use crate::bytes;
use crate::error::{Error, Result};

verus! {

/// A date and time.
#[derive(Debug, Clone, Copy, PartialEq, Eq, Structural)]
pub struct DateTime {
    /// 1978 to 2041.
    pub year: u16,
    /// 1 to 12.
    pub month: u8,
    /// 1 to 31.
    pub day: u8,
    /// 0 to 23.
    pub hour: u8,
    /// 0 to 59.
    pub minute: u8,
    /// 0 to 59.
    pub second: u8,
}

/// The six-bit year field.
pub open spec fn year_field(year: u16) -> u32 {
    if 1978 <= year <= 1999 {
        (year - 1970) as u32
    } else if 2000 <= year <= 2005 {
        (year - 1942) as u32
    } else if 2006 <= year <= 2033 {
        (year - 1976) as u32
    } else if 2034 <= year <= 2041 {
        (year - 2034) as u32
    } else {
        0
    }
}

/// The year of a six-bit field.
pub open spec fn field_year(field: u32) -> int {
    if field <= 7 {
        field + 2034
    } else if field <= 29 {
        field + 1970
    } else if field <= 57 {
        field + 1976
    } else {
        field + 1942
    }
}

/// The month less one, cut to four bits.
pub open spec fn month_field(month: u8) -> u32 {
    (if month == 0 {
        0u32
    } else {
        (month - 1) as u32
    }) & 0xf
}

impl DateTime {
    /// All fields are in range.
    pub open spec fn valid(self) -> bool {
        &&& 1978 <= self.year <= 2041
        &&& 1 <= self.month <= 12
        &&& 1 <= self.day <= 31
        &&& self.hour <= 23
        &&& self.minute <= 59
        &&& self.second <= 59
    }

    /// The year is one that the format knows, and the other fields have room in
    /// the four bytes.
    pub open spec fn storable(self) -> bool {
        &&& 1978 <= self.year <= 2041
        &&& 1 <= self.month <= 16
        &&& self.day <= 31
        &&& self.hour <= 31
        &&& self.minute <= 63
        &&& self.second <= 63
    }

    /// The first field that is not in range, as the error that names it.
    pub open spec fn defect(self) -> &'static str {
        if !(1978 <= self.year <= 2041) {
            "year must be 1978..=2041"
        } else if !(1 <= self.month <= 12) {
            "month must be 1..=12"
        } else if !(1 <= self.day <= 31) {
            "day must be 1..=31"
        } else if self.hour > 23 {
            "hour must be 0..=23"
        } else if self.minute > 59 {
            "minute must be 0..=59"
        } else {
            "second must be 0..=59"
        }
    }

    /// The fields in one number.
    pub open spec fn word(self) -> u32 {
        (self.day as u32) << 27 | month_field(self.month) << 23 | year_field(self.year) << 17 | (
        self.hour as u32) << 12 | (self.minute as u32) << 6 | self.second as u32
    }

    /// The fields of a number.
    pub open spec fn of_word(w: u32) -> DateTime {
        DateTime {
            year: field_year(w / 0x2_0000 % 64) as u16,
            month: (w / 0x80_0000 % 16 + 1) as u8,
            day: (w / 0x800_0000 % 32) as u8,
            hour: (w / 0x1000 % 32) as u8,
            minute: (w / 0x40 % 64) as u8,
            second: (w % 64) as u8,
        }
    }

    /// The first instant there is: the start of 1978.
    pub fn zero() -> (dt: DateTime)
        ensures
            dt == (DateTime { year: 1978, month: 1, day: 1, hour: 0, minute: 0, second: 0 }),
    {
        DateTime { year: 1978, month: 1, day: 1, hour: 0, minute: 0, second: 0 }
    }

    /// A date and time, where all fields are in range. The day may be one that
    /// the month does not have.
    pub fn try_new(year: u16, month: u8, day: u8, hour: u8, minute: u8, second: u8) -> (r: Result<
        Self,
    >)
        ensures
            ({
                let dt = DateTime { year, month, day, hour, minute, second };
                r == (if dt.valid() {
                    Ok::<DateTime, Error>(dt)
                } else {
                    Err::<DateTime, Error>(Error::DateOutOfRange(dt.defect()))
                })
            }),
    {
        let dt = DateTime { year, month, day, hour, minute, second };
        dt.validate()?;
        Ok(dt)
    }

    fn validate(&self) -> (r: Result<()>)
        ensures
            r == (if self.valid() {
                Ok::<(), Error>(())
            } else {
                Err::<(), Error>(Error::DateOutOfRange(self.defect()))
            }),
    {
        if self.year < 1978 || self.year > 2041 {
            return Err(Error::DateOutOfRange("year must be 1978..=2041"));
        }
        if self.month < 1 || self.month > 12 {
            return Err(Error::DateOutOfRange("month must be 1..=12"));
        }
        if self.day < 1 || self.day > 31 {
            return Err(Error::DateOutOfRange("day must be 1..=31"));
        }
        if self.hour > 23 {
            return Err(Error::DateOutOfRange("hour must be 0..=23"));
        }
        if self.minute > 59 {
            return Err(Error::DateOutOfRange("minute must be 0..=59"));
        }
        if self.second > 59 {
            return Err(Error::DateOutOfRange("second must be 0..=59"));
        }
        Ok(())
    }

    /// The four bytes.
    pub fn pack(self) -> (b: [u8; 4])
        ensures
            b@ == bytes::be32(self.word()),
    {
        let year: u32 = if 1978 <= self.year && self.year <= 1999 {
            self.year as u32 - 1970
        } else if 2000 <= self.year && self.year <= 2005 {
            self.year as u32 - 1942
        } else if 2006 <= self.year && self.year <= 2033 {
            self.year as u32 - 1976
        } else if 2034 <= self.year && self.year <= 2041 {
            self.year as u32 - 2034
        } else {
            0
        };
        let month: u32 = if self.month == 0 {
            0
        } else {
            self.month as u32 - 1
        } & 0xf;
        let w: u32 = (self.day as u32) << 27 | month << 23 | year << 17 | (self.hour as u32) << 12
            | (self.minute as u32) << 6 | self.second as u32;
        let b: [u8; 4] = [
            (w / 0x100_0000) as u8,
            (w / 0x1_0000 % 256) as u8,
            (w / 0x100 % 256) as u8,
            (w % 256) as u8,
        ];
        assert(b@ =~= bytes::be32(w));
        b
    }

    /// What four bytes stand for. They may hold fields that are out of range.
    pub fn unpack(bytes: [u8; 4]) -> (dt: Self)
        ensures
            dt == DateTime::of_word(bytes::be32_at(bytes@, 0)),
    {
        Self::from_word(bytes::read_be32(&bytes, 0))
    }

    /// What the fields in one number stand for.
    pub(crate) fn from_word(w: u32) -> (dt: Self)
        ensures
            dt == DateTime::of_word(w),
    {
        let field: u32 = w / 0x2_0000 % 64;
        let year: u32 = if field <= 7 {
            field + 2034
        } else if field <= 29 {
            field + 1970
        } else if field <= 57 {
            field + 1976
        } else {
            field + 1942
        };
        DateTime {
            year: year as u16,
            month: (w / 0x80_0000 % 16 + 1) as u8,
            day: (w / 0x800_0000 % 32) as u8,
            hour: (w / 0x1000 % 32) as u8,
            minute: (w / 0x40 % 64) as u8,
            second: (w % 64) as u8,
        }
    }
}

/// The instant 1978-01-01 00:00:00 in seconds since the Unix epoch.
pub const MIN_SECS: u64 = 252_460_800;

/// The instant 2041-12-31 23:59:59 in seconds since the Unix epoch.
pub const MAX_SECS: u64 = 2_272_147_199;

/// The last second of the year 9999 in seconds since the Unix epoch.
pub const FAR_SECS: u64 = 253_402_300_799;

#[verifier::external_type_specification]
#[verifier::external_body]
pub struct ExSystemTime(std::time::SystemTime);

/// The time from the Unix epoch to an instant in whole seconds and the
/// nanoseconds behind them, or nothing where the instant is earlier, as
/// `SystemTime::duration_since` tells it.
pub uninterp spec fn since_epoch(t: SystemTime) -> Option<(u64, u32)>;

/// `SystemTime::duration_since` the Unix epoch, in whole seconds and the
/// nanoseconds behind them. An error says that the instant is before the epoch.
#[verifier::external_body]
fn time_since_epoch(t: SystemTime) -> (r: Option<(u64, u32)>)
    ensures
        r == since_epoch(t),
{
    match t.duration_since(UNIX_EPOCH) {
        Ok(d) => Some((d.as_secs(), d.subsec_nanos())),
        Err(_) => None,
    }
}

/// The sum of the Unix epoch and a `Duration` of whole seconds. Its distance
/// from the epoch is that duration again. An instant that the system cannot
/// represent would be a panic, so the seconds stop at the year 9999.
#[verifier::external_body]
fn epoch_plus(secs: u64) -> (t: SystemTime)
    requires
        secs <= FAR_SECS,
    ensures
        since_epoch(t) == Some((secs, 0u32)),
{
    UNIX_EPOCH + Duration::from_secs(secs)
}

/// The whole seconds from the Unix epoch to an instant, or nothing where the
/// instant is earlier.
pub open spec fn unix_seconds(t: SystemTime) -> Option<u64> {
    match since_epoch(t) {
        Some((secs, _)) => Some(secs),
        None => None,
    }
}

/// The date and time stands for the seconds, or for the nearest ones that it
/// can, which the flag tells.
pub open spec fn clamps(secs: Option<u64>, r: (DateTime, bool)) -> bool {
    match secs {
        None => r == (DateTime::first(), true),
        Some(s) => if s < MIN_SECS {
            r == (DateTime::first(), true)
        } else if s > MAX_SECS {
            r == (DateTime::last(), true)
        } else {
            &&& !r.1
            &&& r.0.valid()
            &&& r.0.on_calendar()
            &&& r.0.seconds() == s
        },
    }
}

impl DateTime {
    pub open spec fn first() -> DateTime {
        DateTime { year: 1978, month: 1, day: 1, hour: 0, minute: 0, second: 0 }
    }

    pub open spec fn last() -> DateTime {
        DateTime { year: 2041, month: 12, day: 31, hour: 23, minute: 59, second: 59 }
    }

    /// The calendar has the date.
    pub open spec fn on_calendar(self) -> bool {
        calendar::is_date(self.year as int, self.month as int, self.day as int)
    }

    /// The seconds from the Unix epoch on.
    pub open spec fn seconds(self) -> int {
        86400 * calendar::day_number(self.year as int, self.month as int, self.day as int) + 3600
            * self.hour + 60 * self.minute + self.second
    }

    /// The date and time of an instant in seconds since the Unix epoch, where
    /// nothing stands for an instant before that. Instants that are too early
    /// or too late give the first or last one there is, and the flag is set.
    pub fn from_unix_seconds_clamped(secs: Option<u64>) -> (r: (Self, bool))
        ensures
            clamps(secs, r),
    {
        let s: u64 = match secs {
            Some(s) => s,
            None => {
                return (Self::zero(), true);
            },
        };
        if s < MIN_SECS {
            return (Self::zero(), true);
        }
        if s > MAX_SECS {
            return (
                DateTime { year: 2041, month: 12, day: 31, hour: 23, minute: 59, second: 59 },
                true,
            );
        }
        let days: i64 = (s / 86_400) as i64;
        let day_secs: u32 = (s % 86_400) as u32;
        let hour: u8 = (day_secs / 3600) as u8;
        let minute: u8 = (day_secs % 3600 / 60) as u8;
        let second: u8 = (day_secs % 60) as u8;
        let (year, month, day) = days_to_civil(days);
        proof {
            calendar::lemma_year_of(year as int, month as int, day as int, 1978, 2041);
        }
        (DateTime { year: year as u16, month, day, hour, minute, second }, false)
    }

    /// The seconds from the Unix epoch on.
    pub fn to_unix_seconds(self) -> (secs: u64)
        requires
            1 <= self.year,
            !(self.month == 3 && self.day == 0),
            self.seconds() >= 0,
        ensures
            secs == self.seconds(),
    {
        let days = civil_to_days(self.year as i32, self.month, self.day);
        let secs: i64 = days as i64 * 86_400 + self.hour as i64 * 3600 + self.minute as i64 * 60
            + self.second as i64;
        secs as u64
    }

    /// The date and time of an instant. Instants that are too early or too late
    /// give the first or last one there is, and the flag is set.
    pub fn from_system_time_clamped(t: SystemTime) -> (r: (Self, bool))
        ensures
            clamps(unix_seconds(t), r),
    {
        let secs: Option<u64> = match time_since_epoch(t) {
            Some((secs, _)) => Some(secs),
            None => None,
        };
        Self::from_unix_seconds_clamped(secs)
    }

    /// The instant of a date and time, which begins its second.
    pub fn to_system_time(self) -> (t: SystemTime)
        requires
            1 <= self.year,
            !(self.month == 3 && self.day == 0),
            0 <= self.seconds() <= FAR_SECS,
        ensures
            since_epoch(t) == Some((self.seconds() as u64, 0u32)),
    {
        epoch_plus(self.to_unix_seconds())
    }
}

/// The seconds of a day tell the time apart, and all seconds the day.
proof fn lemma_same_instant(
    day: int,
    hour: int,
    minute: int,
    second: int,
    day2: int,
    hour2: int,
    minute2: int,
    second2: int,
)
    requires
        0 <= hour < 24 && 0 <= minute < 60 && 0 <= second < 60,
        0 <= hour2 < 24 && 0 <= minute2 < 60 && 0 <= second2 < 60,
        86400 * day + 3600 * hour + 60 * minute + second == 86400 * day2 + 3600 * hour2 + 60
            * minute2 + second2,
    ensures
        day == day2,
        hour == hour2,
        minute == minute2,
        second == second2,
{
}

proof fn lemma_first_and_last_day()
    ensures
        86400 * calendar::day_number(1978, 1, 1) == MIN_SECS,
        86400 * calendar::day_number(2042, 1, 1) == MAX_SECS + 1,
{
}

/// A date and time on the calendar comes back from its instant.
pub proof fn lemma_instant_round_trip(dt: DateTime, r: (DateTime, bool))
    requires
        dt.valid(),
        dt.on_calendar(),
        clamps(Some(dt.seconds() as u64), r),
    ensures
        r == (dt, false),
{
    let b = r.0;
    let n = calendar::day_number(dt.year as int, dt.month as int, dt.day as int);
    let m = calendar::day_number(b.year as int, b.month as int, b.day as int);
    assert(MIN_SECS <= dt.seconds() <= MAX_SECS) by {
        calendar::lemma_date_range(dt.year as int, dt.month as int, dt.day as int, 1978, 2041);
        lemma_first_and_last_day();
    }
    lemma_same_instant(
        n,
        dt.hour as int,
        dt.minute as int,
        dt.second as int,
        m,
        b.hour as int,
        b.minute as int,
        b.second as int,
    );
    calendar::lemma_day_number_unique(
        dt.year as int,
        dt.month as int,
        dt.day as int,
        b.year as int,
        b.month as int,
        b.day as int,
    );
}

/// An instant in range that begins a second comes back from its date and time.
pub proof fn lemma_system_time_round_trip(t: SystemTime, r: (DateTime, bool), back: SystemTime)
    requires
        since_epoch(t) matches Some((secs, nanos)) && MIN_SECS <= secs <= MAX_SECS && nanos == 0,
        clamps(unix_seconds(t), r),
        since_epoch(back) == Some((r.0.seconds() as u64, 0u32)),
    ensures
        !r.1,
        since_epoch(back) == since_epoch(t),
{
}

impl Default for DateTime {
    fn default() -> (dt: DateTime)
        ensures
            dt == (DateTime { year: 1978, month: 1, day: 1, hour: 0, minute: 0, second: 0 }),
    {
        DateTime::zero()
    }
}

/// A date and time whose fields have room comes back from its four bytes.
pub proof fn lemma_pack_round_trip(dt: DateTime)
    requires
        dt.storable(),
    ensures
        DateTime::of_word(dt.word()) == dt,
        DateTime::of_word(bytes::be32_at(bytes::be32(dt.word()), 0)) == dt,
{
    let day = dt.day as u32;
    let month = month_field(dt.month);
    let m = (dt.month - 1) as u32;
    let year = year_field(dt.year);
    let hour = dt.hour as u32;
    let minute = dt.minute as u32;
    let second = dt.second as u32;
    assert(m & 0xf == m) by (bit_vector)
        requires
            m < 16,
    ;
    let w = dt.word();
    assert(w / 0x2_0000 % 64 == year && w / 0x80_0000 % 16 == month && w / 0x800_0000 % 32 == day
        && w / 0x1000 % 32 == hour && w / 0x40 % 64 == minute && w % 64 == second) by (bit_vector)
        requires
            w == day << 27 | month << 23 | year << 17 | hour << 12 | minute << 6 | second,
            day < 32,
            month < 16,
            year < 64,
            hour < 32,
            minute < 64,
            second < 64,
    ;
    let b = bytes::be32(w);
    assert(b.subrange(0, 4) =~= b);
    bytes::lemma_be32(w, b, 0);
}

/// Any four bytes come back from the date and time that they stand for.
pub proof fn lemma_unpack_round_trip(w: u32)
    ensures
        DateTime::of_word(w).word() == w,
        DateTime::of_word(w).storable(),
{
    let dt = DateTime::of_word(w);
    let day = dt.day as u32;
    let month = month_field(dt.month);
    let m = w / 0x80_0000 % 16;
    let year = year_field(dt.year);
    let hour = dt.hour as u32;
    let minute = dt.minute as u32;
    let second = dt.second as u32;
    assert(m & 0xf == m) by (bit_vector)
        requires
            m < 16,
    ;
    assert(w == day << 27 | month << 23 | year << 17 | hour << 12 | minute << 6 | second)
        by (bit_vector)
        requires
            w / 0x2_0000 % 64 == year,
            w / 0x80_0000 % 16 == month,
            w / 0x800_0000 % 32 == day,
            w / 0x1000 % 32 == hour,
            w / 0x40 % 64 == minute,
            w % 64 == second,
    ;
}

/// Where each field stands in the number: the second in the lowest six bits, then
/// the minute in six, the hour in five, the year in six, the month in four and the
/// day in five. The years
/// up to 1999 count from 1970 on, those up to 2005 follow at 58, those up to 2033
/// at 30, and those up to 2041 at 0.
pub proof fn lemma_word_layout(dt: DateTime)
    requires
        dt.storable(),
    ensures
        ({
            let year = if dt.year <= 1999 {
                dt.year - 1970
            } else if dt.year <= 2005 {
                dt.year - 2000 + 58
            } else if dt.year <= 2033 {
                dt.year - 2006 + 30
            } else {
                dt.year - 2034
            };
            dt.word() == dt.second + 0x40 * dt.minute + 0x1000 * dt.hour + 0x2_0000 * year
                + 0x80_0000 * (dt.month - 1) + 0x800_0000 * dt.day
        }),
{
    let day = dt.day as u32;
    let month = month_field(dt.month);
    let year = year_field(dt.year);
    let hour = dt.hour as u32;
    let minute = dt.minute as u32;
    let second = dt.second as u32;
    let m = (dt.month - 1) as u32;
    assert(m & 0xf == m) by (bit_vector)
        requires
            m < 16,
    ;
    let w = dt.word();
    assert(w == second + 0x40 * minute + 0x1000 * hour + 0x2_0000 * year + 0x80_0000 * month
        + 0x800_0000 * day) by (bit_vector)
        requires
            w == day << 27 | month << 23 | year << 17 | hour << 12 | minute << 6 | second,
            day < 32,
            month < 16,
            year < 64,
            hour < 32,
            minute < 64,
            second < 64,
    ;
}

/// Every second of every day from 1978 to 2041 can be told, and a day up to the
/// 31st of any month, and nothing else is accepted.
pub proof fn lemma_valid(dt: DateTime)
    ensures
        dt.valid() <==> {
            &&& 1978 <= dt.year < 1978 + 64
            &&& 0 < dt.month < 13
            &&& 0 < dt.day < 32
            &&& 3600 * dt.hour < 86400
            &&& 60 * dt.minute < 3600
            &&& dt.second < 60
        },
        dt.valid() ==> dt.storable(),
{
}

/// The first and the last instant are the edges of the range, and only instants
/// beyond them are moved, each to the edge that it is beyond.
pub proof fn lemma_clamped(secs: Option<u64>, r: (DateTime, bool))
    requires
        clamps(secs, r),
    ensures
        DateTime::first().seconds() == 252_460_800,
        DateTime::last().seconds() == 2_272_147_199,
        r.0.valid(),
        r.0.on_calendar(),
        r.1 <==> !(secs matches Some(s) && DateTime::first().seconds() <= s
            <= DateTime::last().seconds()),
        !r.1 ==> secs == Some(r.0.seconds() as u64),
        r.1 && (secs matches Some(s) && s > DateTime::last().seconds()) ==> r.0
            == DateTime::last(),
        r.1 && !(secs matches Some(s) && s > DateTime::last().seconds()) ==> r.0
            == DateTime::first(),
{
}

/// What becomes of fields that have no room: a year that the format does not know
/// is written as 2034 is, the month zero as the first one, and of a higher month or
/// day only the low bits count.
pub proof fn lemma_word_overflow(dt: DateTime)
    ensures
        !(1978 <= dt.year <= 2041) ==> dt.word() == (DateTime { year: 2034, ..dt }).word(),
        dt.month == 0 ==> dt.word() == (DateTime { month: 1, ..dt }).word(),
        dt.month > 16 ==> dt.word() == (DateTime { month: (dt.month - 16) as u8, ..dt }).word(),
        dt.day >= 32 ==> dt.word() == (DateTime { day: (dt.day - 32) as u8, ..dt }).word(),
{
    if dt.month == 0 {
        assert(0u32 & 0xf == 0) by (bit_vector);
    }
    if dt.month > 16 {
        let m = (dt.month - 1) as u32;
        let n = (dt.month - 16 - 1) as u32;
        assert(m & 0xf == n & 0xf) by (bit_vector)
            requires
                m == n + 16,
                m < 256,
        ;
    }
    if dt.day >= 32 {
        let d = dt.day as u32;
        let e = (dt.day - 32) as u32;
        assert(d << 27 == e << 27) by (bit_vector)
            requires
                d == e + 32,
                d < 256,
        ;
    }
}

/// An hour has 3600 seconds, a minute 60, and a day 86400.
pub proof fn lemma_seconds(dt: DateTime)
    ensures
        dt.seconds() == (DateTime { hour: 0, minute: 0, second: 0, ..dt }).seconds() + 3600 * dt.hour
            + 60 * dt.minute + dt.second,
        dt.day < 255 ==> (DateTime { day: (dt.day + 1) as u8, ..dt }).seconds() == dt.seconds()
            + 86400,
        (DateTime { year: 1970, month: 1, day: 1, hour: 0, minute: 0, second: 0 }).seconds() == 0,
{
}

} // verus!
