//! Packed date and time with a plain year field.
//!
//! The same four bytes as in [`crate::archive::datetime`], read as programs
//! without the year fix do: the year field counts from 1970 on throughout, and
//! the month field is the month itself.

use vstd::prelude::*;

use crate::bytes;
use crate::error::{Error, Result};

verus! {

/// A date and time.
#[derive(Debug, Clone, Copy, PartialEq, Eq, Structural)]
pub struct DateTime {
    /// 1970 to 2033.
    pub year: u16,
    /// 1 to 12.
    pub month: u8,
    /// 1 to 31.
    pub day: u8,
    /// 0 to 23.
    pub hour: u8,
    /// 0 to 59.
    pub minute: u8,
    /// 0 to 59.
    pub second: u8,
}

impl DateTime {
    /// All fields are in range.
    pub open spec fn valid(self) -> bool {
        &&& 1970 <= self.year <= 2033
        &&& 1 <= self.month <= 12
        &&& 1 <= self.day <= 31
        &&& self.hour <= 23
        &&& self.minute <= 59
        &&& self.second <= 59
    }

    /// All fields have room in the four bytes.
    pub open spec fn storable(self) -> bool {
        &&& 1970 <= self.year <= 2033
        &&& self.month <= 15
        &&& self.day <= 31
        &&& self.hour <= 31
        &&& self.minute <= 63
        &&& self.second <= 63
    }

    /// The first field that is not in range, as the error that names it.
    pub open spec fn defect(self) -> &'static str {
        if !(1970 <= self.year <= 2033) {
            "year must be 1970..=2033"
        } else if !(1 <= self.month <= 12) {
            "month must be 1..=12"
        } else if !(1 <= self.day <= 31) {
            "day must be 1..=31"
        } else if self.hour > 23 {
            "hour must be 0..=23"
        } else if self.minute > 59 {
            "minute must be 0..=59"
        } else {
            "second must be 0..=59"
        }
    }

    /// The fields in one number.
    pub open spec fn word(self) -> u32 {
        (self.day as u32) << 27 | (self.month as u32) << 23 | ((self.year - 1970) as u32) << 17 | (
        self.hour as u32) << 12 | (self.minute as u32) << 6 | self.second as u32
    }

    /// The fields of a number.
    pub open spec fn of_word(w: u32) -> DateTime {
        DateTime {
            year: (w / 0x2_0000 % 64 + 1970) as u16,
            month: (w / 0x80_0000 % 16) as u8,
            day: (w / 0x800_0000 % 32) as u8,
            hour: (w / 0x1000 % 32) as u8,
            minute: (w / 0x40 % 64) as u8,
            second: (w % 64) as u8,
        }
    }

    /// The start of 1970.
    pub fn zero() -> (dt: DateTime)
        ensures
            dt == (DateTime { year: 1970, month: 1, day: 1, hour: 0, minute: 0, second: 0 }),
    {
        DateTime { year: 1970, month: 1, day: 1, hour: 0, minute: 0, second: 0 }
    }

    /// A date and time, where all fields are in range.
    pub fn try_new(year: u16, month: u8, day: u8, hour: u8, minute: u8, second: u8) -> (r: Result<
        Self,
    >)
        ensures
            ({
                let dt = DateTime { year, month, day, hour, minute, second };
                r == (if dt.valid() {
                    Ok::<DateTime, Error>(dt)
                } else {
                    Err::<DateTime, Error>(Error::DateOutOfRange(dt.defect()))
                })
            }),
    {
        let dt = DateTime { year, month, day, hour, minute, second };
        dt.validate()?;
        Ok(dt)
    }

    fn validate(&self) -> (r: Result<()>)
        ensures
            r == (if self.valid() {
                Ok::<(), Error>(())
            } else {
                Err::<(), Error>(Error::DateOutOfRange(self.defect()))
            }),
    {
        if self.year < 1970 || self.year > 2033 {
            return Err(Error::DateOutOfRange("year must be 1970..=2033"));
        }
        if self.month < 1 || self.month > 12 {
            return Err(Error::DateOutOfRange("month must be 1..=12"));
        }
        if self.day < 1 || self.day > 31 {
            return Err(Error::DateOutOfRange("day must be 1..=31"));
        }
        if self.hour > 23 {
            return Err(Error::DateOutOfRange("hour must be 0..=23"));
        }
        if self.minute > 59 {
            return Err(Error::DateOutOfRange("minute must be 0..=59"));
        }
        if self.second > 59 {
            return Err(Error::DateOutOfRange("second must be 0..=59"));
        }
        Ok(())
    }

    /// The four bytes.
    pub fn pack(self) -> (b: [u8; 4])
        requires
            self.year >= 1970,
        ensures
            b@ == bytes::be32(self.word()),
    {
        let w: u32 = (self.day as u32) << 27 | (self.month as u32) << 23 | (self.year as u32
            - 1970) << 17 | (self.hour as u32) << 12 | (self.minute as u32) << 6
            | self.second as u32;
        let b: [u8; 4] = [
            (w / 0x100_0000) as u8,
            (w / 0x1_0000 % 256) as u8,
            (w / 0x100 % 256) as u8,
            (w % 256) as u8,
        ];
        assert(b@ =~= bytes::be32(w));
        b
    }

    /// What four bytes stand for. They may hold fields that are out of range.
    pub fn unpack(bytes: [u8; 4]) -> (dt: Self)
        ensures
            dt == DateTime::of_word(bytes::be32_at(bytes@, 0)),
    {
        let w = bytes::read_be32(&bytes, 0);
        DateTime {
            year: (w / 0x2_0000 % 64 + 1970) as u16,
            month: (w / 0x80_0000 % 16) as u8,
            day: (w / 0x800_0000 % 32) as u8,
            hour: (w / 0x1000 % 32) as u8,
            minute: (w / 0x40 % 64) as u8,
            second: (w % 64) as u8,
        }
    }
}

impl Default for DateTime {
    fn default() -> (dt: DateTime)
        ensures
            dt == (DateTime { year: 1970, month: 1, day: 1, hour: 0, minute: 0, second: 0 }),
    {
        DateTime::zero()
    }
}

/// A date and time whose fields have room comes back from its four bytes.
pub proof fn lemma_pack_round_trip(dt: DateTime)
    requires
        dt.storable(),
    ensures
        DateTime::of_word(dt.word()) == dt,
        DateTime::of_word(bytes::be32_at(bytes::be32(dt.word()), 0)) == dt,
{
    let day = dt.day as u32;
    let month = dt.month as u32;
    let year = (dt.year - 1970) as u32;
    let hour = dt.hour as u32;
    let minute = dt.minute as u32;
    let second = dt.second as u32;
    let w = dt.word();
    assert(w / 0x2_0000 % 64 == year && w / 0x80_0000 % 16 == month && w / 0x800_0000 % 32 == day
        && w / 0x1000 % 32 == hour && w / 0x40 % 64 == minute && w % 64 == second) by (bit_vector)
        requires
            w == day << 27 | month << 23 | year << 17 | hour << 12 | minute << 6 | second,
            day < 32,
            month < 16,
            year < 64,
            hour < 32,
            minute < 64,
            second < 64,
    ;
    let b = bytes::be32(w);
    assert(b.subrange(0, 4) =~= b);
    bytes::lemma_be32(w, b, 0);
}

/// Any four bytes come back from the date and time that they stand for.
pub proof fn lemma_unpack_round_trip(w: u32)
    ensures
        DateTime::of_word(w).word() == w,
        DateTime::of_word(w).storable(),
{
    let dt = DateTime::of_word(w);
    let day = dt.day as u32;
    let month = dt.month as u32;
    let year = (dt.year - 1970) as u32;
    let hour = dt.hour as u32;
    let minute = dt.minute as u32;
    let second = dt.second as u32;
    assert(w == day << 27 | month << 23 | year << 17 | hour << 12 | minute << 6 | second)
        by (bit_vector)
        requires
            w / 0x2_0000 % 64 == year,
            w / 0x80_0000 % 16 == month,
            w / 0x800_0000 % 32 == day,
            w / 0x1000 % 32 == hour,
            w / 0x40 % 64 == minute,
            w % 64 == second,
    ;
}

/// Where each field stands in the number: the second in the lowest six bits, then
/// the minute in six, the hour in five, the year in six, the month in four and the
/// day in five.
pub proof fn lemma_word_layout(dt: DateTime)
    requires
        dt.storable(),
    ensures
        dt.word() == dt.second + 0x40 * dt.minute + 0x1000 * dt.hour + 0x2_0000 * (dt.year - 1970)
            + 0x80_0000 * dt.month + 0x800_0000 * dt.day,
{
    let day = dt.day as u32;
    let month = dt.month as u32;
    let year = (dt.year - 1970) as u32;
    let hour = dt.hour as u32;
    let minute = dt.minute as u32;
    let second = dt.second as u32;
    let w = dt.word();
    assert(w == second + 0x40 * minute + 0x1000 * hour + 0x2_0000 * year + 0x80_0000 * month
        + 0x800_0000 * day) by (bit_vector)
        requires
            w == day << 27 | month << 23 | year << 17 | hour << 12 | minute << 6 | second,
            day < 32,
            month < 16,
            year < 64,
            hour < 32,
            minute < 64,
            second < 64,
    ;
}

/// Every second of every day from 1970 to 2033 can be told, and a day up to the
/// 31st of any month, and nothing else is accepted.
pub proof fn lemma_valid(dt: DateTime)
    ensures
        dt.valid() <==> {
            &&& 1970 <= dt.year < 1970 + 64
            &&& 0 < dt.month < 13
            &&& 0 < dt.day < 32
            &&& 3600 * dt.hour < 86400
            &&& 60 * dt.minute < 3600
            &&& dt.second < 60
        },
        dt.valid() ==> dt.storable(),
{
}

} // verus!
