//! Points in time, as a directory entry stores them.

use crate::bytes::le16_bytes;
use vstd::prelude::*;

verus! {

/// Represents an instant in time, in the local time zone.
#[derive(Clone, Copy, Debug, PartialEq, Eq, Structural)]
pub struct Timestamp {
    /// Add 1970 to this to get the calendar year.
    pub year_since_1970: u8,
    /// Add one to this to get the calendar month.
    pub zero_indexed_month: u8,
    /// Add one to this to get the calendar day.
    pub zero_indexed_day: u8,
    /// The number of hours past midnight.
    pub hours: u8,
    /// The number of minutes past the hour.
    pub minutes: u8,
    /// The number of seconds past the minute.
    pub seconds: u8,
}

/// A source of the current time.
pub trait TimeSource {
    /// Get the current time of day, or the nearest thing there is.
    fn get_timestamp(&self) -> Timestamp;
}

/// Is this an instant that the time source can give?
pub open spec fn tells<T: TimeSource>(time_source: &T, now: Timestamp) -> bool {
    call_ensures(T::get_timestamp, (time_source,), now)
}

/// The instant that a stored date and a stored time stand for. A stored month
/// or day of zero, as volume labels have it, counts as the first.
pub open spec fn timestamp_of(date: u16, time: u16) -> Timestamp {
    let month = date / 32 % 16;
    let day = date % 32;
    Timestamp {
        year_since_1970: (date / 512 + 10) as u8,
        zero_indexed_month: (if month == 0 { 0 } else { month - 1 }) as u8,
        zero_indexed_day: (if day == 0 { 0 } else { day - 1 }) as u8,
        hours: (time / 2048) as u8,
        minutes: (time / 32 % 64) as u8,
        seconds: (time % 32 * 2) as u8,
    }
}

/// The stored form of a time of day, to two seconds.
pub open spec fn fat_time(t: Timestamp) -> u16 {
    (t.hours % 32 * 2048 + t.minutes % 64 * 32 + t.seconds / 2 % 32) as u16
}

/// The stored form of a date. It cannot go back beyond 1980.
pub open spec fn fat_date(t: Timestamp) -> u16 {
    let year: int = if t.year_since_1970 < 10 {
        0
    } else {
        (t.year_since_1970 - 10) % 128
    };
    (year * 512 + (t.zero_indexed_month + 1) % 16 * 32 + (t.zero_indexed_day + 1) % 32) as u16
}

/// The four bytes by which an instant is stored.
pub open spec fn fat_time_bytes(t: Timestamp) -> Seq<u8> {
    le16_bytes(fat_time(t)) + le16_bytes(fat_date(t))
}

/// Is this an instant that the stored form can express exactly?
pub open spec fn storable(t: Timestamp) -> bool {
    &&& 10 <= t.year_since_1970 < 138
    &&& t.zero_indexed_month < 12
    &&& t.zero_indexed_day < 31
    &&& t.hours < 24
    &&& t.minutes < 60
    &&& t.seconds < 60
    &&& t.seconds % 2 == 0
}

/// A year, a month and a day that are packed into one number can be taken apart.
pub proof fn lemma_packed_date(a: int, b: int, c: int)
    requires
        0 <= a,
        0 <= b < 16,
        0 <= c < 32,
    ensures
        (a * 512 + b * 32 + c) / 512 == a,
        (a * 512 + b * 32 + c) / 32 % 16 == b,
        (a * 512 + b * 32 + c) % 32 == c,
{
    assert((a * 512 + b * 32 + c) / 32 == a * 16 + b);
}

/// Hours, minutes and seconds that are packed into one number can be taken
/// apart.
pub proof fn lemma_packed_time(a: int, b: int, c: int)
    requires
        0 <= a,
        0 <= b < 64,
        0 <= c < 32,
    ensures
        (a * 2048 + b * 32 + c) / 2048 == a,
        (a * 2048 + b * 32 + c) / 32 % 64 == b,
        (a * 2048 + b * 32 + c) % 32 == c,
{
    assert((a * 2048 + b * 32 + c) / 32 == a * 64 + b);
}

/// An instant that the stored form can express is read back as it was.
pub proof fn lemma_timestamp_round_trip(t: Timestamp)
    requires
        storable(t),
    ensures
        timestamp_of(fat_date(t), fat_time(t)) == t,
{
    let year = t.year_since_1970 - 10;
    let month = t.zero_indexed_month + 1;
    let day = t.zero_indexed_day + 1;
    lemma_packed_date(year, month, day);
    lemma_packed_time(t.hours as int, t.minutes as int, (t.seconds / 2) as int);
    assert(fat_date(t) == year * 512 + month * 32 + day);
    assert(fat_time(t) == t.hours * 2048 + t.minutes * 32 + t.seconds / 2);
}

impl Timestamp {
    /// Create a `Timestamp` from the 16-bit date and time of a directory entry.
    pub fn from_fat(date: u16, time: u16) -> (timestamp: Timestamp)
        ensures
            timestamp == timestamp_of(date, time),
    {
        let month: u8 = (date / 32 % 16) as u8;
        let day: u8 = (date % 32) as u8;
        Timestamp {
            year_since_1970: (date / 512 + 10) as u8,
            zero_indexed_month: if month == 0 {
                0
            } else {
                month - 1
            },
            zero_indexed_day: if day == 0 {
                0
            } else {
                day - 1
            },
            hours: (time / 2048) as u8,
            minutes: (time / 32 % 64) as u8,
            seconds: (time % 32 * 2) as u8,
        }
    }

    /// Serialize a `Timestamp` to the four bytes of a directory entry.
    pub fn serialize_to_fat(self) -> (data: [u8; 4])
        ensures
            data@ == fat_time_bytes(self),
    {
        let time: u16 = (self.hours % 32) as u16 * 2048 + (self.minutes % 64) as u16 * 32 + (
        self.seconds / 2 % 32) as u16;
        let year: u16 = if self.year_since_1970 < 10 {
            0
        } else {
            (self.year_since_1970 as u16 - 10) % 128
        };
        let date: u16 = year * 512 + (self.zero_indexed_month as u16 + 1) % 16 * 32 + (
        self.zero_indexed_day as u16 + 1) % 32;
        let data = [(time % 256) as u8, (time / 256) as u8, (date % 256) as u8, (date / 256) as u8];
        assert(data@ =~= fat_time_bytes(self));
        data
    }
}

} // verus!
