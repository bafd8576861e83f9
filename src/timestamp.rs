//! The packed 32-bit timestamps of archive modules.
//!
//! The low half holds the date: `year - 1980` in bits 15..9, the month in
//! bits 8..5 and the day in bits 4..0. The high half holds the time: the hour
//! in bits 15..11, the minute in bits 10..5 and half the second in bits 4..0.
//! No time zone is stored.
use vstd::prelude::*;

use crate::text::{lossy_text, text_of};
use vstd::utf8::{decode_utf8, valid_utf8};

verus! {

/// A calendar date and time of day, as stored in a timestamp.
#[derive(Debug, Clone, Copy, PartialEq, Eq, Structural)]
pub struct PsyqDateTime {
    pub year: u32,
    pub month: u32,
    pub day: u32,
    pub hour: u32,
    pub minute: u32,
    pub second: u32,
}

/// `y` is a leap year of the Gregorian calendar.
pub open spec fn is_leap_year(y: int) -> bool {
    y % 4 == 0 && (y % 100 != 0 || y % 400 == 0)
}

/// The number of days in month `m` of year `y`.
pub open spec fn days_in_month(y: int, m: int) -> int {
    if m == 2 {
        if is_leap_year(y) {
            29
        } else {
            28
        }
    } else if m == 4 || m == 6 || m == 9 || m == 11 {
        30
    } else {
        31
    }
}

/// Month `m` and day `d` exist in year `y`.
pub open spec fn is_valid_date(y: int, m: int, d: int) -> bool {
    1 <= m <= 12 && 1 <= d <= days_in_month(y, m)
}

/// A time of day without leap seconds.
pub open spec fn is_valid_time(h: int, mi: int, s: int) -> bool {
    0 <= h < 24 && 0 <= mi < 60 && 0 <= s < 60
}

/// The fields stored in `t`, before any check of their ranges.
pub open spec fn timestamp_fields(t: u32) -> PsyqDateTime {
    PsyqDateTime {
        year: ((((t & 0xFFFFu32) >> 9u32) & 0x7Fu32) + 1980) as u32,
        month: ((t & 0xFFFFu32) >> 5u32) & 0xFu32,
        day: (t & 0xFFFFu32) & 0x1Fu32,
        hour: ((t >> 16u32) >> 11u32) & 0x1Fu32,
        minute: ((t >> 16u32) >> 5u32) & 0x3Fu32,
        second: (((t >> 16u32) & 0x1Fu32) * 2) as u32,
    }
}

/// The date and time stored in `t`, if it is a valid one.
pub open spec fn decode_timestamp(t: u32) -> Option<PsyqDateTime> {
    let f = timestamp_fields(t);
    if is_valid_date(f.year as int, f.month as int, f.day as int) && is_valid_time(
        f.hour as int,
        f.minute as int,
        f.second as int,
    ) {
        Some(f)
    } else {
        None
    }
}

/// The word that stores `dt`, each field cut to its width and the seconds
/// halved.
pub open spec fn encode_timestamp(dt: PsyqDateTime) -> u32 {
    ((vstd::wrapping::u32_specs::wrapping_sub(dt.year, 1980) & 0x7Fu32) << 9u32) | ((dt.month & 0xFu32) << 5u32) | (dt.day
        & 0x1Fu32) | ((dt.hour & 0x1Fu32) << 27u32) | ((dt.minute & 0x3Fu32) << 21u32) | (((
    dt.second / 2) & 0x1Fu32) << 16u32)
}

/// The two decimal digits of `n`, which is below 100.
pub open spec fn two_digits(n: int) -> Seq<u8> {
    seq![(0x30 + n / 10) as u8, (0x30 + n % 10) as u8]
}

/// The number of days from 1970-01-01 to the given date of the proleptic
/// Gregorian calendar, for years from 1 on.
pub open spec fn days_from_civil(y: int, m: int, d: int) -> int {
    let y1 = if m <= 2 {
        y - 1
    } else {
        y
    };
    let era = y1 / 400;
    let yoe = y1 - era * 400;
    let mp = if m > 2 {
        m - 3
    } else {
        m + 9
    };
    let doy = (153 * mp + 2) / 5 + d - 1;
    let doe = yoe * 365 + yoe / 4 - yoe / 100 + doy;
    era * 146097 + doe - 719468
}

/// Relies on `chrono::NaiveDate::from_ymd_opt`: `Some` exactly when the month
/// is 1 to 12 and the day exists in that month of that year.
#[verifier::external_body]
fn calendar_date_exists(year: i32, month: u32, day: u32) -> (r: bool)
    requires
        0 <= year <= 9999,
    ensures
        r == is_valid_date(year as int, month as int, day as int),
{
    chrono::NaiveDate::from_ymd_opt(year, month, day).is_some()
}

/// Relies on `chrono::NaiveTime::from_hms_opt`: `Some` exactly when the
/// hour is below 24 and the minute and second below 60.
#[verifier::external_body]
fn time_of_day_exists(hour: u32, minute: u32, second: u32) -> (r: bool)
    ensures
        r == is_valid_time(hour as int, minute as int, second as int),
{
    chrono::NaiveTime::from_hms_opt(hour, minute, second).is_some()
}

impl PsyqDateTime {
    /// The listing form `DD-MM-YY HH:MM:SS`.
    pub open spec fn listing_bytes(self) -> Seq<u8> {
        two_digits(self.day as int) + seq![0x2Du8] + two_digits(self.month as int) + seq![0x2Du8]
            + two_digits(self.year as int % 100) + seq![0x20u8] + two_digits(self.hour as int)
            + seq![0x3Au8] + two_digits(self.minute as int) + seq![0x3Au8] + two_digits(
            self.second as int,
        )
    }

    /// Seconds from 1970-01-01T00:00:00 to this date and time, both read as UTC.
    pub open spec fn unix_seconds(self) -> int {
        days_from_civil(self.year as int, self.month as int, self.day as int) * 86400 + self.hour
            * 3600 + self.minute * 60 + self.second
    }

    /// The date and time stored in `t`, or `None` when a field is out of its
    /// calendar range.
    pub fn from_psyq_timestamp(t: u32) -> (r: Option<PsyqDateTime>)
        ensures
            r == decode_timestamp(t),
    {
        let date = t & 0xFFFF;
        let time = t >> 16;
        assert((date >> 9) & 0x7F <= 0x7F) by (bit_vector);
        assert(time & 0x1F <= 0x1F) by (bit_vector);
        let year = ((date >> 9) & 0x7F) + 1980;
        let month = (date >> 5) & 0xF;
        let day = date & 0x1F;
        let hour = (time >> 11) & 0x1F;
        let minute = (time >> 5) & 0x3F;
        let second = (time & 0x1F) * 2;
        let dt = PsyqDateTime { year, month, day, hour, minute, second };
        assert(dt == timestamp_fields(t));
        if calendar_date_exists(year as i32, month, day) && time_of_day_exists(hour, minute, second) {
            Some(dt)
        } else {
            None
        }
    }

    /// The packed word for this date and time; each field is cut to its
    /// width and the seconds are halved.
    pub fn to_psyq_timestamp(&self) -> (r: u32)
        ensures
            r == encode_timestamp(*self),
    {
        let year = self.year.wrapping_sub(1980) & 0x7F;
        let month = self.month & 0xF;
        let day = self.day & 0x1F;
        let hour = self.hour & 0x1F;
        let minute = self.minute & 0x3F;
        let second = (self.second / 2) & 0x1F;
        (year << 9) | (month << 5) | day | (hour << 27) | (minute << 21) | (second << 16)
    }

    /// The listing form `DD-MM-YY HH:MM:SS`.
    pub fn to_listing(&self) -> (r: String)
        requires
            self.day < 100,
            self.month < 100,
            self.hour < 100,
            self.minute < 100,
            self.second < 100,
        ensures
            r@ == lossy_text(self.listing_bytes()),
            valid_utf8(self.listing_bytes()) ==> r@ == decode_utf8(self.listing_bytes()),
    {
        let fields: [u32; 6] = [self.day, self.month, self.year % 100, self.hour, self.minute, self.second];
        let seps: [u8; 5] = [0x2D, 0x2D, 0x20, 0x3A, 0x3A];
        let mut v: Vec<u8> = Vec::new();
        let mut i: usize = 0;
        while i < 6
            invariant
                i <= 6,
                forall|k: int| 0 <= k < 6 ==> #[trigger] fields@[k] < 100,
                v@.len() == if i == 0 {
                    0
                } else {
                    3 * i - 1
                },
                forall|k: int|
                    0 <= k < i ==> v@.subrange(3 * k, 3 * k + 2) == #[trigger] two_digits(
                        fields@[k] as int,
                    ),
                forall|k: int| 0 <= k < i - 1 ==> v@[3 * k + 2] == #[trigger] seps@[k],
            decreases 6 - i,
        {
            let ghost prev = v@;
            if i > 0 {
                v.push(seps[i - 1]);
            }
            let n = fields[i];
            v.push((0x30 + n / 10) as u8);
            v.push((0x30 + n % 10) as u8);
            assert(v@.subrange(3 * i as int, 3 * i + 2) =~= two_digits(fields@[i as int] as int));
            assert forall|k: int| 0 <= k < i implies v@.subrange(3 * k, 3 * k + 2)
                == #[trigger] two_digits(fields@[k] as int) by {
                assert(v@.subrange(3 * k, 3 * k + 2) =~= prev.subrange(3 * k, 3 * k + 2));
            }
            i = i + 1;
        }
        assert(v@ =~= self.listing_bytes()) by {
            assert(v@.subrange(0, 2) == two_digits(fields@[0] as int));
            assert(v@.subrange(3, 5) == two_digits(fields@[1] as int));
            assert(v@.subrange(6, 8) == two_digits(fields@[2] as int));
            assert(v@.subrange(9, 11) == two_digits(fields@[3] as int));
            assert(v@.subrange(12, 14) == two_digits(fields@[4] as int));
            assert(v@.subrange(15, 17) == two_digits(fields@[5] as int));
        }
        text_of(&v)
    }

    /// Seconds from 1970-01-01T00:00:00 to this date and time, both read as UTC.
    pub fn to_unix_seconds(&self) -> (r: u64)
        requires
            1980 <= self.year <= 2107,
            is_valid_date(self.year as int, self.month as int, self.day as int),
            is_valid_time(self.hour as int, self.minute as int, self.second as int),
        ensures
            r == self.unix_seconds(),
    {
        let y1: u64 = if self.month <= 2 {
            self.year as u64 - 1
        } else {
            self.year as u64
        };
        let era = y1 / 400;
        let yoe = y1 - era * 400;
        let mp: u64 = if self.month > 2 {
            self.month as u64 - 3
        } else {
            self.month as u64 + 9
        };
        let doy = (153 * mp + 2) / 5 + self.day as u64 - 1;
        let doe = yoe * 365 + yoe / 4 - yoe / 100 + doy;
        let days = era * 146097 + doe - 719468;
        days * 86400 + self.hour as u64 * 3600 + self.minute as u64 * 60 + self.second as u64
    }
}

/// Conversion between a type and the packed 32-bit timestamp.
pub trait FromPSYQTimestamp: Sized {
    /// The value stored in `t`, or `None` when `t` holds no valid value.
    fn from_psyq_timestamp(t: u32) -> Option<Self>;

    /// The packed word that stores this value.
    fn to_psyq_timestamp(&self) -> u32;
}

impl FromPSYQTimestamp for PsyqDateTime {
    fn from_psyq_timestamp(t: u32) -> (r: Option<PsyqDateTime>) {
        PsyqDateTime::from_psyq_timestamp(t)
    }

    fn to_psyq_timestamp(&self) -> (r: u32) {
        PsyqDateTime::to_psyq_timestamp(self)
    }
}

/// The ranges that the widths of the fields allow.
pub proof fn lemma_field_ranges(t: u32)
    ensures
        1980 <= timestamp_fields(t).year <= 2107,
        timestamp_fields(t).second <= 62,
{
    assert(((t & 0xFFFFu32) >> 9u32) & 0x7Fu32 <= 0x7F) by (bit_vector);
    assert((t >> 16u32) & 0x1Fu32 <= 0x1F) by (bit_vector);
}

/// Decoding a word and encoding the result gives the word back.
pub proof fn lemma_timestamp_round_trip(t: u32)
    requires
        decode_timestamp(t) is Some,
    ensures
        encode_timestamp(decode_timestamp(t)->0) == t,
{
    let f = timestamp_fields(t);
    let y = ((t & 0xFFFFu32) >> 9u32) & 0x7Fu32;
    let sb = (t >> 16u32) & 0x1Fu32;
    assert(y <= 0x7F) by (bit_vector)
        requires
            y == ((t & 0xFFFFu32) >> 9u32) & 0x7Fu32,
    ;
    assert(sb <= 0x1F) by (bit_vector)
        requires
            sb == (t >> 16u32) & 0x1Fu32,
    ;
    assert(vstd::wrapping::u32_specs::wrapping_sub(f.year, 1980) == y);
    assert(f.second / 2 == sb);
    assert(((y & 0x7Fu32) << 9u32) | (((((t & 0xFFFFu32) >> 5u32) & 0xFu32) & 0xFu32) << 5u32) | (
    ((t & 0xFFFFu32) & 0x1Fu32) & 0x1Fu32) | (((((t >> 16u32) >> 11u32) & 0x1Fu32) & 0x1Fu32)
        << 27u32) | (((((t >> 16u32) >> 5u32) & 0x3Fu32) & 0x3Fu32) << 21u32) | ((sb & 0x1Fu32)
        << 16u32) == t) by (bit_vector)
        requires
            y == ((t & 0xFFFFu32) >> 9u32) & 0x7Fu32,
            sb == (t >> 16u32) & 0x1Fu32,
    ;
}

/// Encoding a date and time within the ranges of the format and decoding the
/// word gives it back, its seconds rounded down to an even number.
pub proof fn lemma_fields_round_trip(dt: PsyqDateTime)
    requires
        1980 <= dt.year <= 2107,
        is_valid_date(dt.year as int, dt.month as int, dt.day as int),
        is_valid_time(dt.hour as int, dt.minute as int, dt.second as int),
    ensures
        decode_timestamp(encode_timestamp(dt)) == Some(
            PsyqDateTime { second: (dt.second / 2 * 2) as u32, ..dt },
        ),
{
    let y = (dt.year - 1980) as u32;
    assert(vstd::wrapping::u32_specs::wrapping_sub(dt.year, 1980) == y);
    let m = dt.month;
    let d = dt.day;
    let h = dt.hour;
    let mi = dt.minute;
    let s = dt.second / 2;
    let t = encode_timestamp(dt);
    assert(t == ((y & 0x7Fu32) << 9u32) | ((m & 0xFu32) << 5u32) | (d & 0x1Fu32) | ((h & 0x1Fu32)
        << 27u32) | ((mi & 0x3Fu32) << 21u32) | ((s & 0x1Fu32) << 16u32));
    assert({
        &&& ((t & 0xFFFFu32) >> 9u32) & 0x7Fu32 == y
        &&& ((t & 0xFFFFu32) >> 5u32) & 0xFu32 == m
        &&& (t & 0xFFFFu32) & 0x1Fu32 == d
        &&& ((t >> 16u32) >> 11u32) & 0x1Fu32 == h
        &&& ((t >> 16u32) >> 5u32) & 0x3Fu32 == mi
        &&& (t >> 16u32) & 0x1Fu32 == s
    }) by (bit_vector)
        requires
            t == ((y & 0x7Fu32) << 9u32) | ((m & 0xFu32) << 5u32) | (d & 0x1Fu32) | ((h & 0x1Fu32)
                << 27u32) | ((mi & 0x3Fu32) << 21u32) | ((s & 0x1Fu32) << 16u32),
            y < 128,
            m < 16,
            d < 32,
            h < 32,
            mi < 64,
            s < 32,
    ;
}

} // verus!
