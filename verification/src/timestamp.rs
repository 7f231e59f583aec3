//! Timestamps read: the fields of a text that has the shape of a timestamp, and the moment
//! that they name.

use crate::calendar::{
    civil_seconds, civil_timestamp, is_civil_time, lemma_civil_seconds_bounds,
};
use crate::instant::{fix_subsec, fraction_nanos, Instant, Moment, NANOS_PER_SECOND};
use crate::scanner::{
    fraction_width, is_timestamp, lemma_timestamp_unique, timestamp_at, timestamp_width,
    TimestampMatch, DATETIME_WIDTH,
};
use crate::text::{decimal_value, parse_digits, pow10};
use vstd::prelude::*;

verus! {

/// The number written in `t` from position `from` up to position `to`.
pub open spec fn field(t: Seq<char>, from: int, to: int) -> int {
    decimal_value(t.subrange(from, to)) as int
}

/// The calendar year that the timestamp `t` states.
pub open spec fn year_of(t: Seq<char>) -> int {
    field(t, 0, 4)
}

/// Its month.
pub open spec fn month_of(t: Seq<char>) -> int {
    field(t, 5, 7)
}

/// Its day of the month.
pub open spec fn day_of(t: Seq<char>) -> int {
    field(t, 8, 10)
}

/// Its hour.
pub open spec fn hour_of(t: Seq<char>) -> int {
    field(t, 11, 13)
}

/// Its minute.
pub open spec fn minute_of(t: Seq<char>) -> int {
    field(t, 14, 16)
}

/// Its second, which is 60 for a leap second.
pub open spec fn second_of(t: Seq<char>) -> int {
    field(t, 17, 19)
}

/// The second that a clock without leap seconds shows meanwhile.
pub open spec fn clock_second_of(t: Seq<char>) -> int {
    if second_of(t) == 60 {
        59
    } else {
        second_of(t)
    }
}

/// The digits of its fraction of a second, of which there are `digits`, read as one number.
pub open spec fn fraction_of(t: Seq<char>, digits: int) -> int {
    field(t, 20, 20 + digits)
}

/// Where its zone marker starts.
pub open spec fn zone_start(digits: int) -> int {
    DATETIME_WIDTH + fraction_width(digits)
}

/// The hours of the offset that the zone marker at `z` states.
pub open spec fn offset_hours(t: Seq<char>, z: int) -> int {
    field(t, z + 1, z + 3)
}

/// The minutes of that offset; the marker has `width` characters.
pub open spec fn offset_minutes(t: Seq<char>, z: int, width: int) -> int {
    field(t, z + width - 2, z + width)
}

/// The offset is less than a day, its minutes less than an hour. `Z` states no offset.
pub open spec fn is_offset(t: Seq<char>, z: int, width: int) -> bool {
    width == 1 || (offset_hours(t, z) < 24 && offset_minutes(t, z, width) < 60)
}

/// The seconds by which the local time that `t` states is ahead of UTC.
pub open spec fn offset_seconds(t: Seq<char>, z: int, width: int) -> int {
    if width == 1 {
        0
    } else {
        let ahead = offset_hours(t, z) * 3600 + offset_minutes(t, z, width) * 60;
        if t[z] == '-' {
            -ahead
        } else {
            ahead
        }
    }
}

/// The timestamp `t`, with a fraction of `digits` digits and a zone marker of `width`
/// characters, names a moment: its day is in the calendar, its time of day on the clock (a
/// second numbered 60 is a leap second), and its offset is less than a day.
pub open spec fn is_well_formed(t: Seq<char>, digits: int, width: int) -> bool {
    &&& is_civil_time(
        year_of(t),
        month_of(t),
        day_of(t),
        hour_of(t),
        minute_of(t),
        clock_second_of(t),
    )
    &&& second_of(t) <= 60
    &&& is_offset(t, zone_start(digits), width)
}

/// The moment that such a timestamp names: the local time it states, less the offset. The
/// fraction counts nanoseconds whatever number of digits it was written with.
pub open spec fn moment_named(t: Seq<char>, digits: int, width: int) -> Moment {
    Moment {
        secs: civil_seconds(
            year_of(t),
            month_of(t),
            day_of(t),
            hour_of(t),
            minute_of(t),
            clock_second_of(t),
        ) - offset_seconds(t, zone_start(digits), width),
        nanos: fraction_nanos(fraction_of(t, digits), digits) + if second_of(t) == 60 {
            NANOS_PER_SECOND as int
        } else {
            0
        },
    }
}

/// The moment that the text `t` names, if the whole of it is a timestamp and names one.
pub open spec fn moment_of(t: Seq<char>) -> Option<Moment> {
    if is_timestamp(t) {
        let (digits, width) = choose|digits: int, width: int| timestamp_at(t, 0, digits, width);
        if is_well_formed(t, digits, width) {
            Some(moment_named(t, digits, width))
        } else {
            None
        }
    } else {
        None
    }
}

/// The whole of a text is a timestamp where a timestamp of its length stands at its start.
pub proof fn lemma_is_timestamp(t: Seq<char>, digits: int, width: int)
    requires
        timestamp_at(t, 0, digits, width),
        t.len() == timestamp_width(digits, width),
    ensures
        is_timestamp(t),
        moment_of(t) == if is_well_formed(t, digits, width) {
            Some(moment_named(t, digits, width))
        } else {
            None
        },
{
    let (d, w) = choose|d: int, w: int| timestamp_at(t, 0, d, w);
    lemma_timestamp_unique(t, 0, d, w, digits, width);
}

/// Reads the instant that the timestamp `t` names. `found` describes the timestamp, which
/// is the whole of `t`.
#[verifier::rlimit(60)]
pub fn read_instant(t: &[char], found: &TimestampMatch) -> (r: Option<Instant>)
    requires
        found.start == 0,
        found.end == t@.len(),
        found.found_in(t@),
    ensures
        r is Some <==> is_well_formed(
            t@,
            found.fraction_digits as int,
            found.zone_width as int,
        ),
        r matches Some(instant) ==> instant@ == moment_named(
            t@,
            found.fraction_digits as int,
            found.zone_width as int,
        ),
{
    let digits = found.fraction_digits;
    let width = found.zone_width;
    let zone: usize = if digits == 0 {
        DATETIME_WIDTH
    } else {
        DATETIME_WIDTH + 1 + digits
    };
    proof {
        reveal_with_fuel(pow10, 10);
    }
    let year = parse_digits(t, 0, 4) as i32;
    let month = parse_digits(t, 5, 7) as u32;
    let day = parse_digits(t, 8, 10) as u32;
    let hour = parse_digits(t, 11, 13) as u32;
    let minute = parse_digits(t, 14, 16) as u32;
    let second = parse_digits(t, 17, 19) as u32;
    if second > 60 {
        return None;
    }
    let clock_second: u32 = if second == 60 {
        59
    } else {
        second
    };
    let local = match civil_timestamp(year, month, day, hour, minute, clock_second) {
        Some(seconds) => seconds,
        None => {
            return None;
        },
    };
    proof {
        lemma_civil_seconds_bounds(
            year as int,
            month as int,
            day as int,
            hour as int,
            minute as int,
            clock_second as int,
        );
    }
    let offset: i64 = if width == 1 {
        0
    } else {
        let hours = parse_digits(t, zone + 1, zone + 3) as i64;
        let minutes = parse_digits(t, zone + width - 2, zone + width) as i64;
        if hours > 23 || minutes > 59 {
            return None;
        }
        let ahead = hours * 3600 + minutes * 60;
        if t[zone] == '-' {
            -ahead
        } else {
            ahead
        }
    };
    let fraction = parse_digits(t, 20, 20 + digits) as u32;
    let read = fix_subsec(Instant { secs: local - offset, nanos: fraction }, digits);
    let nanos: u32 = if second == 60 {
        read.nanos + NANOS_PER_SECOND
    } else {
        read.nanos
    };
    Some(Instant { secs: read.secs, nanos })
}

} // verus!
