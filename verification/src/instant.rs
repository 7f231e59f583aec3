//! Instants: points in time that no timezone colours.

use crate::text::pow10;
use vstd::prelude::*;

verus! {

/// A point in time: `secs` whole seconds after 1970-01-01 00:00:00 UTC (before it, where
/// negative) and `nanos` nanoseconds into that second. A `nanos` of a thousand million or
/// more marks a leap second, as chrono writes one.
#[derive(Clone, Copy, Debug)]
pub struct Instant {
    pub secs: i64,
    pub nanos: u32,
}

/// An instant as mathematics sees it: the same two numbers, unbounded.
pub struct Moment {
    pub secs: int,
    pub nanos: int,
}

impl View for Instant {
    type V = Moment;

    open spec fn view(&self) -> Moment {
        Moment { secs: self.secs as int, nanos: self.nanos as int }
    }
}

/// The nanoseconds in one second.
pub const NANOS_PER_SECOND: u32 = 1_000_000_000;

/// The nanoseconds that a fraction of a second stands for, written as the number `value` in
/// `digits` decimal places. No digits stand for none.
pub open spec fn fraction_nanos(value: int, digits: int) -> int {
    if digits <= 0 {
        0
    } else {
        value * pow10((9 - digits) as nat)
    }
}

/// Rescales the nanosecond field of `instant` where it holds a fraction of a second as it
/// was read: a number of `num_sub_digits` decimal places. With no digits the field already
/// counts nanoseconds and stays.
pub fn fix_subsec(instant: Instant, num_sub_digits: usize) -> (fixed: Instant)
    requires
        num_sub_digits == 0 || num_sub_digits == 3 || num_sub_digits == 6 || num_sub_digits == 9,
        num_sub_digits > 0 ==> instant.nanos < pow10(num_sub_digits as nat),
    ensures
        fixed.secs == instant.secs,
        num_sub_digits == 0 ==> fixed.nanos == instant.nanos,
        num_sub_digits > 0 ==> fixed.nanos == fraction_nanos(
            instant.nanos as int,
            num_sub_digits as int,
        ) && fixed.nanos < NANOS_PER_SECOND,
{
    if num_sub_digits == 0 {
        return instant;
    }
    let multiplier: u32 = if num_sub_digits == 3 {
        1_000_000
    } else if num_sub_digits == 6 {
        1_000
    } else {
        1
    };
    proof {
        reveal_with_fuel(pow10, 10);
        assert(multiplier == pow10((9 - num_sub_digits) as nat));
        assert(instant.nanos * multiplier < 1_000_000_000) by (nonlinear_arith)
            requires
                (multiplier == 1_000_000 && instant.nanos < 1_000) || (multiplier == 1_000
                    && instant.nanos < 1_000_000) || (multiplier == 1 && instant.nanos
                    < 1_000_000_000),
        ;
    }
    Instant { secs: instant.secs, nanos: instant.nanos * multiplier }
}

} // verus!
