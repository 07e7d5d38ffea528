//! Reading lengths of time.
use crate::util::number::{digit, is_digit};
use crate::util::text::{chars_of, is_whitespace, push_char, str_eq, white};
use vstd::prelude::*;

verus! {

/// The length of time that `humantime::parse_duration` reads in a text, in
/// seconds and nanoseconds.
pub uninterp spec fn duration_of(text: Seq<char>) -> Option<(u64, u32)>;

/// `humantime::parse_duration` reads a length of time such as `100ms` or
/// `1h 30m`, part by part. It carries fractions of a second over only where
/// they are more than one second, so that it panics where they complete the
/// last second, and the parts up to there add up to two to the power of 64
/// seconds; texts that can add up to that are left out.
#[verifier::external_body]
pub(crate) fn read_duration(text: &str) -> (r: Option<(u64, u32)>)
    requires
        duration_fits(text@),
    ensures
        r == duration_of(text@),
{
    humantime::parse_duration(text).ok().map(|d| (d.as_secs(), d.subsec_nanos()))
}

/// The numbers that are too large for a part of a length of time.
pub const NUMBER_LIMIT: u128 = 18446744073709551616;

/// The nanoseconds that are too many for a length of time.
pub const DURATION_LIMIT: u128 = 18446744073709551616000000000;

/// The nanoseconds of a unit of time, or 0 for an unknown one.
pub open spec fn unit_nanos(unit: Seq<char>) -> int {
    if unit == "nanos"@ || unit == "nsec"@ || unit == "ns"@ {
        1
    } else if unit == "usec"@ || unit == "us"@ || unit == "µs"@ {
        1000
    } else if unit == "millis"@ || unit == "msec"@ || unit == "ms"@ {
        1000000
    } else if unit == "seconds"@ || unit == "second"@ || unit == "secs"@ || unit == "sec"@ || unit
        == "s"@ {
        1000000000
    } else if unit == "minutes"@ || unit == "minute"@ || unit == "min"@ || unit == "mins"@ || unit
        == "m"@ {
        60000000000
    } else if unit == "hours"@ || unit == "hour"@ || unit == "hr"@ || unit == "hrs"@ || unit
        == "h"@ {
        3600000000000
    } else if unit == "days"@ || unit == "day"@ || unit == "d"@ {
        86400000000000
    } else if unit == "weeks"@ || unit == "week"@ || unit == "wk"@ || unit == "wks"@ || unit
        == "w"@ {
        604800000000000
    } else if unit == "months"@ || unit == "month"@ || unit == "M"@ {
        2630016000000000
    } else if unit == "years"@ || unit == "year"@ || unit == "yr"@ || unit == "yrs"@ || unit
        == "y"@ {
        31557600000000000
    } else {
        0
    }
}

/// The nanoseconds of a unit of time, or 0 for an unknown one.
fn nanos_of_unit(unit: &str) -> (r: u128)
    ensures
        r == unit_nanos(unit@),
        r <= 31557600000000000,
{
    if str_eq(unit, "nanos") || str_eq(unit, "nsec") || str_eq(unit, "ns") {
        1
    } else if str_eq(unit, "usec") || str_eq(unit, "us") || str_eq(unit, "µs") {
        1000
    } else if str_eq(unit, "millis") || str_eq(unit, "msec") || str_eq(unit, "ms") {
        1000000
    } else if str_eq(unit, "seconds") || str_eq(unit, "second") || str_eq(unit, "secs") || str_eq(
        unit,
        "sec",
    ) || str_eq(unit, "s") {
        1000000000
    } else if str_eq(unit, "minutes") || str_eq(unit, "minute") || str_eq(unit, "min") || str_eq(
        unit,
        "mins",
    ) || str_eq(unit, "m") {
        60000000000
    } else if str_eq(unit, "hours") || str_eq(unit, "hour") || str_eq(unit, "hr") || str_eq(
        unit,
        "hrs",
    ) || str_eq(unit, "h") {
        3600000000000
    } else if str_eq(unit, "days") || str_eq(unit, "day") || str_eq(unit, "d") {
        86400000000000
    } else if str_eq(unit, "weeks") || str_eq(unit, "week") || str_eq(unit, "wk") || str_eq(
        unit,
        "wks",
    ) || str_eq(unit, "w") {
        604800000000000
    } else if str_eq(unit, "months") || str_eq(unit, "month") || str_eq(unit, "M") {
        2630016000000000
    } else if str_eq(unit, "years") || str_eq(unit, "year") || str_eq(unit, "yr") || str_eq(
        unit,
        "yrs",
    ) || str_eq(unit, "y") {
        31557600000000000
    } else {
        0
    }
}

/// What the part of a text that was read adds up to, in nanoseconds.
pub struct Measure {
    /// What the complete parts add up to at least.
    pub least: int,
    /// What the complete parts add up to at most.
    pub most: int,
    /// The whole number of the part that is being read.
    pub number: int,
    /// Whether that part has a decimal point.
    pub fraction: bool,
    /// The unit of that part.
    pub unit: Seq<char>,
    /// Whether the parts may add up to the limit.
    pub reached: bool,
    /// Whether the text is refused, whatever follows.
    pub refused: bool,
}

/// Whether a part that may add up to the limit is refused in any case: the
/// sum is known, and it is not a fraction of a second that completes the last
/// second.
pub open spec fn is_refused_at_limit(m: Measure) -> bool {
    &&& m.least == m.most
    &&& !m.fraction
    &&& unit_nanos(m.unit) >= 1000000000 || m.least < DURATION_LIMIT - 1000000000
}

/// The measure with the part that is being read complete. A part is refused
/// whose unit is unknown, whose number is too large, or which is too large by
/// itself or with those before it.
pub open spec fn part_done(m: Measure) -> Measure {
    let nanos = unit_nanos(m.unit);
    let least = m.least + m.number * nanos;
    let most = m.most + m.number * nanos + if m.fraction && nanos > 0 {
        nanos - 1
    } else {
        0
    };
    let fresh = Measure { number: 0, fraction: false, unit: Seq::empty(), ..m };
    if m.refused || m.reached {
        fresh
    } else if nanos == 0 || m.number >= NUMBER_LIMIT || least > DURATION_LIMIT || (nanos
        < 1000000000 && m.number * nanos >= NUMBER_LIMIT) {
        Measure { refused: true, ..fresh }
    } else if most < DURATION_LIMIT {
        Measure { least, most, ..fresh }
    } else if is_refused_at_limit(m) {
        Measure { refused: true, ..fresh }
    } else {
        Measure { reached: true, ..fresh }
    }
}

/// A number with one more digit, or the limit where it is larger.
pub open spec fn with_digit(n: int, c: char) -> int {
    let next = 10 * n + (c as int - '0' as int);
    if next < NUMBER_LIMIT {
        next
    } else {
        NUMBER_LIMIT as int
    }
}

/// The measure with one more character read: numbers and units alternate, and
/// white space ends a unit.
pub open spec fn measure_step(m: Measure, c: char) -> Measure {
    if digit(c) || white(c) || c == '.' {
        let at = if m.unit.len() > 0 {
            part_done(m)
        } else {
            m
        };
        if c == '.' {
            Measure { fraction: true, ..at }
        } else if digit(c) && !at.fraction {
            Measure { number: with_digit(at.number, c), ..at }
        } else {
            at
        }
    } else {
        Measure { unit: m.unit.push(c), ..m }
    }
}

/// What a text adds up to.
pub open spec fn measure(text: Seq<char>) -> Measure
    decreases text.len(),
{
    if text.len() == 0 {
        Measure {
            least: 0,
            most: 0,
            number: 0,
            fraction: false,
            unit: Seq::empty(),
            reached: false,
            refused: false,
        }
    } else {
        measure_step(measure(text.drop_last()), text.last())
    }
}

/// Whether the parts of a text cannot add up to two to the power of 64 seconds
/// before one of them is refused.
pub open spec fn duration_fits(text: Seq<char>) -> bool {
    !part_done(measure(text)).reached
}

/// The state of measuring a text.
struct Measured {
    least: u128,
    most: u128,
    number: u128,
    fraction: bool,
    unit: String,
    reached: bool,
    refused: bool,
}

impl Measured {
    spec fn state(&self) -> Measure {
        Measure {
            least: self.least as int,
            most: self.most as int,
            number: self.number as int,
            fraction: self.fraction,
            unit: self.unit@,
            reached: self.reached,
            refused: self.refused,
        }
    }

    spec fn bounded(&self) -> bool {
        self.least <= self.most < DURATION_LIMIT && self.number <= NUMBER_LIMIT
    }

    /// Completes the part that is being read.
    fn finish_part(&mut self)
        requires
            old(self).bounded(),
        ensures
            final(self).bounded(),
            final(self).state() == part_done(old(self).state()),
    {
        let nanos: u128 = nanos_of_unit(self.unit.as_str());
        let number: u128 = self.number;
        proof {
            assert(number * nanos <= 18446744073709551616 * 31557600000000000) by (nonlinear_arith)
                requires
                    0 <= number <= 18446744073709551616,
                    0 <= nanos <= 31557600000000000,
            ;
        }
        let part: u128 = number * nanos;
        let least: u128 = self.least + part;
        let most: u128 = self.most + part + if self.fraction && nanos > 0 {
            (nanos - 1) as u128
        } else {
            0
        };
        if !self.refused && !self.reached {
            let known = self.least == self.most && !self.fraction;
            if nanos == 0 || number >= NUMBER_LIMIT || least > DURATION_LIMIT || (nanos < 1000000000
                && part >= NUMBER_LIMIT) {
                self.refused = true;
            } else if most < DURATION_LIMIT {
                self.least = least;
                self.most = most;
            } else if known && (nanos >= 1000000000 || self.least < DURATION_LIMIT - 1000000000) {
                self.refused = true;
            } else {
                self.reached = true;
            }
        }
        self.number = 0;
        self.fraction = false;
        self.unit = String::new();
        proof {
            assert(self.unit@ =~= Seq::empty());
        }
    }

    /// Reads one more character.
    fn read(&mut self, c: char)
        requires
            old(self).bounded(),
        ensures
            final(self).bounded(),
            final(self).state() == measure_step(old(self).state(), c),
    {
        let in_number = is_digit(c) || is_whitespace(c) || c == '.';
        if !in_number {
            push_char(&mut self.unit, c);
            return ;
        }
        if !self.unit.as_str().is_empty() {
            self.finish_part();
        }
        if c == '.' {
            self.fraction = true;
        } else if is_digit(c) && !self.fraction {
            let next: u128 = 10 * self.number + (c as u32 - '0' as u32) as u128;
            self.number = if next < NUMBER_LIMIT {
                next
            } else {
                NUMBER_LIMIT
            };
        }
    }
}

/// Whether the parts of a text cannot add up to two to the power of 64 seconds
/// before one of them is refused.
pub(crate) fn is_fitting(text: &str) -> (r: bool)
    ensures
        r == duration_fits(text@),
{
    let chars = chars_of(text);
    let mut m = Measured {
        least: 0,
        most: 0,
        number: 0,
        fraction: false,
        unit: String::new(),
        reached: false,
        refused: false,
    };
    let mut i: usize = 0;
    proof {
        assert(m.unit@ =~= Seq::empty());
        assert(chars@.take(0) =~= Seq::empty());
    }
    while i < chars.len()
        invariant
            i <= chars@.len(),
            chars@ == text@,
            m.bounded(),
            m.state() == measure(chars@.take(i as int)),
        decreases chars@.len() - i,
    {
        proof {
            assert(chars@.take(i + 1).drop_last() =~= chars@.take(i as int));
        }
        m.read(chars[i]);
        i += 1;
    }
    proof {
        assert(chars@.take(i as int) =~= text@);
    }
    m.finish_part();
    !m.reached
}

} // verus!
