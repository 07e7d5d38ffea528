//! Which lengths of time are read.
use crate::parser::v0::duration::{duration_fits, measure, unit_nanos, NUMBER_LIMIT};
use crate::util::number::{digit, digits_value, is_digits};
use crate::util::text::white;
use vstd::prelude::*;

verus! {

/// Whether a text can be a unit: it holds no digit, no white space and no
/// decimal point.
pub open spec fn is_unit(unit: Seq<char>) -> bool {
    unit.len() > 0 && forall|i: int|
        0 <= i < unit.len() ==> !digit(#[trigger] unit[i]) && !white(unit[i]) && unit[i] != '.'
}

/// A length of time of one whole number and its unit can always be read, be it
/// accepted or refused.
pub proof fn law_single_parts_are_read(number: Seq<char>, unit: Seq<char>)
    requires
        is_digits(number),
        is_unit(unit),
    ensures
        duration_fits(number + unit),
        measure(number + unit).unit == unit,
        measure(number + unit).least == 0 && measure(number + unit).most == 0,
        digits_value(number) < NUMBER_LIMIT ==> measure(number + unit).number == digits_value(
            number,
        ),
{
    lemma_number_is_measured(number);
    lemma_unit_is_measured(number, unit);
}

proof fn lemma_number_is_measured(number: Seq<char>)
    requires
        forall|i: int| 0 <= i < number.len() ==> digit(#[trigger] number[i]),
    ensures
        ({
            let m = measure(number);
            &&& m.least == 0 && m.most == 0 && m.unit.len() == 0
            &&& !m.fraction && !m.reached && !m.refused
            &&& 0 <= m.number <= NUMBER_LIMIT
            &&& digits_value(number) < NUMBER_LIMIT ==> m.number == digits_value(number)
            &&& digits_value(number) >= NUMBER_LIMIT ==> m.number == NUMBER_LIMIT
            &&& digits_value(number) >= 0
        }),
    decreases number.len(),
{
    if number.len() > 0 {
        let front = number.drop_last();
        assert(digit(number[number.len() - 1]));
        assert forall|i: int| 0 <= i < front.len() implies digit(#[trigger] front[i]) by {
            assert(front[i] == number[i]);
        }
        lemma_number_is_measured(front);
    }
}

proof fn lemma_unit_is_measured(number: Seq<char>, unit: Seq<char>)
    requires
        measure(number).unit.len() == 0,
        forall|i: int|
            0 <= i < unit.len() ==> !digit(#[trigger] unit[i]) && !white(unit[i]) && unit[i] != '.',
    ensures
        ({
            let m = measure(number);
            let n = measure(number + unit);
            &&& n.unit == unit
            &&& n.least == m.least && n.most == m.most && n.number == m.number
            &&& n.fraction == m.fraction && n.reached == m.reached && n.refused == m.refused
        }),
    decreases unit.len(),
{
    let whole = number + unit;
    if unit.len() == 0 {
        assert(whole =~= number);
        assert(measure(number).unit =~= unit);
    } else {
        let front = unit.drop_last();
        assert forall|i: int| 0 <= i < front.len() implies !digit(#[trigger] front[i]) && !white(
            front[i],
        ) && front[i] != '.' by {
            assert(front[i] == unit[i]);
        }
        lemma_unit_is_measured(number, front);
        assert(whole.drop_last() =~= number + front);
        assert(whole.last() == unit[unit.len() - 1]);
        assert(front.push(unit.last()) =~= unit);
    }
}

/// The units of time are multiples of each other: a second has a thousand
/// milliseconds, a minute sixty seconds, an hour sixty minutes, a day 24
/// hours and a week seven days. A month has 30.44 days and a year 365.25.
pub proof fn law_units_are_multiples()
    ensures
        unit_nanos("ns"@) == 1,
        unit_nanos("us"@) == 1000 * unit_nanos("ns"@),
        unit_nanos("ms"@) == 1000 * unit_nanos("us"@),
        unit_nanos("s"@) == 1000 * unit_nanos("ms"@),
        unit_nanos("m"@) == 60 * unit_nanos("s"@),
        unit_nanos("h"@) == 60 * unit_nanos("m"@),
        unit_nanos("d"@) == 24 * unit_nanos("h"@),
        unit_nanos("w"@) == 7 * unit_nanos("d"@),
        100 * unit_nanos("M"@) == 3044 * unit_nanos("d"@),
        100 * unit_nanos("y"@) == 36525 * unit_nanos("d"@),
{
    lemma_short_units();
    reveal_strlit("ns");
    reveal_strlit("us");
    reveal_strlit("ms");
    reveal_strlit("s");
    reveal_strlit("m");
    reveal_strlit("h");
    reveal_strlit("d");
    reveal_strlit("w");
    reveal_strlit("M");
    reveal_strlit("y");
    reveal_strlit("hr");
    reveal_strlit("wk");
    reveal_strlit("yr");
    assert("ns"@[0] == 'n' && "us"@[0] == 'u' && "ms"@[0] == 'm');
    assert("ns"@.len() == 2 && "us"@.len() == 2 && "ms"@.len() == 2);
    assert("hr"@.len() == 2 && "wk"@.len() == 2 && "yr"@.len() == 2);
    assert("s"@[0] == 's' && "s"@.len() == 1);
    assert("m"@[0] == 'm' && "m"@.len() == 1);
    assert("h"@[0] == 'h' && "h"@.len() == 1);
    assert("d"@[0] == 'd' && "d"@.len() == 1);
    assert("w"@[0] == 'w' && "w"@.len() == 1);
    assert("M"@[0] == 'M' && "M"@.len() == 1);
    assert("y"@[0] == 'y' && "y"@.len() == 1);
    assert(unit_nanos("ns"@) == 1);
    assert(unit_nanos("us"@) == 1000);
    assert(unit_nanos("ms"@) == 1000000);
    assert(unit_nanos("s"@) == 1000000000);
    assert(unit_nanos("m"@) == 60000000000);
    assert(unit_nanos("h"@) == 3600000000000);
    assert(unit_nanos("d"@) == 86400000000000);
    assert(unit_nanos("w"@) == 604800000000000);
    assert(unit_nanos("M"@) == 2630016000000000);
    assert(unit_nanos("y"@) == 31557600000000000);
}

/// The units with long names are none of those with short ones.
proof fn lemma_short_units()
    ensures
        "nanos"@.len() > 2 && "nsec"@.len() > 2 && "usec"@.len() > 2 && "millis"@.len() > 2,
        "msec"@.len() > 2 && "seconds"@.len() > 2 && "second"@.len() > 2 && "secs"@.len() > 2,
        "sec"@.len() > 2 && "minutes"@.len() > 2 && "minute"@.len() > 2 && "min"@.len() > 2,
        "mins"@.len() > 2 && "hours"@.len() > 2 && "hour"@.len() > 2 && "hrs"@.len() > 2,
        "days"@.len() > 2 && "day"@.len() > 2 && "weeks"@.len() > 2 && "week"@.len() > 2,
        "wks"@.len() > 2 && "months"@.len() > 2 && "month"@.len() > 2 && "years"@.len() > 2,
        "year"@.len() > 2 && "yrs"@.len() > 2 && "µs"@.len() == 2 && "µs"@[0] == 'µ',
{
    reveal_strlit("nanos");
    reveal_strlit("nsec");
    reveal_strlit("usec");
    reveal_strlit("millis");
    reveal_strlit("msec");
    reveal_strlit("seconds");
    reveal_strlit("second");
    reveal_strlit("secs");
    reveal_strlit("sec");
    reveal_strlit("minutes");
    reveal_strlit("minute");
    reveal_strlit("min");
    reveal_strlit("mins");
    reveal_strlit("hours");
    reveal_strlit("hour");
    reveal_strlit("hrs");
    reveal_strlit("days");
    reveal_strlit("day");
    reveal_strlit("weeks");
    reveal_strlit("week");
    reveal_strlit("wks");
    reveal_strlit("months");
    reveal_strlit("month");
    reveal_strlit("years");
    reveal_strlit("year");
    reveal_strlit("yrs");
    reveal_strlit("µs");
}

} // verus!
