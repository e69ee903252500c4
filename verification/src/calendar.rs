//! The calendar year of a point in time, and numbers in decimal.
//!
//! Time is counted in seconds since the start of 1970 in UTC, days have
//! 86400 seconds, and years follow the Gregorian rule for leap years.

use vstd::prelude::*;

verus! {

/// Whether `year` has a 29th of February.
pub open spec fn is_leap_year(year: int) -> bool {
    year % 4 == 0 && (year % 100 != 0 || year % 400 == 0)
}

/// The number of days of `year`.
pub open spec fn days_in_year(year: int) -> int {
    if is_leap_year(year) {
        366
    } else {
        365
    }
}

/// The year that holds the day which comes `days` days after the first day
/// of `year`.
pub open spec fn year_after(year: int, days: int) -> int
    decreases days,
{
    if days < days_in_year(year) {
        year
    } else {
        year_after(year + 1, days - days_in_year(year))
    }
}

/// The calendar year that holds the second `seconds`.
pub open spec fn year_of_timestamp(seconds: u64) -> int {
    year_after(1970, seconds as int / 86400)
}

/// The number of days from the first day of year 1 to the first day of
/// `year`.
pub open spec fn days_before_year(year: int) -> int {
    let y = year - 1;
    365 * y + y / 4 - y / 100 + y / 400
}

proof fn lemma_days_before_next(year: int)
    requires
        year >= 1,
    ensures
        days_before_year(year + 1) == days_before_year(year) + days_in_year(year),
{
}

/// Skipping `count` whole years, and the days they hold, leads to the same
/// year.
proof fn lemma_skip_years(year: int, days: int, count: int)
    requires
        year >= 1,
        count >= 0,
        days >= days_before_year(year + count) - days_before_year(year),
    ensures
        year_after(year, days) == year_after(
            year + count,
            days - (days_before_year(year + count) - days_before_year(year)),
        ),
    decreases count,
{
    if count > 0 {
        lemma_days_before_next(year);
        lemma_days_before_monotone(year + 1, count - 1);
        lemma_skip_years(year + 1, days - days_in_year(year), count - 1);
    }
}

proof fn lemma_days_before_monotone(year: int, count: int)
    requires
        year >= 1,
        count >= 0,
    ensures
        days_before_year(year + count) >= days_before_year(year),
    decreases count,
{
    if count > 0 {
        lemma_days_before_next(year + count - 1);
        lemma_days_before_monotone(year, count - 1);
    }
}

/// Every 400 years hold 146097 days.
proof fn lemma_cycle(year: int, cycles: int)
    requires
        year >= 1,
        cycles >= 0,
    ensures
        days_before_year(year + 400 * cycles) - days_before_year(year) == 146097 * cycles,
    decreases cycles,
{
    if cycles > 0 {
        lemma_cycle(year, cycles - 1);
        let y = year + 400 * (cycles - 1) - 1;
        assert((y + 400) / 4 == y / 4 + 100);
        assert((y + 400) / 100 == y / 100 + 4);
        assert((y + 400) / 400 == y / 400 + 1);
    }
}

fn year_length(year: u64) -> (days: u64)
    ensures
        days == days_in_year(year as int),
{
    if year % 4 == 0 && (year % 100 != 0 || year % 400 == 0) {
        366
    } else {
        365
    }
}

/// The calendar year, in UTC, that holds the point in time `seconds`
/// seconds after the start of 1970.
pub fn year_of(seconds: u64) -> (year: u64)
    ensures
        year == year_of_timestamp(seconds),
{
    let all_days: u64 = seconds / 86400;
    let cycles: u64 = all_days / 146097;
    let mut days: u64 = all_days % 146097;
    let mut year: u64 = 1970 + 400 * cycles;
    proof {
        lemma_cycle(1970, cycles as int);
        lemma_skip_years(1970, all_days as int, 400 * cycles);
    }
    while days >= year_length(year)
        invariant
            year_after(year as int, days as int) == year_of_timestamp(seconds),
            year + days < 1_000_000_000_000_000,
            year >= 1970,
        decreases days,
    {
        days -= year_length(year);
        year += 1;
    }
    year
}

/// The character that stands for a digit.
pub open spec fn digit_char(digit: int) -> char {
    if digit == 0 {
        '0'
    } else if digit == 1 {
        '1'
    } else if digit == 2 {
        '2'
    } else if digit == 3 {
        '3'
    } else if digit == 4 {
        '4'
    } else if digit == 5 {
        '5'
    } else if digit == 6 {
        '6'
    } else if digit == 7 {
        '7'
    } else if digit == 8 {
        '8'
    } else {
        '9'
    }
}

/// A number in decimal, without leading zeros.
pub open spec fn decimal(n: nat) -> Seq<char>
    decreases n,
{
    if n < 10 {
        seq![digit_char(n as int)]
    } else {
        decimal(n / 10).push(digit_char((n % 10) as int))
    }
}

fn digit(d: u64) -> (c: char)
    requires
        d < 10,
    ensures
        c == digit_char(d as int),
{
    if d == 0 {
        '0'
    } else if d == 1 {
        '1'
    } else if d == 2 {
        '2'
    } else if d == 3 {
        '3'
    } else if d == 4 {
        '4'
    } else if d == 5 {
        '5'
    } else if d == 6 {
        '6'
    } else if d == 7 {
        '7'
    } else if d == 8 {
        '8'
    } else {
        '9'
    }
}

fn push_decimal(out: &mut String, n: u64)
    ensures
        final(out)@ == old(out)@ + decimal(n as nat),
    decreases n,
{
    if n >= 10 {
        push_decimal(out, n / 10);
    }
    out.push(digit(n % 10));
    assert(out@ =~= old(out)@ + decimal(n as nat));
}

/// Writes `n` in decimal.
pub fn decimal_string(n: u64) -> (text: String)
    ensures
        text@ == decimal(n as nat),
{
    let mut text = String::new();
    push_decimal(&mut text, n);
    assert(text@ =~= decimal(n as nat));
    text
}

} // verus!
