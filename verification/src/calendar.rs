//! Calendar arithmetic: leap years and the lengths of months and years.
//!
//! Months are numbered from 0 (January) to 11 (December) and week days from
//! 0 (Sunday) to 6 (Saturday).

use vstd::prelude::*;

verus! {

/// A calendar year.
#[derive(Clone, Copy, PartialEq, Eq, Structural, Debug)]
pub struct Year(pub u16);

/// A month of the year, 0 = January .. 11 = December.
#[derive(Clone, Copy, PartialEq, Eq, Structural, Debug)]
pub struct Month(pub u8);

/// A day of the week, 0 = Sunday .. 6 = Saturday.
#[derive(Clone, Copy, PartialEq, Eq, Structural, Debug)]
pub struct Day(pub u8);

/// The number of months in a year.
pub const MONTHS: u8 = 12;

/// The number of days in a week.
pub const DAYS: u8 = 7;

/// Whether a year is counted as a leap year: divisible by four, except when
/// the century count is itself divisible by four.
pub open spec fn spec_is_leap_year(y: u16) -> bool {
    y % 4 == 0 && !((y / 100) % 4 == 0)
}

impl Year {
    pub fn new(y: u16) -> (r: Year)
        ensures
            r.0 == y,
    {
        Year(y)
    }
}

impl Month {
    pub fn new(m: u8) -> (r: Month)
        ensures
            r.0 == m,
    {
        Month(m)
    }
}

pub fn is_leap_year(y: Year) -> (r: bool)
    ensures
        r == spec_is_leap_year(y.0),
{
    let div4 = y.0 % 4 == 0;
    let century = y.0 / 100;
    let cent_div4 = century % 4 == 0;

    div4 && !cent_div4
}

/// How many days a month has: thirty for September, April, June and November,
/// twenty-eight or twenty-nine for February, thirty-one for the rest.
pub open spec fn spec_days_in_month(y: u16, m: u8) -> u16 {
    if m == 3 || m == 5 || m == 8 || m == 10 {
        30
    } else if m == 1 {
        if spec_is_leap_year(y) {
            29
        } else {
            28
        }
    } else {
        31
    }
}

pub fn days_in_month(y: Year, m: Month) -> (r: u16)
    ensures
        r == spec_days_in_month(y.0, m.0),
{
    match m.0 {
        3 | 5 | 8 | 10 => 30,
        1 => if !is_leap_year(y) {
            28
        } else {
            29
        },
        _ => 31,
    }
}

pub fn days_in_year(y: Year) -> (r: u16)
    ensures
        r == if spec_is_leap_year(y.0) {
            366int
        } else {
            365int
        },
{
    if is_leap_year(y) { 366 } else { 365 }
}

} // verus!
