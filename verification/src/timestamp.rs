//! The timestamp codec: between a human-readable date-time with a zone
//! offset and the platform's 100-nanosecond tick counter, whose epoch is the
//! start of year 1 of the proleptic Gregorian calendar.
//!
//! The wall-clock form is `year-month-day hour:minute:second` followed by a
//! signed zone offset in hours, optionally with a minutes part (`+03`,
//! `+0330`, or `+03:30`).  One second is 10 000 000 ticks; the Unix epoch
//! sits at tick 621 355 968 000 000 000, so for instants at or after it the
//! tick value equals `unix_seconds * 10_000_000` plus that constant.

use vstd::arithmetic::div_mod::{
    lemma_div_is_ordered_by_denominator, lemma_fundamental_div_mod,
    lemma_fundamental_div_mod_converse_div, lemma_fundamental_div_mod_converse_mod,
};
use vstd::prelude::*;

use crate::Error;

verus! {

/// Ticks per second.
pub const TICKS_PER_SECOND: u64 = 10_000_000;

/// Ticks from the platform epoch (year 1) to the Unix epoch (1970).
pub const UNIX_EPOCH_TICKS: u64 = 621_355_968_000_000_000;

/// Days from March 1st of year 0 (the era base the day arithmetic uses,
/// shifted four centuries back for non-negativity) to January 1st of year 1.
pub const ERA_BASE_DAYS: u64 = 146_403;

/// A leap year of the proleptic Gregorian calendar.
pub open spec fn spec_is_leap(y: int) -> bool {
    (y % 4 == 0 && y % 100 != 0) || y % 400 == 0
}

/// The day count of a month.
pub open spec fn spec_days_in_month(y: int, m: int) -> int {
    if m == 2 {
        if spec_is_leap(y) {
            29
        } else {
            28
        }
    } else if m == 4 || m == 6 || m == 9 || m == 11 {
        30
    } else {
        31
    }
}

/// A calendar-valid year, month and day.
pub open spec fn spec_valid_date(y: int, m: int, d: int) -> bool {
    1 <= m <= 12 && 1 <= d <= spec_days_in_month(y, m)
}

/// Days from March 1st of year 0, shifted four centuries so every
/// intermediate quantity is non-negative for years 0 and up.
pub open spec fn spec_era_days(y: int, m: int, d: int) -> int {
    let yy = if m <= 2 {
        y + 399
    } else {
        y + 400
    };
    let era = yy / 400;
    let yoe = yy % 400;
    let mp = if m > 2 {
        m - 3
    } else {
        m + 9
    };
    let doy = (153 * mp + 2) / 5 + d - 1;
    era * 146097 + yoe * 365 + yoe / 4 - yoe / 100 + doy
}

/// Days since January 1st of year 1; negative before it.
pub open spec fn spec_days_from_year1(y: int, m: int, d: int) -> int {
    spec_era_days(y, m, d) - 146403
}

/// Seconds since the start of year 1, before the zone offset is applied.
pub open spec fn spec_secs_from_year1(y: int, m: int, d: int, h: int, mi: int, sec: int) -> int {
    spec_days_from_year1(y, m, d) * 86400 + h * 3600 + mi * 60 + sec
}

/// An ASCII decimal digit.
pub open spec fn spec_is_digit(c: char) -> bool {
    '0' <= c && c <= '9'
}

/// A digit's value.
pub open spec fn spec_digit(c: char) -> int {
    c as u32 - 48
}

/// The fixed shape of the wall-clock form: `YYYY-MM-DD HH:MM:SS` and a
/// signed offset `+HH`, `+HHMM` or `+HH:MM` (`+` or `-`).
pub open spec fn spec_ts_shape_ok(s: Seq<char>) -> bool {
    &&& (s.len() == 23 || s.len() == 25 || s.len() == 26)
    &&& spec_is_digit(s[0]) && spec_is_digit(s[1]) && spec_is_digit(s[2]) && spec_is_digit(s[3])
    &&& s[4] == '-' && spec_is_digit(s[5]) && spec_is_digit(s[6])
    &&& s[7] == '-' && spec_is_digit(s[8]) && spec_is_digit(s[9])
    &&& s[10] == ' ' && spec_is_digit(s[11]) && spec_is_digit(s[12])
    &&& s[13] == ':' && spec_is_digit(s[14]) && spec_is_digit(s[15])
    &&& s[16] == ':' && spec_is_digit(s[17]) && spec_is_digit(s[18])
    &&& s[19] == ' ' && (s[20] == '+' || s[20] == '-')
    &&& spec_is_digit(s[21]) && spec_is_digit(s[22])
    &&& (s.len() == 25 ==> spec_is_digit(s[23]) && spec_is_digit(s[24]))
    &&& (s.len() == 26 ==> s[23] == ':' && spec_is_digit(s[24]) && spec_is_digit(s[25]))
}

/// The offset's minutes part; zero when only hours are given.
pub open spec fn spec_ts_offset_minutes(s: Seq<char>) -> int {
    if s.len() == 25 {
        spec_digit(s[23]) * 10 + spec_digit(s[24])
    } else if s.len() == 26 {
        spec_digit(s[24]) * 10 + spec_digit(s[25])
    } else {
        0
    }
}

/// What parsing a wall-clock string yields: the tick value of the instant,
/// or [`Error::MalformedTimestamp`] when the string departs from the fixed
/// shape, a field is out of its calendar range, or the instant lies before
/// the tick epoch.
pub open spec fn spec_parse_timestamp(s: Seq<char>) -> Result<u64, Error> {
    if !spec_ts_shape_ok(s) {
        Err(Error::MalformedTimestamp)
    } else {
        let y = spec_digit(s[0]) * 1000 + spec_digit(s[1]) * 100 + spec_digit(s[2]) * 10
            + spec_digit(s[3]);
        let mo = spec_digit(s[5]) * 10 + spec_digit(s[6]);
        let da = spec_digit(s[8]) * 10 + spec_digit(s[9]);
        let h = spec_digit(s[11]) * 10 + spec_digit(s[12]);
        let mi = spec_digit(s[14]) * 10 + spec_digit(s[15]);
        let sec = spec_digit(s[17]) * 10 + spec_digit(s[18]);
        let oh = spec_digit(s[21]) * 10 + spec_digit(s[22]);
        let om = spec_ts_offset_minutes(s);
        if !(1 <= mo && mo <= 12 && 1 <= da && da <= spec_days_in_month(y, mo) && h <= 23 && mi
            <= 59 && sec <= 59 && oh <= 23 && om <= 59) {
            Err(Error::MalformedTimestamp)
        } else {
            let off = if s[20] == '-' {
                -(oh * 3600 + om * 60)
            } else {
                oh * 3600 + om * 60
            };
            let total = spec_secs_from_year1(y, mo, da, h, mi, sec) - off;
            if total < 0 {
                Err(Error::MalformedTimestamp)
            } else {
                Ok((total * 10_000_000) as u64)
            }
        }
    }
}

/// A wall-clock instant, split into plain calendar and clock fields.
/// [`DateTime::from_ticks`] always returns it in UTC.
#[derive(Clone, Copy, Debug, PartialEq, Eq, Structural)]
pub struct DateTime {
    /// Proleptic Gregorian calendar year.
    pub year: u64,
    /// Month, 1 through 12.
    pub month: u8,
    /// Day of the month, 1-based.
    pub day: u8,
    /// Hour, 0 through 23.
    pub hour: u8,
    /// Minute, 0 through 59.
    pub minute: u8,
    /// Second, 0 through 59.
    pub second: u8,
}

impl DateTime {
    /// The fields lie in their calendar and clock ranges.
    pub open spec fn valid(self) -> bool {
        &&& spec_valid_date(self.year as int, self.month as int, self.day as int)
        &&& self.hour < 24
        &&& self.minute < 60
        &&& self.second < 60
    }

    /// The seconds-since-year-1 value this instant, read as UTC, denotes.
    pub open spec fn spec_secs(self) -> int {
        spec_secs_from_year1(
            self.year as int,
            self.month as int,
            self.day as int,
            self.hour as int,
            self.minute as int,
            self.second as int,
        )
    }
}

/// An ASCII decimal digit.
#[verifier::when_used_as_spec(spec_is_digit)]
fn is_digit(c: char) -> (r: bool)
    ensures
        r == spec_is_digit(c),
{
    '0' <= c && c <= '9'
}

/// A digit's value.
fn digit(c: char) -> (r: u64)
    requires
        spec_is_digit(c),
    ensures
        r as int == spec_digit(c),
{
    (c as u32 - 48) as u64
}

/// Parses a wall-clock date-time with zone offset and converts it to ticks:
/// the seconds since the Unix epoch of the denoted instant, times
/// [`TICKS_PER_SECOND`], plus [`UNIX_EPOCH_TICKS`].  Fails with
/// [`Error::MalformedTimestamp`] on any departure from the fixed shape, an
/// out-of-range field, or an instant before year 1.
#[verifier::rlimit(100)]
#[verifier::spinoff_prover]
pub fn to_ticks(s: &str) -> (r: Result<u64, Error>)
    ensures
        r == spec_parse_timestamp(s@),
{
    let cs = crate::chars_of(s);
    if !(cs.len() == 23 || cs.len() == 25 || cs.len() == 26) {
        return Err(Error::MalformedTimestamp);
    }
    if !(is_digit(cs[0]) && is_digit(cs[1]) && is_digit(cs[2]) && is_digit(cs[3])) {
        return Err(Error::MalformedTimestamp);
    }
    if !(cs[4] == '-' && is_digit(cs[5]) && is_digit(cs[6])) {
        return Err(Error::MalformedTimestamp);
    }
    if !(cs[7] == '-' && is_digit(cs[8]) && is_digit(cs[9])) {
        return Err(Error::MalformedTimestamp);
    }
    if !(cs[10] == ' ' && is_digit(cs[11]) && is_digit(cs[12])) {
        return Err(Error::MalformedTimestamp);
    }
    if !(cs[13] == ':' && is_digit(cs[14]) && is_digit(cs[15])) {
        return Err(Error::MalformedTimestamp);
    }
    if !(cs[16] == ':' && is_digit(cs[17]) && is_digit(cs[18])) {
        return Err(Error::MalformedTimestamp);
    }
    if !(cs[19] == ' ' && (cs[20] == '+' || cs[20] == '-')) {
        return Err(Error::MalformedTimestamp);
    }
    if !(is_digit(cs[21]) && is_digit(cs[22])) {
        return Err(Error::MalformedTimestamp);
    }
    if cs.len() == 25 && !(is_digit(cs[23]) && is_digit(cs[24])) {
        return Err(Error::MalformedTimestamp);
    }
    if cs.len() == 26 && !(cs[23] == ':' && is_digit(cs[24]) && is_digit(cs[25])) {
        return Err(Error::MalformedTimestamp);
    }
    let y = digit(cs[0]) * 1000 + digit(cs[1]) * 100 + digit(cs[2]) * 10 + digit(cs[3]);
    let mo = digit(cs[5]) * 10 + digit(cs[6]);
    let da = digit(cs[8]) * 10 + digit(cs[9]);
    let h = digit(cs[11]) * 10 + digit(cs[12]);
    let mi = digit(cs[14]) * 10 + digit(cs[15]);
    let sec = digit(cs[17]) * 10 + digit(cs[18]);
    let oh = digit(cs[21]) * 10 + digit(cs[22]);
    let om: u64 = if cs.len() == 25 {
        digit(cs[23]) * 10 + digit(cs[24])
    } else if cs.len() == 26 {
        digit(cs[24]) * 10 + digit(cs[25])
    } else {
        0
    };
    if !(1 <= mo && mo <= 12 && 1 <= da && da <= days_in_month(y, mo) && h <= 23 && mi <= 59 && sec
        <= 59 && oh <= 23 && om <= 59) {
        return Err(Error::MalformedTimestamp);
    }
    let yy = if mo <= 2 {
        y + 399
    } else {
        y + 400
    };
    let era = yy / 400;
    let yoe = yy % 400;
    let mp = if mo > 2 {
        mo - 3
    } else {
        mo + 9
    };
    let doy = (153 * mp + 2) / 5 + da - 1;
    proof {
        assert(era <= 25 && yoe <= 399);
        assert(mp <= 11);
        assert((153 * mp + 2) / 5 <= 337);
        assert(yoe / 100 <= yoe * 365 + yoe / 4);
    }
    let edays = era * 146097 + (yoe * 365 + yoe / 4 - yoe / 100) + doy;
    let shifted = edays * 86400 + h * 3600 + mi * 60 + sec;
    let offmag = oh * 3600 + om * 60;
    let base: u64 = ERA_BASE_DAYS * 86400;
    let total: u64 = if cs[20] == '-' {
        if shifted + offmag < base {
            return Err(Error::MalformedTimestamp);
        }
        shifted + offmag - base
    } else {
        if shifted < base + offmag {
            return Err(Error::MalformedTimestamp);
        }
        shifted - base - offmag
    };
    proof {
        assert(edays <= 3_798_526);
        assert(total <= 330_000_000_000);
    }
    Ok(total * 10_000_000)
}

/// The day count of a month.
fn days_in_month(y: u64, m: u64) -> (r: u64)
    ensures
        r as int == spec_days_in_month(y as int, m as int),
{
    if m == 2 {
        if (y % 4 == 0 && y % 100 != 0) || y % 400 == 0 {
            29
        } else {
            28
        }
    } else if m == 4 || m == 6 || m == 9 || m == 11 {
        30
    } else {
        31
    }
}

/// Day count from March 1st within a 400-year era, before year-of-era
/// `yoe` begins (March-based years).
pub open spec fn spec_days_before_yoe(yoe: int) -> int {
    365 * yoe + yoe / 4 - yoe / 100
}

/// Day count from March 1st within a 400-year era, before year-of-era
/// `yoe` begins.
fn days_before_yoe(yoe: u64) -> (r: u64)
    requires
        yoe <= 400,
    ensures
        r as int == spec_days_before_yoe(yoe as int),
{
    proof {
        lemma_div_is_ordered_by_denominator(yoe as int, 4, 100);
    }
    yoe * 365 + yoe / 4 - yoe / 100
}

/// Finding the year of era under a day of era: the remaining day-of-year is
/// at most 365, and it reaches 365 only at the era's end or right before a
/// leap year.
proof fn lemma_yoe_bounds(doe: int, yoe: int, est: int)
    requires
        0 <= doe < 146097,
        est == doe / 365,
        0 <= yoe <= 399,
        spec_days_before_yoe(yoe) <= doe,
        yoe == (if est > 399 {
            399int
        } else {
            est
        }) || spec_days_before_yoe(yoe + 1) > doe,
    ensures
        doe - spec_days_before_yoe(yoe) <= 365,
        doe - spec_days_before_yoe(yoe) == 365 ==> (yoe == 399 || ((yoe + 1) % 4 == 0 && (yoe + 1)
            % 100 != 0)),
{
    let before = spec_days_before_yoe(yoe);
    lemma_div_is_ordered_by_denominator(yoe, 4, 100);
    if yoe == est && est <= 399 {
        lemma_fundamental_div_mod(doe, 365);
        assert(doe < 365 * yoe + 365);
        assert(doe - before <= 364);
    } else if spec_days_before_yoe(yoe + 1) > doe {
        let q4 = yoe / 4;
        let r4 = yoe % 4;
        let q100 = yoe / 100;
        let r100 = yoe % 100;
        lemma_fundamental_div_mod(yoe, 4);
        lemma_fundamental_div_mod(yoe, 100);
        if r4 < 3 {
            lemma_fundamental_div_mod_converse_div(yoe + 1, 4, q4, r4 + 1);
        } else {
            lemma_fundamental_div_mod_converse_div(yoe + 1, 4, q4 + 1, 0);
            lemma_fundamental_div_mod_converse_mod(yoe + 1, 4, q4 + 1, 0);
        }
        if r100 < 99 {
            lemma_fundamental_div_mod_converse_div(yoe + 1, 100, q100, r100 + 1);
            lemma_fundamental_div_mod_converse_mod(yoe + 1, 100, q100, r100 + 1);
        } else {
            lemma_fundamental_div_mod_converse_div(yoe + 1, 100, q100 + 1, 0);
            lemma_fundamental_div_mod_converse_mod(yoe + 1, 100, q100 + 1, 0);
        }
        assert(doe - before <= 365);
        if doe - before == 365 {
            assert((yoe + 1) / 4 == q4 + 1 && (yoe + 1) / 100 == q100);
            assert((yoe + 1) % 4 == 0 && (yoe + 1) % 100 != 0);
        }
    } else {
        lemma_fundamental_div_mod_converse_div(145731int + 365, 365, 400, 96);
        lemma_fundamental_div_mod_converse_div(399, 4, 99, 3);
        lemma_fundamental_div_mod_converse_div(399, 100, 3, 99);
        assert(spec_days_before_yoe(399) == 145731);
        assert(doe - before <= 365);
    }
}

impl DateTime {
    /// The exact inverse of the tick conversion: drops the sub-second
    /// remainder, then splits the seconds since year 1 into the unique
    /// calendar-valid UTC instant denoting them.
    #[verifier::rlimit(100)]
    #[verifier::spinoff_prover]
    pub fn from_ticks(ticks: u64) -> (r: DateTime)
        ensures
            r.valid(),
            r.spec_secs() == ticks / 10_000_000,
    {
        let secs = ticks / TICKS_PER_SECOND;
        let days = secs / 86400;
        let tod = secs % 86400;
        let hour = (tod / 3600) as u8;
        let rest = tod % 3600;
        let minute = (rest / 60) as u8;
        let second = (rest % 60) as u8;
        let z = days + 306;
        let era = z / 146097;
        let doe = z % 146097;
        let est = doe / 365;
        let mut yoe: u64 = if est > 399 {
            399
        } else {
            est
        };
        proof {
            lemma_div_is_ordered_by_denominator(est as int, 1, 365);
        }
        while days_before_yoe(yoe) > doe
            invariant
                doe < 146097,
                est == doe / 365,
                yoe <= 399,
                yoe == (if est > 399 {
                    399u64
                } else {
                    est
                }) || spec_days_before_yoe(yoe as int + 1) > doe,
            decreases yoe,
        {
            proof {
                if yoe == 0 {
                    assert(spec_days_before_yoe(0) == 0);
                }
            }
            yoe = yoe - 1;
        }
        let before = days_before_yoe(yoe);
        let doy = doe - before;
        proof {
            lemma_yoe_bounds(doe as int, yoe as int, est as int);
        }
        let (mp, d): (u64, u64) = if doy < 31 {
            (0, doy + 1)
        } else if doy < 61 {
            (1, doy - 30)
        } else if doy < 92 {
            (2, doy - 60)
        } else if doy < 122 {
            (3, doy - 91)
        } else if doy < 153 {
            (4, doy - 121)
        } else if doy < 184 {
            (5, doy - 152)
        } else if doy < 214 {
            (6, doy - 183)
        } else if doy < 245 {
            (7, doy - 213)
        } else if doy < 275 {
            (8, doy - 244)
        } else if doy < 306 {
            (9, doy - 274)
        } else if doy < 337 {
            (10, doy - 305)
        } else {
            (11, doy - 336)
        };
        let m: u64 = if mp < 10 {
            mp + 3
        } else {
            mp - 9
        };
        let y: u64 = era * 400 + yoe + (if m <= 2 {
            1
        } else {
            0
        });
        proof {
            let yi = y as int;
            let ei = era as int;
            let ye = yoe as int;
            let yy: int = if m <= 2 {
                yi + 399
            } else {
                yi + 400
            };
            assert(yy == 400 * (ei + 1) + ye);
            lemma_fundamental_div_mod_converse_div(yy, 400, ei + 1, ye);
            lemma_fundamental_div_mod_converse_mod(yy, 400, ei + 1, ye);
            assert((153 * (mp as int) + 2) / 5 + d - 1 == doy as int);
            assert(spec_era_days(yi, m as int, d as int) == (ei + 1) * 146097
                + spec_days_before_yoe(ye) + doy);
            assert(spec_era_days(yi, m as int, d as int) == z + 146097);
            assert(spec_days_from_year1(yi, m as int, d as int) == days);
            if m == 2 && d == 29 {
                assert(doy == 365);
                if yoe == 399 {
                    assert(yi == 400 * (ei + 1));
                    lemma_fundamental_div_mod_converse_mod(yi, 400, ei + 1, 0);
                    assert(spec_is_leap(yi));
                } else {
                    assert((ye + 1) % 4 == 0 && (ye + 1) % 100 != 0);
                    assert(yi == 400 * ei + (ye + 1));
                    assert(yi == 4 * (100 * ei + (ye + 1) / 4) + (ye + 1) % 4) by {
                        lemma_fundamental_div_mod(ye + 1, 4);
                    }
                    lemma_fundamental_div_mod_converse_mod(
                        yi,
                        4,
                        100 * ei + (ye + 1) / 4,
                        (ye + 1) % 4,
                    );
                    assert(yi == 100 * (4 * ei + (ye + 1) / 100) + (ye + 1) % 100) by {
                        lemma_fundamental_div_mod(ye + 1, 100);
                    }
                    lemma_fundamental_div_mod_converse_mod(
                        yi,
                        100,
                        4 * ei + (ye + 1) / 100,
                        (ye + 1) % 100,
                    );
                    assert(spec_is_leap(yi));
                }
            }
            assert(spec_valid_date(yi, m as int, d as int));
        }
        DateTime { year: y, month: m as u8, day: d as u8, hour, minute, second }
    }
}

} // verus!
