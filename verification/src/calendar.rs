//! Proleptic Gregorian calendar arithmetic on day numbers.
//!
//! Day numbers count days from 0000-03-01, so that the leap day is the last
//! day of each (March-based) year. Day 719_468 is 1970-01-01.

use vstd::prelude::*;

verus! {

/// Gregorian leap-year rule.
pub open spec fn is_leap(y: int) -> bool {
    y % 4 == 0 && (y % 100 != 0 || y % 400 == 0)
}

/// Length of month `m` (1-based) in year `y`.
pub open spec fn days_in_month(y: int, m: int) -> int {
    if m == 2 {
        if is_leap(y) {
            29
        } else {
            28
        }
    } else if m == 4 || m == 6 || m == 9 || m == 11 {
        30
    } else {
        31
    }
}

/// `(y, m, d)` names a day of the calendar.
pub open spec fn valid_date(y: int, m: int, d: int) -> bool {
    1 <= m <= 12 && 1 <= d <= days_in_month(y, m)
}

/// Day number of the date `y-m-d`: whole years since 0000-03-01 (with their
/// leap days), then whole months since March, then days.
pub open spec fn civil_day(y: int, m: int, d: int) -> int {
    let yy = if m <= 2 {
        y - 1
    } else {
        y
    };
    let mp = if m > 2 {
        m - 3
    } else {
        m + 9
    };
    365 * yy + yy / 4 - yy / 100 + yy / 400 + (153 * mp + 2) / 5 + d - 1
}

/// The date whose day number is `z`.
pub open spec fn date_of_day(z: int) -> (int, int, int) {
    choose|t: (int, int, int)| valid_date(t.0, t.1, t.2) && civil_day(t.0, t.1, t.2) == z
}

/// Day offset of March-year `c` (0..=400) inside a 400-year era.
pub open spec fn year_start(c: int) -> int {
    365 * c + c / 4 - c / 100
}

/// The era / year-of-era decomposition computed by `days_to_civil`.
pub open spec fn civil_fields(z: int) -> (int, int, int) {
    let era = z / 146097;
    let doe = z - era * 146097;
    let yoe = (doe - doe / 1460 + doe / 36524 - doe / 146096) / 365;
    let doy = doe - year_start(yoe);
    let mp = (5 * doy + 2) / 153;
    let d = doy - (153 * mp + 2) / 5 + 1;
    let m = if mp < 10 {
        mp + 3
    } else {
        mp - 9
    };
    let y = yoe + era * 400 + (if m <= 2 {
        1int
    } else {
        0
    });
    (y, m, d)
}

proof fn lemma_yoe_witness(doe: int, c: int)
    requires
        0 <= c <= 399,
        year_start(c) <= doe,
        c < 399 ==> doe < year_start(c + 1),
        c == 399 ==> doe <= 146096,
    ensures
        (doe - doe / 1460 + doe / 36524 - doe / 146096) / 365 == c,
{
}

proof fn lemma_find_year(doe: int, c: int) -> (r: int)
    requires
        0 <= c <= 399,
        year_start(c) <= doe <= 146096,
    ensures
        c <= r <= 399,
        year_start(r) <= doe,
        r < 399 ==> doe < year_start(r + 1),
    decreases 399 - c,
{
    if c == 399 || doe < year_start(c + 1) {
        c
    } else {
        lemma_find_year(doe, c + 1)
    }
}

/// Month-of-year recovery: the day-of-(March)-year of day `d` of month
/// index `mp` maps back to `mp`.
proof fn lemma_month_recovery(mp: int, d: int)
    requires
        0 <= mp <= 11,
        1 <= d,
        mp == 11 ==> d <= 29,
        (mp == 1 || mp == 3 || mp == 6 || mp == 8) ==> d <= 30,
        d <= 31,
    ensures
        ({
            let doy = (153 * mp + 2) / 5 + d - 1;
            (5 * doy + 2) / 153 == mp
        }),
{
}

/// The fields computed from any day number name a valid date with that day
/// number.
pub proof fn lemma_civil_fields_valid(z: int)
    ensures
        valid_date(civil_fields(z).0, civil_fields(z).1, civil_fields(z).2),
        civil_day(civil_fields(z).0, civil_fields(z).1, civil_fields(z).2) == z,
{
    let era = z / 146097;
    let doe = z - era * 146097;
    assert(0 <= doe <= 146096);
    let c = lemma_find_year(doe, 0);
    lemma_yoe_witness(doe, c);
    let yoe = (doe - doe / 1460 + doe / 36524 - doe / 146096) / 365;
    assert(yoe == c);
    let doy = doe - year_start(yoe);
    assert(0 <= doy <= 365);
    assert(doy == 365 ==> (yoe + 1) % 4 == 0 && ((yoe + 1) % 100 != 0 || (yoe + 1) % 400 == 0));
    let mp = (5 * doy + 2) / 153;
    let d = doy - (153 * mp + 2) / 5 + 1;
    assert(0 <= mp <= 11);
    assert(1 <= d);
    let m = if mp < 10 {
        mp + 3
    } else {
        mp - 9
    };
    let y = yoe + era * 400 + (if m <= 2 {
        1int
    } else {
        0
    });
    assert(civil_fields(z) == (y, m, d));
    // Leap years are preserved by shifting whole eras.
    assert((yoe + 1 + era * 400) % 4 == (yoe + 1) % 4);
    assert((yoe + 1 + era * 400) % 100 == (yoe + 1) % 100);
    assert((yoe + 1 + era * 400) % 400 == (yoe + 1) % 400);
    assert(d <= days_in_month(y, m));
    let yy = yoe + era * 400;
    assert(yy / 4 == yoe / 4 + era * 100);
    assert(yy / 100 == yoe / 100 + era * 4);
    assert(yy / 400 == era);
    assert(civil_day(y, m, d) == z);
}

proof fn lemma_era_split(yy: int)
    ensures
        0 <= yy - 400 * (yy / 400) <= 399,
        yy / 4 == (yy - 400 * (yy / 400)) / 4 + (yy / 400) * 100,
        yy / 100 == (yy - 400 * (yy / 400)) / 100 + (yy / 400) * 4,
{
}

proof fn lemma_leap_shift(c: int, e: int)
    ensures
        is_leap(c + 400 * e) == is_leap(c),
{
    assert((c + 400 * e) % 4 == c % 4);
    assert((c + 400 * e) % 100 == c % 100);
    assert((c + 400 * e) % 400 == c % 400);
}

proof fn lemma_doy_bound(y: int, m: int, d: int)
    requires
        valid_date(y, m, d),
    ensures
        ({
            let mp = if m > 2 {
                m - 3
            } else {
                m + 9
            };
            let doy = (153 * mp + 2) / 5 + d - 1;
            &&& 0 <= doy <= 365
            &&& doy == 365 ==> is_leap(y)
        }),
{
}

proof fn lemma_era_div(e: int, r: int)
    requires
        0 <= r <= 146096,
    ensures
        (146097 * e + r) / 146097 == e,
{
}

/// Recomputing the fields from the day number of a valid date gives the date
/// back.
pub proof fn lemma_civil_fields_roundtrip(y: int, m: int, d: int)
    requires
        valid_date(y, m, d),
    ensures
        civil_fields(civil_day(y, m, d)) == (y, m, d),
{
    let z = civil_day(y, m, d);
    let yy = if m <= 2 {
        y - 1
    } else {
        y
    };
    let mp = if m > 2 {
        m - 3
    } else {
        m + 9
    };
    let e = yy / 400;
    let c = yy - 400 * e;
    lemma_era_split(yy);
    lemma_month_recovery(mp, d);
    lemma_doy_bound(y, m, d);
    let doy = (153 * mp + 2) / 5 + d - 1;
    assert(doy == 365 ==> m == 2);
    lemma_leap_shift(c + 1, e);
    assert(doy == 365 ==> is_leap(c + 1));
    assert(doy == 365 ==> (c + 1) % 4 == 0 && ((c + 1) % 100 != 0 || (c + 1) % 400 == 0));
    assert(year_start(c) + doy <= 146096) by {
        if c == 399 {
        } else {
            assert(doy == 365 ==> year_start(c + 1) - year_start(c) == 366);
        }
    }
    assert(z == 146097 * e + (year_start(c) + doy));
    lemma_era_div(e, year_start(c) + doy);
    let doe = z - e * 146097;
    assert(doe == year_start(c) + doy);
    assert(c < 399 ==> doe < year_start(c + 1)) by {
        if c < 399 {
            assert(doy == 365 ==> year_start(c + 1) - year_start(c) == 366);
        }
    }
    lemma_yoe_witness(doe, c);
}

/// Two valid dates with the same day number are the same date.
pub proof fn lemma_civil_day_injective(y1: int, m1: int, d1: int, y2: int, m2: int, d2: int)
    requires
        valid_date(y1, m1, d1),
        valid_date(y2, m2, d2),
        civil_day(y1, m1, d1) == civil_day(y2, m2, d2),
    ensures
        y1 == y2 && m1 == m2 && d1 == d2,
{
    lemma_civil_fields_roundtrip(y1, m1, d1);
    lemma_civil_fields_roundtrip(y2, m2, d2);
}

/// `date_of_day` is the date that `civil_fields` computes.
pub proof fn lemma_date_of_day(z: int)
    ensures
        date_of_day(z) == civil_fields(z),
        valid_date(date_of_day(z).0, date_of_day(z).1, date_of_day(z).2),
        civil_day(date_of_day(z).0, date_of_day(z).1, date_of_day(z).2) == z,
{
    lemma_civil_fields_valid(z);
    let f = civil_fields(z);
    assert(valid_date(f.0, f.1, f.2) && civil_day(f.0, f.1, f.2) == z);
    let t = date_of_day(z);
    lemma_civil_day_injective(t.0, t.1, t.2, f.0, f.1, f.2);
}

/// Converts a day number (days since 0000-03-01) to a Gregorian
/// `(year, month, day)`; the year is truncated to `i32` as the caller renders it.
pub fn days_to_civil(z: i64) -> (r: (i32, u32, u32))
    requires
        -0x4000_0000_0000_0000 <= z <= 0x4000_0000_0000_0000,
    ensures
        r.0 == date_of_day(z as int).0 as i32,
        r.1 as int == date_of_day(z as int).1,
        r.2 as int == date_of_day(z as int).2,
{
    proof {
        lemma_date_of_day(z as int);
        lemma_civil_fields_valid(z as int);
    }
    let era = if z >= 0 {
        z
    } else {
        z - 146_096
    } / 146_097;
    assert(era == z / 146_097);
    let doe = (z - era * 146_097) as u64;
    let yoe = (doe - doe / 1_460 + doe / 36_524 - doe / 146_096) / 365;
    let y = yoe as i64 + era * 400;
    let doy = doe - (365 * yoe + yoe / 4 - yoe / 100);
    let mp = (5 * doy + 2) / 153;
    let d = doy - (153 * mp + 2) / 5 + 1;
    let m = if mp < 10 {
        mp + 3
    } else {
        mp - 9
    };
    let y = if m <= 2 {
        y + 1
    } else {
        y
    };
    (y as i32, m as u32, d as u32)
}

} // verus!
