use vstd::prelude::*;

use crate::text::{
    chars_of, find_char, find_char_range, is_char, parse_i32_range, parse_i32_spec,
    parse_unsigned, parse_unsigned_range, piece, split_by, split_ranges, trim_bounds,
    trim_end_by, trim_ws, trimmed_end, bounds_ok,
};

verus! {

pub const MS_PER_DAY: u64 = 86_400_000;

// ---------------------------------------------------------------------------
// Civil dates
// ---------------------------------------------------------------------------

/// Days from 1970-01-01 to the proleptic Gregorian date `y-m-d`, by the
/// era-based count (eras of 400 years starting on 1 March).
pub open spec fn civil_days(y: int, m: int, d: int) -> int {
    let y2 = if m <= 2 { y - 1 } else { y };
    let era = y2 / 400;
    let yoe = y2 - era * 400;
    let mp = if m > 2 { m - 3 } else { m + 9 };
    let doy = (153 * mp + 2) / 5 + d - 1;
    let doe = yoe * 365 + yoe / 4 - yoe / 100 + doy;
    era * 146097 + doe - 719468
}

/// The inputs on which the day count's 32- and 64-bit arithmetic does not
/// overflow (with negative days and months the count wraps through `u64`
/// and comes back, which is only safe while the sums stay in range).
pub open spec fn civil_in_range(y: int, m: int, d: int) -> bool {
    let y2 = if m <= 2 { y - 1 } else { y };
    let mp = if m > 2 { m - 3 } else { m + 9 };
    let q = (153 * mp + 2) / 5;
    let yoe = y2 % 400;
    let yd = yoe * 365 + yoe / 4 - yoe / 100;
    &&& y2 >= i32::MIN
    &&& (y2 < 0 ==> y2 - 399 >= i32::MIN)
    &&& mp >= 0
    &&& if d >= 0 {
        q + d >= 1
    } else {
        q + d <= -1 && yd + q + d <= 0
    }
}

proof fn lemma_floor_div_400(y2: int)
    ensures
        y2 < 0 ==> y2 / 400 == -((-y2 + 399) / 400),
{
    if y2 < 0 {
        let a = -y2;
        let q = (a + 399) / 400;
        let r = (a + 399) % 400;
        assert(a + 399 == 400 * q + r && 0 <= r < 400) by (nonlinear_arith)
            requires
                q == (a + 399) / 400,
                r == (a + 399) % 400,
        ;
        assert(y2 == 400 * (-q) + (399 - r));
        assert(y2 / 400 == -q) by (nonlinear_arith)
            requires
                y2 == 400 * (-q) + (399 - r),
                0 <= 399 - r < 400,
        ;
    }
}

/// Days from 1970-01-01 to `y-m-d` (proleptic Gregorian calendar).
pub fn days_from_civil(y: i32, m: i32, d: i32) -> (r: Option<i64>)
    requires
        civil_in_range(y as int, m as int, d as int),
    ensures
        r == Some(civil_days(y as int, m as int, d as int) as i64),
{
    let y2: i64 = if m <= 2 {
        y as i64 - 1
    } else {
        y as i64
    };
    proof {
        lemma_floor_div_400(y2 as int);
    }
    let era: i64 = if y2 >= 0 {
        y2 / 400
    } else {
        -((-y2 + 399) / 400)
    };
    let yoe: i64 = y2 - era * 400;
    assert(0 <= yoe < 400);
    let mp: i64 = if m > 2 {
        m as i64 - 3
    } else {
        m as i64 + 9
    };
    let q: i64 = (153 * mp + 2) / 5;
    let doy: i64 = q + d as i64 - 1;
    let doe: i64 = yoe * 365 + yoe / 4 - yoe / 100 + doy;
    Some(era * 146097 + doe - 719468)
}


// ---------------------------------------------------------------------------
// The day count is the Gregorian calendar
// ---------------------------------------------------------------------------

pub open spec fn is_leap(y: int) -> bool {
    y % 4 == 0 && (y % 100 != 0 || y % 400 == 0)
}

pub open spec fn days_in_month(y: int, m: int) -> int {
    if m == 2 {
        if is_leap(y) {
            29
        } else {
            28
        }
    } else if m == 4 || m == 6 || m == 9 || m == 11 {
        30
    } else {
        31
    }
}

pub open spec fn valid_date(y: int, m: int, d: int) -> bool {
    1 <= m <= 12 && 1 <= d <= days_in_month(y, m)
}

/// The calendar date after `y-m-d`.
pub open spec fn next_date(y: int, m: int, d: int) -> (int, int, int) {
    if d < days_in_month(y, m) {
        (y, m, d + 1)
    } else if m < 12 {
        (y, m + 1, 1)
    } else {
        (y + 1, 1, 1)
    }
}

/// Day 0 is 1970-01-01.
pub proof fn lemma_civil_epoch()
    ensures
        civil_days(1970, 1, 1) == 0,
{
}

/// Every calendar date of the years 1 to 9999 is counted without overflow.
pub proof fn lemma_ordinary_dates_in_range(y: int, m: int, d: int)
    requires
        valid_date(y, m, d),
        1 <= y <= 9999,
    ensures
        civil_in_range(y, m, d),
{
    let mp = if m > 2 { m - 3 } else { m + 9 };
    assert((153 * mp + 2) / 5 >= 0) by (nonlinear_arith)
        requires
            mp >= 0,
    ;
}

/// The day count of a date of the years 1 to 9999 is a few million days at
/// most either side of the epoch.
proof fn lemma_civil_days_bounds(y: int, m: int, d: int)
    requires
        valid_date(y, m, d),
        1 <= y <= 9999,
    ensures
        -719_468 <= civil_days(y, m, d) <= 2_933_000,
{
    let y2 = if m <= 2 { y - 1 } else { y };
    let era = y2 / 400;
    let yoe = y2 - era * 400;
    let mp = if m > 2 { m - 3 } else { m + 9 };
    let doy = (153 * mp + 2) / 5 + d - 1;
    let doe = yoe * 365 + yoe / 4 - yoe / 100 + doy;
    assert(0 <= era <= 24 && 0 <= yoe < 400) by (nonlinear_arith)
        requires
            0 <= y2 <= 9999,
            era == y2 / 400,
            yoe == y2 - era * 400,
    ;
    assert(0 <= (153 * mp + 2) / 5 <= 337) by (nonlinear_arith)
        requires
            0 <= mp <= 11,
    ;
    assert(0 <= yoe * 365 <= 145_635 && 0 <= yoe / 4 <= 99 && 0 <= yoe / 100 <= 3)
        by (nonlinear_arith)
        requires
            0 <= yoe < 400,
    ;
    assert(0 <= doe <= 146_200);
    assert(0 <= era * 146097 <= 24 * 146097) by (nonlinear_arith)
        requires
            0 <= era <= 24,
    ;
}

/// Consecutive calendar dates are consecutive days: the count of
/// [`days_from_civil`] follows the Gregorian calendar, leap years included.
pub proof fn lemma_civil_next_day(y: int, m: int, d: int)
    requires
        valid_date(y, m, d),
    ensures
        civil_days(next_date(y, m, d).0, next_date(y, m, d).1, next_date(y, m, d).2) == civil_days(
            y,
            m,
            d,
        ) + 1,
{
    if d < days_in_month(y, m) {
    } else if m == 12 {
        lemma_year_shift(y);
    } else if m == 2 {
        lemma_march_first(y);
    } else {
        assert(m == 1 || (3 <= m <= 11));
        if m == 1 {
        } else if m == 3 {
        } else if m == 4 {
        } else if m == 5 {
        } else if m == 6 {
        } else if m == 7 {
        } else if m == 8 {
        } else if m == 9 {
        } else if m == 10 {
        } else {
        }
    }
}

/// 31 December and the following 1 January share the shifted year.
proof fn lemma_year_shift(y: int)
    ensures
        civil_days(y + 1, 1, 1) == civil_days(y, 12, 31) + 1,
{
}

/// Going from `k - 1` to `k`, the quotient by `d` grows by one exactly when
/// `d` divides `k`.
proof fn lemma_div_step(k: int, d: int)
    requires
        k >= 1,
        d > 0,
    ensures
        k / d - (k - 1) / d == if k % d == 0 {
            1int
        } else {
            0int
        },
{
    let q = (k - 1) / d;
    let r = (k - 1) % d;
    assert(k - 1 == q * d + r && 0 <= r < d) by (nonlinear_arith)
        requires
            q == (k - 1) / d,
            r == (k - 1) % d,
            d > 0,
    ;
    if r == d - 1 {
        assert(k == (q + 1) * d) by (nonlinear_arith)
            requires
                k - 1 == q * d + r,
                r == d - 1,
        ;
        assert(k / d == q + 1 && k % d == 0) by (nonlinear_arith)
            requires
                k == (q + 1) * d,
                d > 0,
        ;
    } else {
        assert(k / d == q && k % d == r + 1) by (nonlinear_arith)
            requires
                k == q * d + (r + 1),
                0 <= r + 1 < d,
        ;
    }
}

/// The day after the last of February is 1 March.
proof fn lemma_march_first(y: int)
    ensures
        civil_days(y, 3, 1) == civil_days(y, 2, days_in_month(y, 2)) + 1,
{
    let y2 = y - 1;
    let era = y2 / 400;
    let yoe = y2 - era * 400;
    assert(0 <= yoe < 400 && y2 == era * 400 + yoe) by (nonlinear_arith)
        requires
            era == y2 / 400,
            yoe == y2 - era * 400,
    ;
    if yoe < 399 {
        assert(y / 400 == era && y - era * 400 == yoe + 1) by (nonlinear_arith)
            requires
                y == era * 400 + yoe + 1,
                0 <= yoe < 399,
        ;
        assert(y % 4 == (yoe + 1) % 4 && y % 100 == (yoe + 1) % 100 && y % 400 == yoe + 1)
            by (nonlinear_arith)
            requires
                y == era * 400 + yoe + 1,
                0 <= yoe < 399,
        ;
        let k = yoe + 1;
        lemma_div_step(k, 4);
        lemma_div_step(k, 100);
        assert(k % 100 == 0 ==> k % 4 == 0) by (nonlinear_arith);
    } else {
        assert(y / 400 == era + 1 && y - (era + 1) * 400 == 0 && y % 400 == 0 && y % 4 == 0) by (nonlinear_arith)
            requires
                y == era * 400 + 400,
        ;
    }
}

// ---------------------------------------------------------------------------
// ISO timestamps
// ---------------------------------------------------------------------------

/// The fields `(year, month, day, hour, minute, second)` that the timestamp
/// reader takes from `s`: after trimming, the date is what precedes the first
/// `T`; its first three `-`-separated pieces are read as `i32`. The time is
/// what follows the `T`, without trailing `Z`s and without anything from the
/// first `.` on; its first three `:`-separated pieces are read as `u32`.
pub open spec fn iso_fields(s: Seq<char>) -> Option<(int, int, int, int, int, int)> {
    let t = trim_ws(s);
    match find_char(t, 'T') {
        None => None,
        Some(k) => {
            let date = t.take(k);
            let time = trim_end_by(t.skip(k + 1), is_char('Z'));
            let hms = match find_char(time, '.') {
                Some(j) => time.take(j),
                None => time,
            };
            let dp = split_by(date, '-');
            let tp = split_by(hms, ':');
            if dp.len() >= 3 && tp.len() >= 3 && parse_i32_spec(dp[0]) is Some && parse_i32_spec(
                dp[1],
            ) is Some && parse_i32_spec(dp[2]) is Some && parse_unsigned(tp[0], u32::MAX as int)
                is Some && parse_unsigned(tp[1], u32::MAX as int) is Some && parse_unsigned(
                tp[2],
                u32::MAX as int,
            ) is Some {
                Some(
                    (
                        parse_i32_spec(dp[0])->0,
                        parse_i32_spec(dp[1])->0,
                        parse_i32_spec(dp[2])->0,
                        parse_unsigned(tp[0], u32::MAX as int)->0 as int,
                        parse_unsigned(tp[1], u32::MAX as int)->0 as int,
                        parse_unsigned(tp[2], u32::MAX as int)->0 as int,
                    ),
                )
            } else {
                None
            }
        },
    }
}

/// Seconds since the epoch named by the fields.
pub open spec fn iso_seconds(f: (int, int, int, int, int, int)) -> int {
    civil_days(f.0, f.1, f.2) * 86400 + f.3 * 3600 + f.4 * 60 + f.5
}

/// The fields of `s`, if any, can be turned into milliseconds without overflow.
pub open spec fn iso_in_range(s: Seq<char>) -> bool {
    match iso_fields(s) {
        Some(f) => civil_in_range(f.0, f.1, f.2) && i64::MIN <= iso_seconds(f) * 1000
            <= i64::MAX,
        None => true,
    }
}

/// Every timestamp whose date lies in the years 1 to 9999 can be read: the
/// overflow guard of [`parse_iso_ms`] lets it through.
pub proof fn lemma_ordinary_timestamps_in_range(s: Seq<char>)
    requires
        iso_fields(s) matches Some((y, m, d, _, _, _)) && valid_date(y, m, d) && 1 <= y <= 9999,
    ensures
        iso_in_range(s),
{
    let (y, m, d, h, mi, se) = iso_fields(s)->0;
    lemma_ordinary_dates_in_range(y, m, d);
    lemma_civil_days_bounds(y, m, d);
    assert(0 <= h <= u32::MAX && 0 <= mi <= u32::MAX && 0 <= se <= u32::MAX);
    let c = civil_days(y, m, d);
    assert(i64::MIN <= (c * 86400 + h * 3600 + mi * 60 + se) * 1000 <= i64::MAX)
        by (nonlinear_arith)
        requires
            -719_468 <= c <= 2_933_000,
            0 <= h <= u32::MAX,
            0 <= mi <= u32::MAX,
            0 <= se <= u32::MAX,
    ;
}

/// What `parse_iso_ms` gives for `s`: the milliseconds since the epoch,
/// reinterpreted as `u64` (so an instant before 1970 wraps around).
pub open spec fn iso_ms(s: Seq<char>) -> Option<u64> {
    match iso_fields(s) {
        Some(f) => Some((iso_seconds(f) * 1000) as i64 as u64),
        None => None,
    }
}

/// Fields of `s`, read as [`iso_fields`] describes.
pub fn iso_fields_exec(s: &str) -> (r: Option<(i32, i32, i32, u32, u32, u32)>)
    ensures
        match r {
            Some(f) => iso_fields(s@) == Some(
                (f.0 as int, f.1 as int, f.2 as int, f.3 as int, f.4 as int, f.5 as int),
            ),
            None => iso_fields(s@) is None,
        },
{
    let cs = chars_of(s);
    let (a, b) = trim_bounds(&cs);
    let ghost t = cs@.subrange(a as int, b as int);
    let k = match find_char_range(&cs, a, b, 'T') {
        Some(k) => k,
        None => {
            return None;
        },
    };
    let ghost date = t.take(k - a);
    assert(date =~= cs@.subrange(a as int, k as int));
    assert(t.skip(k - a + 1) =~= cs@.subrange(k + 1, b as int));
    let e = trimmed_end(&cs, k + 1, b, Some('Z'));
    let ghost time = cs@.subrange(k + 1, e as int);
    let h_end = match find_char_range(&cs, k + 1, e, '.') {
        Some(j) => {
            assert(time.take(j - (k + 1)) =~= cs@.subrange(k + 1, j as int));
            j
        },
        None => e,
    };
    let dp = split_ranges(&cs, a, k, '-');
    let tp = split_ranges(&cs, k + 1, h_end, ':');
    if dp.len() < 3 || tp.len() < 3 {
        return None;
    }
    assert(bounds_ok(dp@[0], cs.len() as int) && bounds_ok(dp@[1], cs.len() as int) && bounds_ok(
        dp@[2],
        cs.len() as int,
    ));
    assert(bounds_ok(tp@[0], cs.len() as int) && bounds_ok(tp@[1], cs.len() as int) && bounds_ok(
        tp@[2],
        cs.len() as int,
    ));
    assert(piece(cs@, dp@[0]) == split_by(date, '-')[0]);
    assert(piece(cs@, dp@[1]) == split_by(date, '-')[1]);
    assert(piece(cs@, dp@[2]) == split_by(date, '-')[2]);
    assert(piece(cs@, tp@[0]) == split_by(cs@.subrange(k + 1, h_end as int), ':')[0]);
    assert(piece(cs@, tp@[1]) == split_by(cs@.subrange(k + 1, h_end as int), ':')[1]);
    assert(piece(cs@, tp@[2]) == split_by(cs@.subrange(k + 1, h_end as int), ':')[2]);
    let y = match parse_i32_range(&cs, dp[0].0, dp[0].1) {
        Some(v) => v,
        None => {
            return None;
        },
    };
    let mo = match parse_i32_range(&cs, dp[1].0, dp[1].1) {
        Some(v) => v,
        None => {
            return None;
        },
    };
    let d = match parse_i32_range(&cs, dp[2].0, dp[2].1) {
        Some(v) => v,
        None => {
            return None;
        },
    };
    let h = match parse_unsigned_range(&cs, tp[0].0, tp[0].1, 4294967295) {
        Some(v) => v as u32,
        None => {
            return None;
        },
    };
    let mi = match parse_unsigned_range(&cs, tp[1].0, tp[1].1, 4294967295) {
        Some(v) => v as u32,
        None => {
            return None;
        },
    };
    let sec = match parse_unsigned_range(&cs, tp[2].0, tp[2].1, 4294967295) {
        Some(v) => v as u32,
        None => {
            return None;
        },
    };
    Some((y, mo, d, h, mi, sec))
}

/// The overflow condition of [`parse_iso_ms`] for `s`, to be tested before
/// the call.
pub fn iso_ms_in_range(s: &str) -> (r: bool)
    ensures
        r == iso_in_range(s@),
{
    match iso_fields_exec(s) {
        None => true,
        Some((y, m, d, h, mi, sec)) => {
            if !civil_in_range_exec(y, m, d) {
                return false;
            }
            let days = match days_from_civil(y, m, d) {
                Some(v) => v as i128,
                None => 0,
            };
            let secs: i128 = days * 86400 + h as i128 * 3600 + mi as i128 * 60 + sec as i128;
            let ms: i128 = secs * 1000;
            i64::MIN as i128 <= ms && ms <= i64::MAX as i128
        },
    }
}

/// [`civil_in_range`], computed.
pub fn civil_in_range_exec(y: i32, m: i32, d: i32) -> (r: bool)
    ensures
        r == civil_in_range(y as int, m as int, d as int),
{
    let y2: i64 = if m <= 2 {
        y as i64 - 1
    } else {
        y as i64
    };
    let mp: i64 = if m > 2 {
        m as i64 - 3
    } else {
        m as i64 + 9
    };
    if y2 < i32::MIN as i64 {
        return false;
    }
    if y2 < 0 && y2 - 399 < i32::MIN as i64 {
        return false;
    }
    if mp < 0 {
        return false;
    }
    let q: i64 = (153 * mp + 2) / 5;
    proof {
        lemma_floor_div_400(y2 as int);
    }
    let era: i64 = if y2 >= 0 {
        y2 / 400
    } else {
        -((-y2 + 399) / 400)
    };
    let yoe: i64 = y2 - era * 400;
    assert(yoe == (y2 as int) % 400);
    let yd: i64 = yoe * 365 + yoe / 4 - yoe / 100;
    if d >= 0 {
        q + d as i64 >= 1
    } else {
        q + d as i64 <= -1 && yd + q + d as i64 <= 0
    }
}

/// Milliseconds since the Unix epoch of an ISO-8601 timestamp such as
/// `2025-08-29T12:00:00.000Z`, as the dashboard writes billing dates; `None`
/// when the text does not have that shape. The offset, if any, is ignored.
pub fn parse_iso_ms(s: &str) -> (r: Option<u64>)
    requires
        iso_in_range(s@),
    ensures
        r == iso_ms(s@),
{
    match iso_fields_exec(s) {
        None => None,
        Some((y, m, d, h, mi, sec)) => {
            match days_from_civil(y, m, d) {
                Some(days) => {
                    let secs: i64 = days * 86_400 + h as i64 * 3600 + mi as i64 * 60 + sec as i64;
                    Some((secs * 1000) as u64)
                },
                None => None,
            }
        },
    }
}


// ---------------------------------------------------------------------------
// Calendar days left in the billing period
// ---------------------------------------------------------------------------

/// Calendar days covering `[day_start_ms, billing_end_ms]`: the span in
/// days rounded up, and at least 1.
pub open spec fn budget_days(day_start_ms: int, billing_end_ms: int) -> int {
    if billing_end_ms <= day_start_ms {
        1
    } else {
        (billing_end_ms - day_start_ms + MS_PER_DAY - 1) / (MS_PER_DAY as int)
    }
}

/// Calendar days covering `[local day start, billing end]`, rounded up, at
/// least 1: "2 days left" from any time of day when the period ends tomorrow.
pub fn calendar_days_for_budget(day_start_ms: u64, billing_end_ms: u64) -> (days: u64)
    ensures
        days == budget_days(day_start_ms as int, billing_end_ms as int),
        days >= 1,
        billing_end_ms > day_start_ms ==> (days - 1) * MS_PER_DAY < billing_end_ms - day_start_ms
            <= days * MS_PER_DAY,
{
    if billing_end_ms <= day_start_ms {
        return 1;
    }
    let span = billing_end_ms - day_start_ms;
    let days = span / MS_PER_DAY + if span % MS_PER_DAY == 0 {
        0
    } else {
        1
    };
    assert(days == (span + MS_PER_DAY - 1) / (MS_PER_DAY as int) && days >= 1 && (days - 1)
        * MS_PER_DAY < span <= days * MS_PER_DAY) by (nonlinear_arith)
        requires
            span > 0,
            days == span / MS_PER_DAY + if span % MS_PER_DAY == 0 {
                0int
            } else {
                1int
            },
            MS_PER_DAY == 86_400_000,
    ;
    days
}

// ---------------------------------------------------------------------------
// The clock
// ---------------------------------------------------------------------------

#[verifier::external_type_specification]
#[verifier::external_body]
pub struct ExSystemTime(std::time::SystemTime);

#[verifier::external_type_specification]
#[verifier::external_body]
pub struct ExSystemTimeError(std::time::SystemTimeError);

/// `SystemTime::now`: the clock's current reading; nothing is known of it.
#[verifier::external_body]
fn system_now() -> std::time::SystemTime {
    std::time::SystemTime::now()
}

/// `SystemTime::duration_since(UNIX_EPOCH)`: time elapsed since the epoch,
/// or an error when the clock reads earlier; nothing is known of either.
#[verifier::external_body]
fn since_epoch(t: &std::time::SystemTime) -> std::result::Result<
    core::time::Duration,
    std::time::SystemTimeError,
> {
    t.duration_since(std::time::UNIX_EPOCH)
}

/// `Duration::as_millis`: the whole milliseconds of `d`.
#[verifier::external_body]
fn duration_millis(d: &core::time::Duration) -> u128 {
    d.as_millis()
}

/// The millisecond reading kept from the clock: the whole milliseconds since
/// the epoch cut to their low 64 bits, or 0 when the clock read earlier than
/// the epoch (`None`).
pub fn epoch_millis(elapsed_ms: Option<u128>) -> (r: u64)
    ensures
        r == match elapsed_ms {
            Some(m) => m % 0x1_0000_0000_0000_0000,
            None => 0,
        },
{
    match elapsed_ms {
        Some(m) => {
            assert(m as u64 == m % 0x1_0000_0000_0000_0000) by (bit_vector);
            m as u64
        },
        None => 0,
    }
}

/// Milliseconds since the Unix epoch by the system clock (cut to 64 bits),
/// or 0 when the clock reads earlier than the epoch. The clock's reading is
/// not known to the proof; what is made of it is [`epoch_millis`].
pub fn now_ms() -> u64 {
    let elapsed = match since_epoch(&system_now()) {
        Ok(d) => Some(duration_millis(&d)),
        Err(_) => None,
    };
    epoch_millis(elapsed)
}

} // verus!
