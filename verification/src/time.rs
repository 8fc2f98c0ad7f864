//! The in-city clock: a pure function of one durable epoch and the
//! server's own `now`. Nothing ticks, nothing is stored per minute.
//! Integer arithmetic only; the smallest unit of city time is the minute.

use vstd::prelude::*;

verus! {

/// Real milliseconds per in-city minute: one in-city minute is 2.5 real
/// seconds (one real hour is one city day).
pub const REAL_MS_PER_CITY_MINUTE: i64 = 2500;
pub const CITY_MINUTES_PER_HOUR: i64 = 60;
pub const CITY_HOURS_PER_DAY: i64 = 24;
pub const CITY_MINUTES_PER_DAY: i64 = 1440;
pub const CITY_DAYS_PER_WEEK: i64 = 7;
pub const REAL_MS_PER_CITY_HOUR: i64 = 150_000;
pub const REAL_MS_PER_CITY_DAY: i64 = 3_600_000;

/// One instant of city time. `day` counts from the city's own epoch (day 0,
/// 00:00) and is negative before it; every other field is always in range.
#[derive(Clone, Copy, Debug, PartialEq, Eq, Structural)]
pub struct CityTime {
    pub day: i64,
    pub hour: u8,
    pub minute: u8,
    /// `day` mod 7 -- the only calendar cycle the game defines.
    pub weekday: u8,
    /// Real milliseconds elapsed inside the current city minute, for
    /// rendering interpolation only.
    pub real_ms_into_minute: u16,
}

/// Whole city minutes since the epoch that `t` names.
pub open spec fn spec_total_minutes(t: CityTime) -> int {
    t.day * 1440 + t.hour * 60 + t.minute
}

/// Every field of `t` is in its documented range.
pub open spec fn well_formed(t: CityTime) -> bool {
    &&& t.hour < 24
    &&& t.minute < 60
    &&& t.weekday < 7
    &&& t.weekday == t.day % 7
}

/// The city time `total_minutes` whole minutes after the epoch, with
/// `ms` real milliseconds into that minute (Euclidean decomposition, so
/// every field is non-negative before the epoch too).
pub open spec fn spec_from_minutes(total_minutes: int, ms: u16) -> CityTime {
    let day = total_minutes / 1440;
    let minute_of_day = total_minutes % 1440;
    CityTime {
        day: day as i64,
        hour: (minute_of_day / 60) as u8,
        minute: (minute_of_day % 60) as u8,
        weekday: (day % 7) as u8,
        real_ms_into_minute: ms,
    }
}

/// The city time at `now_micros` for a clock whose day 0, 00:00 is
/// `epoch_micros`.
pub open spec fn spec_city_time(epoch_micros: int, now_micros: int) -> CityTime {
    let elapsed_ms = (now_micros - epoch_micros) / 1000;
    spec_from_minutes(elapsed_ms / 2500, (elapsed_ms % 2500) as u16)
}

impl CityTime {
    /// Whole city minutes since the epoch (negative before it).
    pub fn total_minutes(&self) -> (m: i64)
        requires
            i64::MIN <= self.day * 1440,
            spec_total_minutes(*self) <= i64::MAX,
        ensures
            m == spec_total_minutes(*self),
    {
        self.day * CITY_MINUTES_PER_DAY + self.hour as i64 * CITY_MINUTES_PER_HOUR
            + self.minute as i64
    }
}

fn div_euclid_i64(a: i64, d: i64) -> (q: i64)
    requires
        d > 0,
    ensures
        q == a / d,
{
    assert(a / d <= a || a / d <= 0) by (nonlinear_arith)
        requires
            d > 0,
    ;
    assert(a / d >= a || a / d >= 0) by (nonlinear_arith)
        requires
            d > 0,
    ;
    match a.checked_div_euclid(d) {
        Some(q) => q,
        None => 0,
    }
}

fn rem_euclid_i64(a: i64, d: i64) -> (r: i64)
    requires
        d > 0,
    ensures
        r == a % d,
        0 <= r < d,
{
    match a.checked_rem_euclid(d) {
        Some(r) => r,
        None => 0,
    }
}

/// Decomposes a whole-minute count since the epoch. Total: the Euclidean
/// division keeps every field non-negative before the epoch too.
pub fn city_time_from_minutes(total_minutes: i64, real_ms_into_minute: u16) -> (t: CityTime)
    ensures
        t == spec_from_minutes(total_minutes as int, real_ms_into_minute),
        well_formed(t),
        spec_total_minutes(t) == total_minutes,
{
    let day = div_euclid_i64(total_minutes, CITY_MINUTES_PER_DAY);
    let minute_of_day = rem_euclid_i64(total_minutes, CITY_MINUTES_PER_DAY);
    let weekday = rem_euclid_i64(day, CITY_DAYS_PER_WEEK);
    let t = CityTime {
        day,
        hour: (minute_of_day / CITY_MINUTES_PER_HOUR) as u8,
        minute: (minute_of_day % CITY_MINUTES_PER_HOUR) as u8,
        weekday: weekday as u8,
        real_ms_into_minute,
    };
    assert(total_minutes == day * 1440 + minute_of_day) by (nonlinear_arith)
        requires
            day == total_minutes / 1440,
            minute_of_day == total_minutes % 1440,
    ;
    t
}

fn div_euclid_i128(a: i128, d: i128) -> (q: i128)
    requires
        d > 0,
    ensures
        q == a / d,
{
    assert(a / d <= a || a / d <= 0) by (nonlinear_arith)
        requires
            d > 0,
    ;
    assert(a / d >= a || a / d >= 0) by (nonlinear_arith)
        requires
            d > 0,
    ;
    match a.checked_div_euclid(d) {
        Some(q) => q,
        None => 0,
    }
}

fn rem_euclid_i128(a: i128, d: i128) -> (r: i128)
    requires
        d > 0,
    ensures
        r == a % d,
        0 <= r < d,
{
    match a.checked_rem_euclid(d) {
        Some(r) => r,
        None => 0,
    }
}

/// City time at `now_micros` for a clock whose day 0, 00:00 is
/// `epoch_micros` (both microseconds since the Unix epoch). Never panics or
/// wraps, for any pair of `i64`s.
pub fn city_time(epoch_micros: i64, now_micros: i64) -> (t: CityTime)
    ensures
        t == spec_city_time(epoch_micros as int, now_micros as int),
        well_formed(t),
{
    let diff = now_micros as i128 - epoch_micros as i128;
    let elapsed_ms = div_euclid_i128(diff, 1000);
    let rate = REAL_MS_PER_CITY_MINUTE as i128;
    let minutes = div_euclid_i128(elapsed_ms, rate);
    let into = rem_euclid_i128(elapsed_ms, rate);
    assert(-0x1_0000_0000_0000_0000int <= diff <= 0x1_0000_0000_0000_0000int);
    assert(-(0x1_0000_0000_0000_0000int / 1000) - 1 <= elapsed_ms <= (0x1_0000_0000_0000_0000int / 1000))
        by (nonlinear_arith)
        requires
            -0x1_0000_0000_0000_0000int <= diff <= 0x1_0000_0000_0000_0000int,
            elapsed_ms == diff / 1000,
    ;
    assert(-0x1_0000_0000_0000_0000int <= minutes <= 0x1_0000_0000_0000_0000int) by (nonlinear_arith)
        requires
            -(0x1_0000_0000_0000_0000int / 1000) - 1 <= elapsed_ms <= 0x1_0000_0000_0000_0000int / 1000,
            minutes == elapsed_ms / 2500,
    ;
    assert(-(0x1_0000_0000_0000_0000int / 2500000) - 2 <= minutes <= (0x1_0000_0000_0000_0000int / 2500000) + 1)
        by (nonlinear_arith)
        requires
            -(0x1_0000_0000_0000_0000int / 1000) - 1 <= elapsed_ms <= 0x1_0000_0000_0000_0000int / 1000,
            minutes == elapsed_ms / 2500,
    ;
    city_time_from_minutes(minutes as i64, into as u16)
}

/// Decomposing a minute count and reading it back gives the same count:
/// `total_minutes` undoes `city_time_from_minutes`.
pub proof fn lemma_total_minutes_undoes_from_minutes(total_minutes: int, ms: u16)
    requires
        i64::MIN <= total_minutes <= i64::MAX,
    ensures
        spec_total_minutes(spec_from_minutes(total_minutes, ms)) == total_minutes,
        well_formed(spec_from_minutes(total_minutes, ms)),
{
    let day = total_minutes / 1440;
    let m = total_minutes % 1440;
    assert(total_minutes == day * 1440 + m) by (nonlinear_arith)
        requires
            day == total_minutes / 1440,
            m == total_minutes % 1440,
    ;
    assert(day * 1440 <= total_minutes || day <= 0) by (nonlinear_arith)
        requires
            day == total_minutes / 1440,
    ;
    assert(i64::MIN <= day <= i64::MAX) by (nonlinear_arith)
        requires
            day == total_minutes / 1440,
            i64::MIN <= total_minutes <= i64::MAX,
    ;
}

/// A well-formed city time is recovered exactly from its own minute count
/// (and its own milliseconds): `city_time_from_minutes` undoes
/// `total_minutes`.
pub proof fn lemma_from_minutes_undoes_total_minutes(t: CityTime)
    requires
        well_formed(t),
    ensures
        spec_from_minutes(spec_total_minutes(t), t.real_ms_into_minute) == t,
{
    let total = spec_total_minutes(t);
    let m = t.hour * 60 + t.minute;
    assert(0 <= m < 1440);
    assert(total / 1440 == t.day && total % 1440 == m) by (nonlinear_arith)
        requires
            total == t.day * 1440 + m,
            0 <= m < 1440,
    ;
    assert(m / 60 == t.hour && m % 60 == t.minute) by (nonlinear_arith)
        requires
            m == t.hour * 60 + t.minute,
            t.minute < 60,
            t.hour >= 0,
    ;
}

} // verus!
