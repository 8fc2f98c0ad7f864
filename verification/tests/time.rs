use sim::time::{city_time, REAL_MS_PER_CITY_DAY, REAL_MS_PER_CITY_HOUR, REAL_MS_PER_CITY_MINUTE};

#[test]
fn conversion_is_exact() {
    assert_eq!(REAL_MS_PER_CITY_MINUTE, 2500);
    assert_eq!(24 * 60 * REAL_MS_PER_CITY_MINUTE, 3_600_000);
    assert_eq!(REAL_MS_PER_CITY_HOUR, 150_000);
    assert_eq!(REAL_MS_PER_CITY_DAY, 3_600_000);
}

#[test]
fn two_and_a_half_real_minutes_is_one_city_hour() {
    let t = city_time(0, 150_000 * 1000);
    assert_eq!((t.day, t.hour, t.minute), (0, 1, 0));
}

#[test]
fn before_the_epoch_decomposes_without_negative_fields() {
    let t = city_time(0, -1000);
    assert_eq!(t.day, -1);
    assert_eq!((t.hour, t.minute), (23, 59));
    assert_eq!(t.weekday, 6);
    assert_eq!(t.real_ms_into_minute, 2499);
}

#[test]
fn extreme_inputs_never_panic() {
    let _ = city_time(i64::MIN, i64::MAX);
    let _ = city_time(i64::MAX, i64::MIN);
}

#[test]
fn total_minutes_undoes_the_decomposition() {
    let t = city_time(0, 3_600_000 * 1000 * 3 + 150_000 * 1000 * 5 + 2500 * 1000 * 7);
    assert_eq!((t.day, t.hour, t.minute), (3, 5, 7));
    assert_eq!(t.total_minutes(), 3 * 1440 + 5 * 60 + 7);
    let u = sim::time::city_time_from_minutes(t.total_minutes(), t.real_ms_into_minute);
    assert_eq!(u, t);
}
