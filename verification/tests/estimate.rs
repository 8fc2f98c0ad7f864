use sim::defs::BalanceSeed;
use sim::routing::estimate::{estimate, Correction, Point, Rates};
use sim::routing::TransportMode;

/// The balance values the estimate reads, as committed.
fn balance() -> Vec<BalanceSeed> {
    vec![
        BalanceSeed { key: "movement.walk_speed_millicells_per_s", value: 2200, min: 1, max: 100_000 },
        BalanceSeed { key: "routing.speed_percent.walk", value: 100, min: 1, max: 1000 },
        BalanceSeed { key: "routing.speed_percent.bike", value: 200, min: 1, max: 1000 },
        BalanceSeed { key: "routing.speed_percent.transit", value: 300, min: 1, max: 1000 },
        BalanceSeed { key: "routing.floor_change_penalty_milliminutes", value: 1000, min: 0, max: 100_000 },
    ]
}

fn rates() -> Rates {
    Rates::from_balance(&balance())
}

fn p(x: i32, y: i32, floor: i8) -> Point {
    Point { x, y, floor }
}

fn est(a: Point, b: Point, mode: TransportMode) -> i64 {
    estimate(&rates(), a, b, mode, Correction::none()).0
}

#[test]
fn worked_examples() {
    let (walk, bike, transit) = (TransportMode::Walk, TransportMode::Bike, TransportMode::Transit);
    let o = p(0, 0, 0);
    assert_eq!(est(o, o, walk), 0);
    assert_eq!(est(o, p(1, 0, 0), walk), 182);
    assert_eq!(est(o, p(1, 0, 0), walk), est(p(0, 1, 0), o, walk));
    assert_eq!(est(o, p(330, 0, 0), walk), 60_000);
    assert_eq!(est(o, p(330, 0, 0), bike), 30_000);
    assert_eq!(est(o, p(330, 0, 0), transit), 20_000);
    assert_eq!(est(o, p(200, 133, 0), walk), 60_546);
    assert_eq!(est(o, p(200, 133, 0), bike), 30_273);
    assert_eq!(est(o, p(200, 133, 0), transit), 20_182);
    assert_eq!(est(o, o, walk), 0);
    assert_eq!(est(o, p(0, 0, 1), walk), 1000);
    assert_eq!(est(o, p(0, 0, -2), transit), 2000);
}

#[test]
fn committed_correction_default_is_neutral() {
    assert_eq!(Correction::none(), Correction(100));
    let (a, b) = (p(3, 4, 0), p(90, -7, 2));
    assert_eq!(
        estimate(&rates(), a, b, TransportMode::Bike, Correction::none()),
        estimate(&rates(), a, b, TransportMode::Bike, Correction(100)),
    );
}

#[test]
fn a_non_neutral_correction_scales_the_result() {
    let (a, b) = (p(0, 0, 0), p(330, 0, 0));
    let r = rates();
    let base = estimate(&r, a, b, TransportMode::Walk, Correction::none()).0;
    assert_eq!(
        estimate(&r, a, b, TransportMode::Walk, Correction(150)).0,
        base * 3 / 2
    );
    assert_eq!(
        estimate(&r, a, b, TransportMode::Walk, Correction(50)).0,
        base / 2
    );
}

#[test]
fn rates_come_from_the_balance_slice_not_defs() {
    let mut r = rates();
    r.walk_speed_millicells_per_s = 1100;
    r.floor_change_penalty_milliminutes = 7;
    let e = estimate(
        &r,
        p(0, 0, 0),
        p(330, 0, 1),
        TransportMode::Walk,
        Correction::none(),
    );
    assert_eq!(e.0, 120_000 + 7);
}

#[test]
fn extreme_coordinates_do_not_overflow() {
    let e = est(
        p(i32::MIN, i32::MIN, i8::MIN),
        p(i32::MAX, i32::MAX, i8::MAX),
        TransportMode::Walk,
    );
    assert!(e > 0);
}

#[test]
fn walk_ladder_committed_percentages() {
    let r = rates();
    assert_eq!(
        (r.walk_percent, r.bike_percent, r.transit_percent),
        (100, 200, 300)
    );
}

#[test]
fn the_estimate_is_symmetric() {
    let (a, b) = (p(-5, 17, 2), p(40, -3, -1));
    for mode in [TransportMode::Walk, TransportMode::Bike, TransportMode::Transit] {
        assert_eq!(est(a, b, mode), est(b, a, mode));
    }
}
