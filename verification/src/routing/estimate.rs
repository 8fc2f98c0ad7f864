//! Origin-independent travel-time estimate between two cells: Manhattan
//! distance times the derived walking rate times the mode's percent, plus a
//! floor-change penalty. Pure -- takes no graph, grid or network.

use vstd::prelude::*;
use super::{Milliminutes, TransportMode};
use crate::balance::{self, has_key, spec_value};
use crate::defs::BalanceSeed;

verus! {

/// One in-city minute is 2.5 real seconds.
pub const REAL_MS_PER_CITY_MINUTE: i64 = 2500;

/// A cell address: world x, y and floor.
#[derive(Clone, Copy, Debug, PartialEq, Eq, Structural)]
pub struct Point {
    pub x: i32,
    pub y: i32,
    pub floor: i8,
}

/// Per-region correction, in percent, applied as the last multiply.
#[derive(Clone, Copy, Debug, PartialEq, Eq, Structural)]
pub struct Correction(pub i64);

impl Correction {
    /// The neutral factor: every current caller passes this.
    pub fn none() -> (c: Correction)
        ensures
            c.0 == 100,
    {
        Correction(100)
    }
}

/// The balance values the estimate reads, resolved once.
#[derive(Clone, Copy, Debug, PartialEq, Eq, Structural)]
pub struct Rates {
    pub walk_speed_millicells_per_s: i64,
    pub walk_percent: i64,
    pub bike_percent: i64,
    pub transit_percent: i64,
    pub floor_change_penalty_milliminutes: i64,
}

/// Every balance key [`Rates::from_balance`] reads is present.
pub open spec fn has_rate_keys(balance: Seq<BalanceSeed>) -> bool {
    &&& has_key(balance, "movement.walk_speed_millicells_per_s"@)
    &&& has_key(balance, "routing.speed_percent.walk"@)
    &&& has_key(balance, "routing.speed_percent.bike"@)
    &&& has_key(balance, "routing.speed_percent.transit"@)
    &&& has_key(balance, "routing.floor_change_penalty_milliminutes"@)
}

impl Rates {
    pub fn from_balance(balance: &[BalanceSeed]) -> (r: Rates)
        requires
            has_rate_keys(balance@),
        ensures
            r.walk_speed_millicells_per_s == spec_value(
                balance@,
                "movement.walk_speed_millicells_per_s"@,
            ),
            r.walk_percent == spec_value(balance@, "routing.speed_percent.walk"@),
            r.bike_percent == spec_value(balance@, "routing.speed_percent.bike"@),
            r.transit_percent == spec_value(balance@, "routing.speed_percent.transit"@),
            r.floor_change_penalty_milliminutes == spec_value(
                balance@,
                "routing.floor_change_penalty_milliminutes"@,
            ),
    {
        Rates {
            walk_speed_millicells_per_s: balance::value(
                balance,
                "movement.walk_speed_millicells_per_s",
            ),
            walk_percent: balance::value(balance, "routing.speed_percent.walk"),
            bike_percent: balance::value(balance, "routing.speed_percent.bike"),
            transit_percent: balance::value(balance, "routing.speed_percent.transit"),
            floor_change_penalty_milliminutes: balance::value(
                balance,
                "routing.floor_change_penalty_milliminutes",
            ),
        }
    }

    pub open spec fn spec_percent(&self, mode: TransportMode) -> i64 {
        match mode {
            TransportMode::Walk => self.walk_percent,
            TransportMode::Bike => self.bike_percent,
            TransportMode::Transit => self.transit_percent,
        }
    }

    /// The mode's speed as a percent of walking.
    pub fn percent(&self, mode: TransportMode) -> (p: i64)
        ensures
            p == self.spec_percent(mode),
    {
        match mode {
            TransportMode::Walk => self.walk_percent,
            TransportMode::Bike => self.bike_percent,
            TransportMode::Transit => self.transit_percent,
        }
    }
}

pub open spec fn abs_int(v: int) -> int {
    if v < 0 {
        -v
    } else {
        v
    }
}

/// Manhattan distance between `a` and `b`, in cells.
pub open spec fn manhattan(a: Point, b: Point) -> int {
    abs_int(a.x - b.x) + abs_int(a.y - b.y)
}

/// `a / b` rounded toward zero, as Rust's integer division does (`b > 0`).
pub open spec fn div_toward_zero(a: int, b: int) -> int {
    if a >= 0 {
        a / b
    } else {
        -((-a) / b)
    }
}

/// `v` fits `i128`.
pub open spec fn fits_i128(v: int) -> bool {
    i128::MIN <= v <= i128::MAX
}

/// The travel part: cells over the mode's rate, in milliminutes, rounded
/// up (so the triangle inequality holds exactly) for a non-negative
/// correction; the division rounds toward zero.
pub open spec fn spec_travel(rates: Rates, a: Point, b: Point, mode: TransportMode, c: int) -> int {
    let denom = rates.walk_speed_millicells_per_s * REAL_MS_PER_CITY_MINUTE * rates.spec_percent(mode);
    div_toward_zero(manhattan(a, b) * 1_000_000_000 * 100 * c + denom * 100 - 1, denom * 100)
}

/// The floor-change penalty, scaled by the correction, rounded toward zero.
pub open spec fn spec_penalty(rates: Rates, a: Point, b: Point, c: int) -> int {
    div_toward_zero(abs_int(a.floor - b.floor) * rates.floor_change_penalty_milliminutes * c, 100)
}

/// The estimate in milliminutes, as an unbounded integer.
pub open spec fn spec_estimate(rates: Rates, a: Point, b: Point, mode: TransportMode, c: int) -> int {
    spec_travel(rates, a, b, mode, c) + spec_penalty(rates, a, b, c)
}

/// The estimate is defined: positive speeds (so the divisor is not zero),
/// every intermediate within `i128`, and the result within `i64`. The
/// penalty and correction may have either sign.
pub open spec fn estimate_defined(rates: Rates, a: Point, b: Point, mode: TransportMode, c: int) -> bool {
    let denom = rates.walk_speed_millicells_per_s * REAL_MS_PER_CITY_MINUTE * rates.spec_percent(mode);
    let m = manhattan(a, b);
    let f = abs_int(a.floor - b.floor);
    &&& rates.walk_speed_millicells_per_s > 0
    &&& rates.spec_percent(mode) > 0
    &&& fits_i128(denom * 100)
    &&& fits_i128(m * 1_000_000_000 * 100 * c)
    &&& fits_i128(m * 1_000_000_000 * 100 * c + denom * 100)
    &&& fits_i128(f * rates.floor_change_penalty_milliminutes * c)
    &&& fits_i64(spec_estimate(rates, a, b, mode, c))
}

/// `v` fits `i64`.
pub open spec fn fits_i64(v: int) -> bool {
    i64::MIN <= v <= i64::MAX
}

fn abs_diff(a: i64, b: i64) -> (d: i128)
    ensures
        d == abs_int(a - b),
{
    let v = a as i128 - b as i128;
    if v < 0 {
        -v
    } else {
        v
    }
}

/// Estimated in-city travel time from `a` to `b` by `mode`: the Manhattan
/// distance over the mode's rate, rounded up, plus the floor-change
/// penalty, both scaled by the correction.
pub fn estimate(
    rates: &Rates,
    a: Point,
    b: Point,
    mode: TransportMode,
    correction: Correction,
) -> (m: Milliminutes)
    requires
        estimate_defined(*rates, a, b, mode, correction.0 as int),
    ensures
        m.0 == spec_estimate(*rates, a, b, mode, correction.0 as int),
{
    let cells = abs_diff(a.x as i64, b.x as i64) + abs_diff(a.y as i64, b.y as i64);
    let floors = abs_diff(a.floor as i64, b.floor as i64);
    let ghost c = correction.0 as int;
    let ghost pct = rates.spec_percent(mode) as int;
    let ghost ws = rates.walk_speed_millicells_per_s as int;
    let ghost pen = rates.floor_change_penalty_milliminutes as int;
    assert(0 < ws * 2500 <= ws * 2500 * pct) by (nonlinear_arith)
        requires
            ws > 0,
            pct > 0,
    ;
    assert(ws * 2500 * pct <= ws * 2500 * pct * 100) by (nonlinear_arith)
        requires
            ws * 2500 * pct > 0,
    ;
    let denom = rates.walk_speed_millicells_per_s as i128 * REAL_MS_PER_CITY_MINUTE as i128
        * rates.percent(mode) as i128;
    assert(0 <= cells <= 0x3_0000_0000);
    assert(0 <= cells * 1_000_000_000 <= cells * 1_000_000_000 * 100 <= 0x3_0000_0000 * 100_000_000_000) by (nonlinear_arith)
        requires
            0 <= cells <= 0x3_0000_0000,
    ;
    let scaled = cells * 1_000_000_000 * 100 * correction.0 as i128;
    let numer = scaled + denom * 100 - 1;
    let travel = numer / (denom * 100);
    assert(0 <= floors <= 255);
    assert(-255 * 0x8000_0000_0000_0000int <= floors * pen <= 255 * 0x8000_0000_0000_0000int) by (nonlinear_arith)
        requires
            0 <= floors <= 255,
            -0x8000_0000_0000_0000int <= pen <= 0x7fff_ffff_ffff_ffffint,
    ;
    let fp = floors * rates.floor_change_penalty_milliminutes as i128;
    let penalty = fp * correction.0 as i128 / 100;
    Milliminutes((travel + penalty) as i64)
}

/// `(n + e - 1) / e` is the least `q` with `n <= q * e`.
proof fn lemma_ceil_div(n: int, e: int, q: int)
    requires
        e > 0,
        n >= 0,
    ensures
        (n + e - 1) / e * e >= n,
        n <= q * e ==> (n + e - 1) / e <= q,
        (n + e - 1) / e >= 0,
{
    let r = (n + e - 1) / e;
    vstd::arithmetic::div_mod::lemma_fundamental_div_mod(n + e - 1, e);
    let m = (n + e - 1) % e;
    assert(r * e >= n) by (nonlinear_arith)
        requires
            n + e - 1 == e * r + m,
            0 <= m < e,
    ;
    if n <= q * e {
        assert(r <= q) by (nonlinear_arith)
            requires
                n + e - 1 == e * r + m,
                0 <= m < e,
                n <= q * e,
                e > 0,
        ;
    }
    assert(r >= 0) by (nonlinear_arith)
        requires
            n + e - 1 == e * r + m,
            0 <= m < e,
            n >= 0,
            e > 0,
    ;
}

/// Law: with the neutral correction, positive speeds and a non-negative
/// floor penalty, the estimate is symmetric, zero from a cell to itself,
/// and never more from `a` to `d` than through any `b` -- the one
/// rounded-up division keeps the triangle inequality exact.
pub proof fn lemma_estimate_laws(rates: Rates, a: Point, b: Point, d: Point, mode: TransportMode)
    requires
        rates.walk_speed_millicells_per_s > 0,
        rates.spec_percent(mode) > 0,
        rates.floor_change_penalty_milliminutes >= 0,
    ensures
        spec_estimate(rates, a, b, mode, 100) == spec_estimate(rates, b, a, mode, 100),
        spec_estimate(rates, a, a, mode, 100) == 0,
        spec_estimate(rates, a, d, mode, 100) <= spec_estimate(rates, a, b, mode, 100) + spec_estimate(
            rates,
            b,
            d,
            mode,
            100,
        ),
{
    let denom = rates.walk_speed_millicells_per_s * REAL_MS_PER_CITY_MINUTE * rates.spec_percent(mode);
    let ws = rates.walk_speed_millicells_per_s as int;
    let pc = rates.spec_percent(mode) as int;
    assert(denom * 100 > 0) by (nonlinear_arith)
        requires
            denom == ws * 2500 * pc,
            ws > 0,
            pc > 0,
    ;
    let e = denom * 100;
    let k: int = 10_000_000_000_000int;
    let m_ab = manhattan(a, b);
    let m_bd = manhattan(b, d);
    let m_ad = manhattan(a, d);
    assert(m_ad <= m_ab + m_bd);
    assert(manhattan(a, b) == manhattan(b, a));
    let pen = rates.floor_change_penalty_milliminutes as int;
    // Symmetry and zero.
    assert(spec_penalty(rates, a, b, 100) == spec_penalty(rates, b, a, 100));
    assert(abs_int(a.floor - a.floor) == 0);
    assert(0 * pen * 100 / 100 == 0) by (nonlinear_arith);
    assert(spec_penalty(rates, a, a, 100) == 0);
    lemma_ceil_div(0, e, 0);
    assert(spec_travel(rates, a, a, mode, 100) == (0 + e - 1) / e);
    // Travel: subadditive ceiling.
    assert(m_ab * 1_000_000_000 * 100 * 100 == m_ab * k && m_bd * 1_000_000_000 * 100 * 100 == m_bd * k && m_ad
        * 1_000_000_000 * 100 * 100 == m_ad * k) by (nonlinear_arith)
        requires
            k == 10_000_000_000_000int,
    ;
    assert(m_ab * k >= 0 && m_bd * k >= 0 && m_ad * k >= 0) by (nonlinear_arith)
        requires
            k == 10_000_000_000_000int,
            m_ab >= 0,
            m_bd >= 0,
            m_ad >= 0,
    ;
    lemma_ceil_div(m_ab * k, e, 0);
    lemma_ceil_div(m_bd * k, e, 0);
    let q1 = (m_ab * k + e - 1) / e;
    let q2 = (m_bd * k + e - 1) / e;
    assert(m_ad * k <= (q1 + q2) * e) by (nonlinear_arith)
        requires
            q1 * e >= m_ab * k,
            q2 * e >= m_bd * k,
            m_ad <= m_ab + m_bd,
            m_ad >= 0,
            k == 10_000_000_000_000int,
    ;
    lemma_ceil_div(m_ad * k, e, q1 + q2);
    assert(spec_travel(rates, a, b, mode, 100) == q1);
    assert(spec_travel(rates, b, d, mode, 100) == q2);
    assert(spec_travel(rates, a, d, mode, 100) == (m_ad * k + e - 1) / e);
    // Penalty: exact with the neutral correction.
    let fab = abs_int(a.floor - b.floor);
    let fbd = abs_int(b.floor - d.floor);
    let fad = abs_int(a.floor - d.floor);
    assert(fab * pen * 100 / 100 == fab * pen) by (nonlinear_arith);
    assert(fbd * pen * 100 / 100 == fbd * pen) by (nonlinear_arith);
    assert(fad * pen * 100 / 100 == fad * pen) by (nonlinear_arith);
    assert(fad * pen <= fab * pen + fbd * pen) by (nonlinear_arith)
        requires
            fad <= fab + fbd,
            pen >= 0,
    ;
}

} // verus!
