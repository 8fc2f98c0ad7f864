//! A block's own land use, decided once by majority coarse-cell area
//! rather than tinted per cell: a change of use then only ever happens at
//! a real block edge, a street.

use vstd::prelude::*;
use super::land_use::{LandUse, LandUseMap, land_use_index, use_index};
use super::{SiteBounds, fits_i32};

verus! {

/// `a / b` rounded toward negative infinity (`b > 0`).
pub(crate) fn floor_div(a: i64, b: i64) -> (q: i64)
    requires
        b > 0,
        -0x4_0000_0000 <= a <= 0x4_0000_0000,
    ensures
        q == a as int / b as int,
        -0x4_0000_0000 <= q <= 0x4_0000_0000,
{
    if a >= 0 {
        proof {
            let q2 = a as int / b as int;
            let r2 = a as int % b as int;
            vstd::arithmetic::div_mod::lemma_fundamental_div_mod(a as int, b as int);
            assert(0 <= q2 <= a) by (nonlinear_arith)
                requires
                    a as int == b * q2 + r2,
                    0 <= r2 < b,
                    b >= 1,
                    a >= 0,
            ;
        }
        a / b
    } else {
        let t = (-a - 1) / b;
        proof {
            let q2 = (-a - 1) as int / b as int;
            let r2 = (-a - 1) as int % b as int;
            vstd::arithmetic::div_mod::lemma_fundamental_div_mod((-a - 1) as int, b as int);
            assert(0 <= r2 < b);
            assert(a as int == (-q2 - 1) * b + (b - r2 - 1)) by (nonlinear_arith)
                requires
                    (-a - 1) as int == b * q2 + r2,
            ;
            assert(0 <= q2 <= -a - 1) by (nonlinear_arith)
                requires
                    (-a - 1) as int == b * q2 + r2,
                    0 <= r2 < b,
                    b >= 1,
                    -a - 1 >= 0,
            ;
            vstd::arithmetic::div_mod::lemma_fundamental_div_mod_converse_div(a as int, b as int, -q2 - 1, b - r2 - 1);
        }
        -t - 1
    }
}

/// The first coarse column (or row) a block's `[b0, b1)` reaches: its
/// start's cell, at least 0.
pub open spec fn window_lo(b0: int, s0: int, cell: int) -> int {
    let c = (b0 - s0) / cell;
    if c >= 0 {
        c
    } else {
        0
    }
}

/// One past the last coarse column (or row) `[b0, b1)` reaches, at most
/// `n`.
pub open spec fn window_hi(b1: int, s0: int, cell: int, n: int) -> int {
    let c = (b1 - s0 - 1) / cell + 1;
    if c <= n {
        c
    } else {
        n
    }
}

/// The length two ranges share, at least 0.
pub open spec fn overlap_1d(a0: int, a1: int, b0: int, b1: int) -> int {
    let hi = if a1 <= b1 {
        a1
    } else {
        b1
    };
    let lo = if a0 >= b0 {
        a0
    } else {
        b0
    };
    if hi - lo >= 0 {
        hi - lo
    } else {
        0
    }
}

/// The area coarse cell `(cx, cy)` shares with the block.
pub open spec fn cell_overlap(lu: LandUseMap, b: SiteBounds, cx: int, cy: int) -> int {
    let s = lu.spec_site();
    let c = lu.spec_cell_size();
    overlap_1d(s.x0 + cx * c, s.x0 + (cx + 1) * c, b.x0 as int, b.x1 as int) * overlap_1d(
        s.y0 + cy * c,
        s.y0 + (cy + 1) * c,
        b.y0 as int,
        b.y1 as int,
    )
}

/// The use at position `t` of declaration order.
pub open spec fn use_of(t: int) -> LandUse {
    if t == 0 {
        LandUse::Residential
    } else if t == 1 {
        LandUse::Commercial
    } else if t == 2 {
        LandUse::Industrial
    } else {
        LandUse::Institutional
    }
}

pub open spec fn use_at(lu: LandUseMap, cx: int, cy: int) -> LandUse {
    lu.spec_coarse_at(cx, cy).unwrap().use_
}

/// Over columns `[cx0, k)` of row `cy`: the area of use `u` shared with the
/// block.
pub open spec fn row_area(lu: LandUseMap, b: SiteBounds, u: LandUse, cy: int, cx0: int, k: int) -> int
    decreases k - cx0,
{
    if k <= cx0 {
        0
    } else {
        row_area(lu, b, u, cy, cx0, k - 1) + if use_at(lu, k - 1, cy) == u {
            cell_overlap(lu, b, k - 1, cy)
        } else {
            0
        }
    }
}

/// Whether use `u` occurs over columns `[cx0, k)` of row `cy`.
pub open spec fn row_has(lu: LandUseMap, u: LandUse, cy: int, cx0: int, k: int) -> bool
    decreases k - cx0,
{
    if k <= cx0 {
        false
    } else {
        row_has(lu, u, cy, cx0, k - 1) || use_at(lu, k - 1, cy) == u
    }
}

/// Over rows `[cy0, k)` of the window: the area of use `u` shared with the
/// block.
pub open spec fn window_area(lu: LandUseMap, b: SiteBounds, u: LandUse, cy0: int, cx0: int, cx1: int, k: int) -> int
    decreases k - cy0,
{
    if k <= cy0 {
        0
    } else {
        window_area(lu, b, u, cy0, cx0, cx1, k - 1) + row_area(lu, b, u, k - 1, cx0, cx1)
    }
}

/// Whether use `u` occurs over rows `[cy0, k)` of the window.
pub open spec fn window_has(lu: LandUseMap, u: LandUse, cy0: int, cx0: int, cx1: int, k: int) -> bool
    decreases k - cy0,
{
    if k <= cy0 {
        false
    } else {
        window_has(lu, u, cy0, cx0, cx1, k - 1) || row_has(lu, u, k - 1, cx0, cx1)
    }
}

/// The coarse-cell window a block covers: `(cx0, cx1, cy0, cy1)`.
pub open spec fn block_window(lu: LandUseMap, b: SiteBounds) -> (int, int, int, int) {
    let s = lu.spec_site();
    let c = lu.spec_cell_size();
    (
        window_lo(b.x0 as int, s.x0 as int, c),
        window_hi(b.x1 as int, s.x0 as int, c, lu.spec_cols()),
        window_lo(b.y0 as int, s.y0 as int, c),
        window_hi(b.y1 as int, s.y0 as int, c, lu.spec_rows()),
    )
}

/// The area of use `u` the block covers, over its window.
pub open spec fn use_area(lu: LandUseMap, b: SiteBounds, u: LandUse) -> int {
    let (cx0, cx1, cy0, cy1) = block_window(lu, b);
    window_area(lu, b, u, cy0, cx0, cx1, cy1)
}

/// Whether any cell of the block's window has use `u`.
pub open spec fn use_present(lu: LandUseMap, b: SiteBounds, u: LandUse) -> bool {
    let (cx0, cx1, cy0, cy1) = block_window(lu, b);
    window_has(lu, u, cy0, cx0, cx1, cy1)
}

/// Over the first `k` uses in declaration order: the present one with the
/// largest area, the earlier one on a tie.
pub open spec fn best_upto(lu: LandUseMap, b: SiteBounds, k: int) -> Option<LandUse>
    decreases k,
{
    if k <= 0 {
        None
    } else {
        let prev = best_upto(lu, b, k - 1);
        let u = use_of(k - 1);
        if use_present(lu, b, u) && (prev matches Some(p) ==> use_area(lu, b, u) > use_area(lu, b, p)) {
            Some(u)
        } else {
            prev
        }
    }
}

/// The block's land use: the use covering the most of it, the earlier use
/// (in declaration order) on a tie; residential when its window holds no
/// coarse cell at all.
pub open spec fn spec_block_land_use(lu: LandUseMap, b: SiteBounds) -> LandUse {
    match best_upto(lu, b, 4) {
        Some(u) => u,
        None => LandUse::Residential,
    }
}

/// The block's own offsets from the site's corner, and the site's far
/// corner, all stay within `i32`.
pub open spec fn block_use_fits(lu: LandUseMap, b: SiteBounds) -> bool {
    let s = lu.spec_site();
    &&& fits_i32(b.x0 - s.x0)
    &&& fits_i32(b.y0 - s.y0)
    &&& fits_i32(b.x1 - s.x0 - 1)
    &&& fits_i32(b.y1 - s.y0 - 1)
    &&& fits_i32(s.x0 + lu.spec_cols() * lu.spec_cell_size())
    &&& fits_i32(s.y0 + lu.spec_rows() * lu.spec_cell_size())
}

fn overlap_exec(a0: i64, a1: i64, b0: i64, b1: i64) -> (r: i64)
    requires
        -0x4_0000_0000 <= a0 <= 0x4_0000_0000,
        -0x4_0000_0000 <= a1 <= 0x4_0000_0000,
        -0x4_0000_0000 <= b0 <= 0x4_0000_0000,
        -0x4_0000_0000 <= b1 <= 0x4_0000_0000,
    ensures
        r == overlap_1d(a0 as int, a1 as int, b0 as int, b1 as int),
        0 <= r,
        r == 0 || r <= a1 - a0,
{
    let hi = if a1 <= b1 {
        a1
    } else {
        b1
    };
    let lo = if a0 >= b0 {
        a0
    } else {
        b0
    };
    if hi - lo >= 0 {
        hi - lo
    } else {
        0
    }
}

/// A block's own land use, decided by majority coarse-cell area: for each
/// coarse cell the block's rect reaches, the area they share counts toward
/// that cell's use; the use with the most area wins, the earlier use in
/// declaration order on a tie, and residential when the block reaches no
/// coarse cell at all.
pub fn block_land_use(land_use: &LandUseMap, block_bounds: SiteBounds) -> (u: LandUse)
    requires
        block_use_fits(*land_use, block_bounds),
    ensures
        u == spec_block_land_use(*land_use, block_bounds),
{
    let cell = land_use.cell_size();
    let site = land_use.site();
    let cols = land_use.cols();
    let rows = land_use.rows();
    let b = block_bounds;
    let ghost win = block_window(*land_use, b);
    let fx0 = floor_div(b.x0 as i64 - site.x0 as i64, cell as i64);
    let cx0: i64 = if fx0 >= 0 { fx0 } else { 0 };
    let fx1 = floor_div(b.x1 as i64 - site.x0 as i64 - 1, cell as i64) + 1;
    let cx1: i64 = if fx1 <= cols as i64 { fx1 } else { cols as i64 };
    let fy0 = floor_div(b.y0 as i64 - site.y0 as i64, cell as i64);
    let cy0: i64 = if fy0 >= 0 { fy0 } else { 0 };
    let fy1 = floor_div(b.y1 as i64 - site.y0 as i64 - 1, cell as i64) + 1;
    let cy1: i64 = if fy1 <= rows as i64 { fy1 } else { rows as i64 };
    assert(win == (cx0 as int, cx1 as int, cy0 as int, cy1 as int));
    let mut areas: Vec<i128> = vec![0i128, 0i128, 0i128, 0i128];
    let mut present: Vec<bool> = vec![false, false, false, false];
    let mut cy: i64 = cy0;
    proof {
        assert forall|t: int| 0 <= t < 4 implies areas@[t] == window_area(*land_use, b, use_of(t), cy0 as int, cx0 as int, cx1 as int, cy as int)
            && present@[t] == window_has(*land_use, use_of(t), cy0 as int, cx0 as int, cx1 as int, cy as int) by {}
    }
    while cy < cy1
        invariant
            cell == land_use.spec_cell_size(),
            cell >= 1,
            site == land_use.spec_site(),
            cols == land_use.spec_cols(),
            rows == land_use.spec_rows(),
            b == block_bounds,
            block_use_fits(*land_use, b),
            0 <= cx0,
            cx1 <= cols,
            0 <= cy0 <= cy,
            cy1 <= rows,
            cy <= cy1 || cy == cy0,
            areas.len() == 4,
            present.len() == 4,
            forall|t: int|
                0 <= t < 4 ==> #[trigger] areas@[t] == window_area(*land_use, b, use_of(t), cy0 as int, cx0 as int, cx1 as int, cy as int)
                    && present@[t] == window_has(*land_use, use_of(t), cy0 as int, cx0 as int, cx1 as int, cy as int)
                    && 0 <= areas@[t] <= (cy - cy0) * 0x8000_0000 * 0x4000_0000_0000_0000,
        decreases cy1 - cy,
    {
        let mut cx: i64 = cx0;
        let ghost start_areas = areas@;
        let ghost start_present = present@;
        while cx < cx1
            invariant
                cell == land_use.spec_cell_size(),
                cell >= 1,
                site == land_use.spec_site(),
                cols == land_use.spec_cols(),
                rows == land_use.spec_rows(),
                b == block_bounds,
                block_use_fits(*land_use, b),
                0 <= cx0 <= cx,
                cx1 <= cols,
                cx <= cx1 || cx == cx0,
                0 <= cy0 <= cy < cy1,
                cy1 <= rows,
                areas.len() == 4,
                present.len() == 4,
                forall|t: int|
                    0 <= t < 4 ==> #[trigger] areas@[t] == start_areas[t] + row_area(*land_use, b, use_of(t), cy as int, cx0 as int, cx as int)
                        && present@[t] == (start_present[t] || row_has(*land_use, use_of(t), cy as int, cx0 as int, cx as int))
                        && 0 <= areas@[t] <= (cy - cy0) * 0x8000_0000 * 0x4000_0000_0000_0000 + (cx - cx0) * 0x4000_0000_0000_0000,
            decreases cx1 - cx,
        {
            let c = land_use.coarse_at(cx as i32, cy as i32);
            let use_ = match c {
                Some(v) => v.use_,
                None => LandUse::Residential,
            };
            assert(cx * cell <= cols * cell) by (nonlinear_arith)
                requires
                    0 <= cx <= cols,
                    cell >= 1,
            ;
            assert(cy * cell <= rows * cell) by (nonlinear_arith)
                requires
                    0 <= cy <= rows,
                    cell >= 1,
            ;
            assert((cx + 1) * cell <= cols * cell) by (nonlinear_arith)
                requires
                    0 <= cx < cols,
                    cell >= 1,
            ;
            assert((cy + 1) * cell <= rows * cell) by (nonlinear_arith)
                requires
                    0 <= cy < rows,
                    cell >= 1,
            ;
            let x0 = site.x0 as i64 + cx * cell as i64;
            let x1 = site.x0 as i64 + (cx + 1) * cell as i64;
            let y0 = site.y0 as i64 + cy * cell as i64;
            let y1 = site.y0 as i64 + (cy + 1) * cell as i64;
            let ox = overlap_exec(x0, x1, b.x0 as i64, b.x1 as i64);
            let oy = overlap_exec(y0, y1, b.y0 as i64, b.y1 as i64);
            assert(x1 - x0 == cell && y1 - y0 == cell) by (nonlinear_arith)
                requires
                    x0 == site.x0 + cx * cell,
                    x1 == site.x0 + (cx + 1) * cell,
                    y0 == site.y0 + cy * cell,
                    y1 == site.y0 + (cy + 1) * cell,
            ;
            assert(0 <= ox as int * oy as int <= 0x4000_0000_0000_0000) by (nonlinear_arith)
                requires
                    0 <= ox <= 0x8000_0000,
                    0 <= oy <= 0x8000_0000,
            ;
            let a = ox as i128 * oy as i128;
            let t = land_use_index(use_);
            proof {
                assert(use_ == use_at(*land_use, cx as int, cy as int));
                assert(a == cell_overlap(*land_use, b, cx as int, cy as int));
                assert(use_of(t as int) == use_);
                assert(cy - cy0 < 0x8000_0000 && cx - cx0 < 0x8000_0000);
                assert((cy - cy0) * 0x8000_0000 * 0x4000_0000_0000_0000 + (cx - cx0) * 0x4000_0000_0000_0000 + 0x4000_0000_0000_0000 <= 0x8000_0000 * 0x8000_0000 * 0x4000_0000_0000_0000);
            }
            let ghost before = areas@;
            let ghost before_present = present@;
            let cur = areas[t];
            assert(0 <= cur <= (cy - cy0) * 0x8000_0000 * 0x4000_0000_0000_0000 + (cx - cx0) * 0x4000_0000_0000_0000);
            areas.set(t, cur + a);
            present.set(t, true);
            proof {
                assert forall|s: int| 0 <= s < 4 implies areas@[s] == start_areas[s] + row_area(*land_use, b, use_of(s), cy as int, cx0 as int, cx + 1)
                    && present@[s] == (start_present[s] || row_has(*land_use, use_of(s), cy as int, cx0 as int, cx + 1))
                    && 0 <= areas@[s] <= (cy - cy0) * 0x8000_0000 * 0x4000_0000_0000_0000 + (cx + 1 - cx0) * 0x4000_0000_0000_0000 by {
                    assert(row_area(*land_use, b, use_of(s), cy as int, cx0 as int, cx + 1) == row_area(*land_use, b, use_of(s), cy as int, cx0 as int, cx as int) + if use_at(*land_use, cx as int, cy as int) == use_of(s) {
                        cell_overlap(*land_use, b, cx as int, cy as int)
                    } else {
                        0
                    });
                    if s == t {
                        assert(use_of(s) == use_);
                        assert(areas@[s] == before[s] + a);
                    } else {
                        assert(use_of(s) != use_) by {
                            assert(use_index(use_of(s)) == s);
                        }
                        assert(areas@[s] == before[s]);
                        assert(present@[s] == before_present[s]);
                    }
                }
            }
            cx += 1;
        }
        proof {
            if cx0 >= cx1 {
                assert forall|t: int| 0 <= t < 4 implies row_area(*land_use, b, use_of(t), cy as int, cx0 as int, cx as int) == row_area(*land_use, b, use_of(t), cy as int, cx0 as int, cx1 as int)
                    && row_has(*land_use, use_of(t), cy as int, cx0 as int, cx as int) == row_has(*land_use, use_of(t), cy as int, cx0 as int, cx1 as int) by {}
            }
            assert forall|t: int| 0 <= t < 4 implies 0 <= #[trigger] areas@[t] <= (cy + 1 - cy0) * 0x8000_0000 * 0x4000_0000_0000_0000 by {
                assert((cx - cx0) * 0x4000_0000_0000_0000 <= 0x8000_0000 * 0x4000_0000_0000_0000);
            }
        }
        cy += 1;
    }
    proof {
        if cy0 >= cy1 {
            assert forall|t: int| 0 <= t < 4 implies areas@[t] == window_area(*land_use, b, use_of(t), cy0 as int, cx0 as int, cx1 as int, cy1 as int)
                && present@[t] == window_has(*land_use, use_of(t), cy0 as int, cx0 as int, cx1 as int, cy1 as int) by {}
        }
    }
    let mut best: Option<LandUse> = None;
    let mut best_area: i128 = 0;
    let mut k: usize = 0;
    while k < 4
        invariant
            k <= 4,
            areas.len() == 4,
            present.len() == 4,
            forall|t: int| 0 <= t < 4 ==> areas@[t] == use_area(*land_use, b, use_of(t)) && present@[t] == use_present(*land_use, b, use_of(t)),
            best == best_upto(*land_use, b, k as int),
            best matches Some(p) ==> best_area == use_area(*land_use, b, p),
        decreases 4 - k,
    {
        let u = if k == 0 {
            LandUse::Residential
        } else if k == 1 {
            LandUse::Commercial
        } else if k == 2 {
            LandUse::Industrial
        } else {
            LandUse::Institutional
        };
        assert(u == use_of(k as int));
        if present[k] && (best.is_none() || areas[k] > best_area) {
            best = Some(u);
            best_area = areas[k];
        }
        k += 1;
    }
    match best {
        Some(u) => u,
        None => LandUse::Residential,
    }
}

} // verus!
