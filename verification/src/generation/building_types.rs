//! Pass 5's own data and geometry: a placed envelope's assigned building
//! type, the catchment square an envelope's front cell falls in, and the
//! corner test a type's siting reads. The type table itself is content a
//! caller hands in.

use vstd::prelude::*;
use super::streets::{Side, Sides};
use super::{SiteBounds, fits_i32};
use crate::world::collision::Rect;
use crate::defs::BuildingTypeDef;

verus! {

/// This pass's own stream id.
pub const PASS_ID: u64 = super::PASS_BUILDING_TYPE;

/// One placed envelope's assigned type: `plot` is the plot index the
/// envelope carries, `building_type` a building type's id.
#[derive(Debug, Clone, Copy, PartialEq, Eq, PartialOrd, Ord, Structural)]
pub struct TypeAssignment {
    pub plot: u32,
    pub building_type: u32,
}

/// Pass 5's output: one assignment per placed envelope, in the envelopes'
/// own order.
#[derive(Debug, Clone)]
pub struct BuildingTypeMap {
    assignments: Vec<TypeAssignment>,
}

impl BuildingTypeMap {
    pub closed spec fn spec_assignments(self) -> Seq<TypeAssignment> {
        self.assignments@
    }

    /// Builds a map from raw assignments, for hand-built fixtures.
    pub fn test_fixture(assignments: Vec<TypeAssignment>) -> (m: Self)
        ensures
            m.spec_assignments() == assignments@,
    {
        BuildingTypeMap { assignments }
    }

    pub fn assignments(&self) -> (r: &[TypeAssignment])
        ensures
            r@ == self.spec_assignments(),
    {
        self.assignments.as_slice()
    }

    /// Every distinct building type placed at least once, increasing.
    pub fn distinct_types(&self) -> (r: Vec<u32>)
        ensures
            forall|i: int, j: int| 0 <= i < j < r.len() ==> r@[i] < r@[j],
            forall|t: u32|
                #[trigger] r@.contains(t) <==> exists|k: int|
                    0 <= k < self.spec_assignments().len() && self.spec_assignments()[k].building_type == t,
    {
        let mut ids: Vec<u32> = Vec::new();
        let mut k: usize = 0;
        while k < self.assignments.len()
            invariant
                k <= self.assignments.len(),
                forall|i: int, j: int| 0 <= i < j < ids.len() ==> ids@[i] < ids@[j],
                forall|t: u32|
                    #[trigger] ids@.contains(t) <==> exists|a: int| 0 <= a < k && self.assignments@[a].building_type == t,
            decreases self.assignments.len() - k,
        {
            let t = self.assignments[k].building_type;
            let ghost before = ids@;
            insert_sorted_unique(&mut ids, t);
            proof {
                assert forall|q: u32| #[trigger] ids@.contains(q) <==> exists|a: int| 0 <= a < k + 1 && self.assignments@[a].building_type == q by {
                    if exists|a: int| 0 <= a < k + 1 && self.assignments@[a].building_type == q {
                        let a = choose|a: int| 0 <= a < k + 1 && self.assignments@[a].building_type == q;
                        if a < k {
                            assert(before.contains(q));
                        }
                    }
                }
            }
            k += 1;
        }
        proof {
            assert forall|t: u32| #[trigger] ids@.contains(t) <==> exists|k: int|
                0 <= k < self.spec_assignments().len() && self.spec_assignments()[k].building_type == t by {
                if ids@.contains(t) {
                    let a = choose|a: int| 0 <= a < self.assignments.len() && self.assignments@[a].building_type == t;
                    assert(self.spec_assignments()[a].building_type == t);
                }
                if exists|k: int| 0 <= k < self.spec_assignments().len() && self.spec_assignments()[k].building_type == t {
                    let k = choose|k: int| 0 <= k < self.spec_assignments().len() && self.spec_assignments()[k].building_type == t;
                    assert(self.assignments@[k].building_type == t);
                }
            }
        }
        ids
    }
}

/// Adds `t` to a strictly increasing vector, keeping it so.
fn insert_sorted_unique(v: &mut Vec<u32>, t: u32)
    requires
        forall|i: int, j: int| 0 <= i < j < old(v).len() ==> old(v)@[i] < old(v)@[j],
    ensures
        forall|i: int, j: int| 0 <= i < j < final(v).len() ==> final(v)@[i] < final(v)@[j],
        forall|q: u32| #[trigger] final(v)@.contains(q) <==> (old(v)@.contains(q) || q == t),
{
    let mut k: usize = 0;
    while k < v.len() && v[k] < t
        invariant
            k <= v.len(),
            forall|j: int| 0 <= j < k ==> v@[j] < t,
        decreases v.len() - k,
    {
        k += 1;
    }
    if k < v.len() && v[k] == t {
        assert(v@[k as int] == t);
        return;
    }
    let ghost o = v@;
    v.insert(k, t);
    proof {
        assert forall|j: int| 0 <= j < v.len() implies #[trigger] v@[j] == if j < k {
            o[j]
        } else if j == k {
            t
        } else {
            o[j - 1]
        } by {}
        assert forall|q: u32| #[trigger] v@.contains(q) <==> (o.contains(q) || q == t) by {
            if o.contains(q) {
                let j = choose|j: int| 0 <= j < o.len() && o[j] == q;
                if j < k {
                    assert(v@[j] == q);
                } else {
                    assert(v@[j + 1] == q);
                }
            }
            if q == t {
                assert(v@[k as int] == q);
            }
            if v@.contains(q) {
                let j = choose|j: int| 0 <= j < v.len() && v@[j] == q;
                if j < k {
                    assert(o[j] == q);
                } else if j > k {
                    assert(o[j - 1] == q);
                }
            }
        }
    }
}

/// `a` divided by a positive `b`, rounded toward negative infinity.
fn div_floor(a: i64, b: i64) -> (q: i64)
    requires
        b > 0,
        -0x1_0000_0000 <= a <= 0x1_0000_0000,
    ensures
        q == a as int / b as int,
{
    if a >= 0 {
        a / b
    } else {
        let t = (-a - 1) / b;
        proof {
            let q2 = (-a - 1) as int / b as int;
            let r2 = (-a - 1) as int % b as int;
            vstd::arithmetic::div_mod::lemma_fundamental_div_mod((-a - 1) as int, b as int);
            assert(a as int == (-q2 - 1) * b + (b - r2 - 1)) by (nonlinear_arith)
                requires
                    (-a - 1) as int == b * q2 + r2,
            ;
            vstd::arithmetic::div_mod::lemma_fundamental_div_mod_converse_div(a as int, b as int, -q2 - 1, b - r2 - 1);
        }
        -t - 1
    }
}

/// The catchment square a cell falls in: its offset from the site's
/// corner floor-divided by `extent` (at least 1) on each axis, so every
/// cell belongs to exactly one catchment.
pub fn catchment_of(x: i32, y: i32, site: SiteBounds, extent: i32) -> (r: (i32, i32))
    requires
        fits_i32(x - site.x0),
        fits_i32(y - site.y0),
    ensures
        r.0 == (x - site.x0) / (if extent >= 1 { extent as int } else { 1 }),
        r.1 == (y - site.y0) / (if extent >= 1 { extent as int } else { 1 }),
{
    let e: i64 = if extent >= 1 { extent as i64 } else { 1 };
    let cx = div_floor(x as i64 - site.x0 as i64, e);
    let cy = div_floor(y as i64 - site.y0 as i64, e);
    proof {
        assert(-0x8000_0000 <= cx <= 0x7fff_ffff) by {
            lemma_floor_div_bounded((x - site.x0) as int, e as int);
        }
        assert(-0x8000_0000 <= cy <= 0x7fff_ffff) by {
            lemma_floor_div_bounded((y - site.y0) as int, e as int);
        }
    }
    (cx as i32, cy as i32)
}

proof fn lemma_floor_div_bounded(a: int, b: int)
    requires
        b >= 1,
        -0x8000_0000 <= a <= 0x7fff_ffff,
    ensures
        -0x8000_0000 <= a / b <= 0x7fff_ffff,
{
    vstd::arithmetic::div_mod::lemma_fundamental_div_mod(a, b);
    let q = a / b;
    let r = a % b;
    assert(-0x8000_0000 <= q <= 0x7fff_ffff) by (nonlinear_arith)
        requires
            a == b * q + r,
            0 <= r < b,
            b >= 1,
            -0x8000_0000 <= a <= 0x7fff_ffff,
    ;
}

/// Whether a plot's envelope is a corner one: one of its row-axis edges
/// is the outer edge of its row and the block side beyond that edge
/// abuts a street.
pub open spec fn spec_is_corner_envelope(plot: Rect, row: Rect, front: Side, sides: Sides) -> bool {
    match front {
        Side::North | Side::South => (plot.x0 == row.x0 && sides.west) || (plot.x1 == row.x1 && sides.east),
        Side::East | Side::West => (plot.y0 == row.y0 && sides.north) || (plot.y1 == row.y1 && sides.south),
    }
}

pub fn is_corner_envelope(plot_bounds: Rect, row_bounds: Rect, front: Side, sides: Sides) -> (b: bool)
    ensures
        b == spec_is_corner_envelope(plot_bounds, row_bounds, front, sides),
{
    let (lo_is_row_edge, hi_is_row_edge, lo_side, hi_side) = match front {
        Side::North | Side::South => (plot_bounds.x0 == row_bounds.x0, plot_bounds.x1 == row_bounds.x1, Side::West, Side::East),
        Side::East | Side::West => (plot_bounds.y0 == row_bounds.y0, plot_bounds.y1 == row_bounds.y1, Side::North, Side::South),
    };
    (lo_is_row_edge && sides.get(lo_side)) || (hi_is_row_edge && sides.get(hi_side))
}

/// The Chebyshev distance between two cells.
pub open spec fn spec_chebyshev(a: (i32, i32), b: (i32, i32)) -> int {
    let dx = if a.0 >= b.0 { a.0 - b.0 } else { b.0 - a.0 };
    let dy = if a.1 >= b.1 { a.1 - b.1 } else { b.1 - a.1 };
    if dx >= dy {
        dx
    } else {
        dy
    }
}

pub fn chebyshev(a: (i32, i32), b: (i32, i32)) -> (d: u32)
    ensures
        d == spec_chebyshev(a, b),
{
    let dx: i64 = if a.0 >= b.0 { a.0 as i64 - b.0 as i64 } else { b.0 as i64 - a.0 as i64 };
    let dy: i64 = if a.1 >= b.1 { a.1 as i64 - b.1 as i64 } else { b.1 as i64 - a.1 as i64 };
    if dx >= dy {
        dx as u32
    } else {
        dy as u32
    }
}

/// The cell a building's envelope hands the rule engine as its subject:
/// the midpoint of its front edge (rounded toward the lower coordinate),
/// on the front edge itself.
pub open spec fn spec_front_cell(f: Rect, front: Side) -> (int, int) {
    let mid_x = f.x0 + super::trunc_div(f.x1 - f.x0 - 1, 2);
    let mid_y = f.y0 + super::trunc_div(f.y1 - f.y0 - 1, 2);
    match front {
        Side::North => (mid_x, f.y0 as int),
        Side::South => (mid_x, f.y1 - 1),
        Side::West => (f.x0 as int, mid_y),
        Side::East => (f.x1 - 1, mid_y),
    }
}

pub fn front_cell(footprint: Rect, front: Side) -> (r: (i32, i32))
    requires
        fits_i32(footprint.x1 - footprint.x0),
        fits_i32(footprint.y1 - footprint.y0),
        fits_i32(footprint.x1 - footprint.x0 - 1),
        fits_i32(footprint.y1 - footprint.y0 - 1),
        fits_i32(spec_front_cell(footprint, front).0),
        fits_i32(spec_front_cell(footprint, front).1),
        fits_i32(footprint.x0 + super::trunc_div(footprint.x1 - footprint.x0 - 1, 2)),
        fits_i32(footprint.y0 + super::trunc_div(footprint.y1 - footprint.y0 - 1, 2)),
    ensures
        r.0 == spec_front_cell(footprint, front).0,
        r.1 == spec_front_cell(footprint, front).1,
{
    let mid_x = footprint.x0 + (footprint.x1 - footprint.x0 - 1) / 2;
    let mid_y = footprint.y0 + (footprint.y1 - footprint.y0 - 1) / 2;
    match front {
        Side::North => (mid_x, footprint.y0),
        Side::South => (mid_x, footprint.y1 - 1),
        Side::West => (footprint.x0, mid_y),
        Side::East => (footprint.x1 - 1, mid_y),
    }
}


/// One placed envelope's own structural context: what eligibility and
/// siting read, computed once per envelope.
#[derive(Debug, Clone, Copy)]
pub struct Context {
    pub land_use_idx: usize,
    pub density: i32,
    pub interior_width: i32,
    pub interior_depth: i32,
    pub corner: bool,
    pub x: i32,
    pub y: i32,
    pub catchment: (i32, i32),
}

/// Hard eligibility: the type stands on the envelope's land use, the
/// density lies in its band, the envelope's interior meets its minimum on
/// both axes, and it has a corner when the type needs one.
pub open spec fn spec_hard_eligible(b: BuildingTypeDef, ctx: Context) -> bool {
    &&& ctx.land_use_idx < 4
    &&& b.land_uses[ctx.land_use_idx as int]
    &&& b.density_min <= ctx.density <= b.density_max
    &&& b.min_interior_width_cells <= ctx.interior_width
    &&& b.min_interior_depth_cells <= ctx.interior_depth
    &&& (!b.requires_corner || ctx.corner)
}

/// Whether type `b` may stand on the envelope `ctx` describes, per
/// [`spec_hard_eligible`].
pub fn hard_eligible(b: &BuildingTypeDef, ctx: &Context) -> (r: bool)
    requires
        ctx.land_use_idx < 4,
    ensures
        r == spec_hard_eligible(*b, *ctx),
{
    b.land_uses[ctx.land_use_idx] && ctx.density >= b.density_min && ctx.density <= b.density_max
        && (b.min_interior_width_cells as i64) <= ctx.interior_width as i64 && (b.min_interior_depth_cells as i64)
        <= ctx.interior_depth as i64 && (!b.requires_corner || ctx.corner)
}

/// A building type is a workplace exactly when it employs at least one
/// profession.
pub fn is_workplace(def: &BuildingTypeDef) -> (r: bool)
    ensures
        r == (def.professions@.len() > 0),
{
    def.professions.len() > 0
}

/// The total weight of the first `k` types.
pub open spec fn weight_sum(types: Seq<BuildingTypeDef>, k: int) -> int
    decreases k,
{
    if k <= 0 {
        0
    } else {
        weight_sum(types, k - 1) + types[k - 1].weight
    }
}

proof fn lemma_weight_sum_monotone(types: Seq<BuildingTypeDef>, j: int, k: int)
    requires
        0 <= j <= k <= types.len(),
    ensures
        0 <= weight_sum(types, j) <= weight_sum(types, k),
    decreases k - j,
{
    if j < k {
        lemma_weight_sum_monotone(types, j, k - 1);
    } else {
        lemma_weight_sum_nonneg(types, j);
    }
}

proof fn lemma_weight_sum_nonneg(types: Seq<BuildingTypeDef>, k: int)
    requires
        0 <= k <= types.len(),
    ensures
        0 <= weight_sum(types, k),
    decreases k,
{
    if k > 0 {
        lemma_weight_sum_nonneg(types, k - 1);
    }
}

/// The type a weighted roll lands on: the first whose running weight
/// total exceeds `roll`, the first type when none does.
pub open spec fn spec_weighted_pick(types: Seq<BuildingTypeDef>, roll: int) -> u32 {
    if exists|k: int| 0 <= k < types.len() && roll < #[trigger] weight_sum(types, k + 1) {
        types[choose|k: int|
            0 <= k < types.len() && roll < #[trigger] weight_sum(types, k + 1) && forall|j: int|
                0 <= j < k ==> roll >= #[trigger] weight_sum(types, j + 1)].id
    } else {
        types[0].id
    }
}

/// Walks a roll in `[0, total weight)` down the eligible types, in the
/// order given, and returns the id of the type it lands on
/// ([`spec_weighted_pick`]): each type takes a share of the roll as large
/// as its weight.
pub fn weighted_pick(eligible: &[BuildingTypeDef], roll: u64) -> (id: u32)
    requires
        eligible@.len() > 0,
        weight_sum(eligible@, eligible@.len() as int) <= u64::MAX,
    ensures
        id == spec_weighted_pick(eligible@, roll as int),
        roll < weight_sum(eligible@, eligible@.len() as int) ==> exists|k: int|
            0 <= k < eligible@.len() && eligible@[k].id == id && weight_sum(eligible@, k) <= roll < weight_sum(
                eligible@,
                k + 1,
            ),
{
    let ghost ts = eligible@;
    let mut rest = roll;
    let mut i: usize = 0;
    while i < eligible.len()
        invariant
            ts == eligible@,
            i <= ts.len(),
            weight_sum(ts, ts.len() as int) <= u64::MAX,
            rest == roll - weight_sum(ts, i as int),
            forall|j: int| 0 <= j < i ==> roll >= #[trigger] weight_sum(ts, j + 1),
        decreases ts.len() - i,
    {
        proof {
            lemma_weight_sum_monotone(ts, i + 1, ts.len() as int);
        }
        let w = eligible[i].weight as u64;
        if rest < w {
            proof {
                assert(roll < weight_sum(ts, i + 1));
                let k = choose|k: int|
                    0 <= k < ts.len() && roll < #[trigger] weight_sum(ts, k + 1) && forall|j: int|
                        0 <= j < k ==> roll >= #[trigger] weight_sum(ts, j + 1);
                if k < i {
                    assert(roll >= weight_sum(ts, k + 1));
                } else if k > i {
                    assert(roll >= weight_sum(ts, i + 1));
                }
                assert(weight_sum(ts, i as int) <= roll);
            }
            return eligible[i].id;
        }
        rest = rest - w;
        i += 1;
    }
    proof {
        assert(!exists|k: int| 0 <= k < ts.len() && roll < #[trigger] weight_sum(ts, k + 1));
    }
    eligible[0].id
}

} // verus!
