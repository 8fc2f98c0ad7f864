//! Pass 4: building envelopes. Each non-open plot gets one outcome: an
//! outer-rectangle footprint inside it, or a typed rejection when it
//! cannot hold its land use's minimum envelope. The footprint fills the
//! plot along its face (side gaps and corners exact), sits on the build
//! line behind the setback, and takes a small keyed trim off its depth,
//! never below the minimum.

use vstd::prelude::*;
use super::plots::{Plot, PlotMap};
use super::streets::Side;
use super::land_use::{LandUse, use_index};
use super::{GenerationConfig, GenerationError, EnvelopeLimits, PASS_BUILDING_ENVELOPE, fits_i32, fits_i64, trunc_div,
    min_footprint_w, min_footprint_d, rect_seed_key, spec_rect_seed_key, spec_band, band_fits};
use crate::rng::{Rng, seed_from_ids, spec_seed_from_ids, seeded_state, xoshiro_advance, xoshiro_output};
use crate::world::collision::Rect;

verus! {

/// This pass's own stream id.
pub const PASS_ID: u64 = PASS_BUILDING_ENVELOPE;

/// One placed envelope: a footprint inside its plot, fronting the side
/// the plot fronts.
#[derive(Debug, Clone, Copy, PartialEq, Eq, PartialOrd, Ord, Structural)]
pub struct Envelope {
    /// Index into the [`PlotMap`] this envelope was built from.
    pub plot: u32,
    pub footprint: Rect,
    pub front: Side,
}

/// Why a plot could not hold its class's minimum envelope, checked in
/// this order (narrow before shallow).
#[derive(Debug, Clone, Copy, PartialEq, Eq, PartialOrd, Ord, Structural)]
pub enum RejectReason {
    PlotTooNarrow,
    PlotTooShallow,
}

/// Every non-open plot's outcome.
#[derive(Debug, Clone, Copy, PartialEq, Eq, PartialOrd, Ord, Structural)]
pub enum EnvelopeOutcome {
    Placed(Envelope),
    Rejected { plot: u32, class: LandUse, reason: RejectReason },
}

/// A rect's size along the face `front` lies on.
pub open spec fn spec_along_face(bounds: Rect, front: Side) -> int {
    match front {
        Side::North | Side::South => bounds.spec_width(),
        Side::East | Side::West => bounds.spec_height(),
    }
}

/// A rect's size across the face `front` lies on.
pub open spec fn spec_depth(bounds: Rect, front: Side) -> int {
    match front {
        Side::North | Side::South => bounds.spec_height(),
        Side::East | Side::West => bounds.spec_width(),
    }
}

pub fn along_face_extent(bounds: Rect, front: Side) -> (r: i64)
    ensures
        r == spec_along_face(bounds, front),
{
    match front {
        Side::North | Side::South => bounds.width(),
        Side::East | Side::West => bounds.height(),
    }
}

pub fn depth_extent(bounds: Rect, front: Side) -> (r: i64)
    ensures
        r == spec_depth(bounds, front),
{
    match front {
        Side::North | Side::South => bounds.height(),
        Side::East | Side::West => bounds.width(),
    }
}

impl Envelope {
    /// The footprint's size along its plot's row axis.
    pub fn along_face_cells(&self) -> (r: i64)
        ensures
            r == spec_along_face(self.footprint, self.front),
    {
        along_face_extent(self.footprint, self.front)
    }

    /// The footprint's size across it (the setback axis).
    pub fn depth_cells(&self) -> (r: i64)
        ensures
            r == spec_depth(self.footprint, self.front),
    {
        depth_extent(self.footprint, self.front)
    }
}

/// Whether each of a plot's two row edges is the outer edge of its row
/// (a corner, flush to that street's build line) rather than shared with
/// a neighbouring plot of the same front.
pub open spec fn spec_is_corner(plot: Rect, row: Rect, front: Side) -> (bool, bool) {
    match front {
        Side::North | Side::South => (plot.x0 == row.x0, plot.x1 == row.x1),
        Side::East | Side::West => (plot.y0 == row.y0, plot.y1 == row.y1),
    }
}

pub fn row_axis_is_corner(plot_bounds: Rect, row_bounds: Rect, front: Side) -> (r: (bool, bool))
    ensures
        r == spec_is_corner(plot_bounds, row_bounds, front),
{
    match front {
        Side::North | Side::South => (plot_bounds.x0 == row_bounds.x0, plot_bounds.x1 == row_bounds.x1),
        Side::East | Side::West => (plot_bounds.y0 == row_bounds.y0, plot_bounds.y1 == row_bounds.y1),
    }
}

/// The inset on each row edge: the setback on a corner, half the side gap
/// on an edge shared with a neighbour.
pub open spec fn spec_insets(plot: Rect, row: Rect, front: Side, half_gap: i32, setback: i32) -> (i32, i32) {
    let (lo, hi) = spec_is_corner(plot, row, front);
    (if lo { setback } else { half_gap }, if hi { setback } else { half_gap })
}

pub fn row_axis_insets(plot_bounds: Rect, row_bounds: Rect, front: Side, half_gap: i32, setback: i32) -> (r: (i32, i32))
    ensures
        r == spec_insets(plot_bounds, row_bounds, front, half_gap, setback),
{
    let (corner_lo, corner_hi) = row_axis_is_corner(plot_bounds, row_bounds, front);
    (if corner_lo { setback } else { half_gap }, if corner_hi { setback } else { half_gap })
}

/// Where a `len`-long span starts inside `[lo, hi]`: at `lo` when it fills
/// the range; else flush to the edge that is not a corner (the slack goes
/// to the street side), centred when both or neither are corners.
pub open spec fn spec_anchored(len: int, lo: int, hi: int, corner_lo: bool, corner_hi: bool) -> int {
    if len >= hi - lo {
        lo
    } else if !corner_lo && corner_hi {
        lo
    } else if corner_lo && !corner_hi {
        hi - len
    } else {
        trunc_div(lo + hi, 2) - trunc_div(len, 2)
    }
}

pub fn anchored_span(len: i32, lo: i32, hi: i32, corner_lo: bool, corner_hi: bool) -> (r: i32)
    requires
        fits_i32(hi - lo),
        fits_i32(lo + hi),
        fits_i32(spec_anchored(len as int, lo as int, hi as int, corner_lo, corner_hi)),
    ensures
        r == spec_anchored(len as int, lo as int, hi as int, corner_lo, corner_hi),
{
    let avail = hi - lo;
    if len >= avail {
        return lo;
    }
    if !corner_lo && corner_hi {
        lo
    } else if corner_lo && !corner_hi {
        hi - len
    } else {
        (lo + hi) / 2 - len / 2
    }
}

/// A span of a non-negative `len` shorter than or equal to `[lo, hi]`
/// anchored in it stays within it.
pub proof fn lemma_anchored_within(len: int, lo: int, hi: int, corner_lo: bool, corner_hi: bool)
    requires
        0 <= len <= hi - lo,
    ensures
        lo <= spec_anchored(len, lo, hi, corner_lo, corner_hi),
        spec_anchored(len, lo, hi, corner_lo, corner_hi) + len <= hi,
{
}

/// The footprint [`build_footprint`] builds: `along_face` anchored on the
/// row axis inside the plot less its insets, `depth` measured inward from
/// the front edge behind the setback.
pub open spec fn spec_footprint(plot: Rect, row: Rect, front: Side, along: int, depth: int, half_gap: i32, setback: i32) -> Rect {
    let (inset_lo, inset_hi) = spec_insets(plot, row, front, half_gap, setback);
    let (corner_lo, corner_hi) = spec_is_corner(plot, row, front);
    match front {
        Side::North => {
            let x0 = spec_anchored(along, plot.x0 + inset_lo, plot.x1 - inset_hi, corner_lo, corner_hi);
            let y0 = plot.y0 + setback;
            Rect { x0: x0 as i32, y0: y0 as i32, x1: (x0 + along) as i32, y1: (y0 + depth) as i32 }
        },
        Side::South => {
            let x0 = spec_anchored(along, plot.x0 + inset_lo, plot.x1 - inset_hi, corner_lo, corner_hi);
            let y1 = plot.y1 - setback;
            Rect { x0: x0 as i32, y0: (y1 - depth) as i32, x1: (x0 + along) as i32, y1: y1 as i32 }
        },
        Side::West => {
            let y0 = spec_anchored(along, plot.y0 + inset_lo, plot.y1 - inset_hi, corner_lo, corner_hi);
            let x0 = plot.x0 + setback;
            Rect { x0: x0 as i32, y0: y0 as i32, x1: (x0 + depth) as i32, y1: (y0 + along) as i32 }
        },
        Side::East => {
            let y0 = spec_anchored(along, plot.y0 + inset_lo, plot.y1 - inset_hi, corner_lo, corner_hi);
            let x1 = plot.x1 - setback;
            Rect { x0: (x1 - depth) as i32, y0: y0 as i32, x1: x1 as i32, y1: (y0 + along) as i32 }
        },
    }
}

/// The footprint stays within `i32`: every intermediate coordinate of
/// [`build_footprint`] fits.
pub open spec fn footprint_fits(plot: Rect, row: Rect, front: Side, along: int, depth: int, half_gap: i32, setback: i32) -> bool {
    let (inset_lo, inset_hi) = spec_insets(plot, row, front, half_gap, setback);
    let (corner_lo, corner_hi) = spec_is_corner(plot, row, front);
    let (a0, a1) = match front {
        Side::North | Side::South => (plot.x0 as int, plot.x1 as int),
        Side::East | Side::West => (plot.y0 as int, plot.y1 as int),
    };
    let lo = a0 + inset_lo;
    let hi = a1 - inset_hi;
    let start = spec_anchored(along, lo, hi, corner_lo, corner_hi);
    let edge = match front {
        Side::North => plot.y0 + setback,
        Side::South => plot.y1 - setback,
        Side::West => plot.x0 + setback,
        Side::East => plot.x1 - setback,
    };
    let far = match front {
        Side::North | Side::West => edge + depth,
        Side::South | Side::East => edge - depth,
    };
    &&& fits_i32(lo) && fits_i32(hi) && fits_i32(hi - lo) && fits_i32(lo + hi)
    &&& fits_i32(start) && fits_i32(start + along)
    &&& fits_i32(edge) && fits_i32(far)
}

/// Builds the outer-rectangle footprint inside `plot_bounds`, per
/// [`spec_footprint`].
pub fn build_footprint(
    plot_bounds: Rect,
    row_bounds: Rect,
    front: Side,
    along_face: i32,
    depth: i32,
    half_gap: i32,
    setback: i32,
) -> (r: Rect)
    requires
        footprint_fits(plot_bounds, row_bounds, front, along_face as int, depth as int, half_gap, setback),
    ensures
        r == spec_footprint(plot_bounds, row_bounds, front, along_face as int, depth as int, half_gap, setback),
{
    let (inset_lo, inset_hi) = row_axis_insets(plot_bounds, row_bounds, front, half_gap, setback);
    let (corner_lo, corner_hi) = row_axis_is_corner(plot_bounds, row_bounds, front);
    match front {
        Side::North => {
            let (lo, hi) = (plot_bounds.x0 + inset_lo, plot_bounds.x1 - inset_hi);
            let x0 = anchored_span(along_face, lo, hi, corner_lo, corner_hi);
            let y0 = plot_bounds.y0 + setback;
            Rect { x0, y0, x1: x0 + along_face, y1: y0 + depth }
        },
        Side::South => {
            let (lo, hi) = (plot_bounds.x0 + inset_lo, plot_bounds.x1 - inset_hi);
            let x0 = anchored_span(along_face, lo, hi, corner_lo, corner_hi);
            let y1 = plot_bounds.y1 - setback;
            Rect { x0, y0: y1 - depth, x1: x0 + along_face, y1 }
        },
        Side::West => {
            let (lo, hi) = (plot_bounds.y0 + inset_lo, plot_bounds.y1 - inset_hi);
            let y0 = anchored_span(along_face, lo, hi, corner_lo, corner_hi);
            let x0 = plot_bounds.x0 + setback;
            Rect { x0, y0, x1: x0 + depth, y1: y0 + along_face }
        },
        Side::East => {
            let (lo, hi) = (plot_bounds.y0 + inset_lo, plot_bounds.y1 - inset_hi);
            let y0 = anchored_span(along_face, lo, hi, corner_lo, corner_hi);
            let x1 = plot_bounds.x1 - setback;
            Rect { x0: x1 - depth, y0, x1, y1: y0 + along_face }
        },
    }
}

/// The setback at `density`: none at or above the high-density threshold.
pub open spec fn setback_at(cfg: GenerationConfig, density: i32) -> int {
    if density >= cfg.plot_high_density_threshold {
        0
    } else {
        cfg.plot_setback_periphery_cells as int
    }
}

/// Half the side gap at `density` (rounded toward zero).
pub open spec fn half_gap_at(cfg: GenerationConfig, density: i32) -> int {
    trunc_div(
        if density >= cfg.plot_high_density_threshold {
            0
        } else {
            cfg.envelope_side_gap_periphery_cells as int
        },
        2,
    )
}

pub open spec fn min_int(a: int, b: int) -> int {
    if a <= b {
        a
    } else {
        b
    }
}

pub open spec fn max_int(a: int, b: int) -> int {
    if a >= b {
        a
    } else {
        b
    }
}

/// What the plot makes available along its face and in depth, once its
/// insets and setback are taken off.
pub open spec fn available(plot: Plot, row: Rect, cfg: GenerationConfig) -> (int, int) {
    let front = plot.front.unwrap();
    let setback = setback_at(cfg, plot.density);
    let (ilo, ihi) = spec_insets(plot.bounds, row, front, half_gap_at(cfg, plot.density) as i32, setback as i32);
    (spec_along_face(plot.bounds, front) - ilo - ihi, spec_depth(plot.bounds, front) - setback)
}

/// The footprint's size along the face: everything available, capped at
/// the class maximum.
pub open spec fn placed_along(plot: Plot, row: Rect, cfg: GenerationConfig) -> int {
    min_int(available(plot, row, cfg).0, cfg.envelope_max_width_cells as int)
}

/// The footprint's depth for a trim of `trim`: what is available, capped
/// at the maximum, less the trim, never under the class minimum.
pub open spec fn placed_depth(plot: Plot, row: Rect, cfg: GenerationConfig, trim: int) -> int {
    max_int(
        min_int(available(plot, row, cfg).1, cfg.envelope_max_depth_cells as int) - trim,
        min_footprint_d(cfg, use_index(plot.land_use)),
    )
}

/// The trim drawn with state `w` (none, and no draw, when the trim
/// ceiling is not positive), and the state after.
pub open spec fn draw_trim(w: Seq<u64>, cfg: GenerationConfig) -> (int, Seq<u64>) {
    let trim_max = cfg.envelope_size_trim_max_cells as int;
    if trim_max > 0 {
        ((xoshiro_output(w) % ((trim_max + 1) as u64)) as int, xoshiro_advance(w))
    } else {
        (0, w)
    }
}

/// What [`place_one`] returns, and the state after: a rejection (no draw)
/// when the plot cannot hold the class minimum along its face, then in
/// depth; else the footprint.
pub open spec fn spec_place_one(plot: Plot, idx: u32, row: Rect, w: Seq<u64>, cfg: GenerationConfig) -> (EnvelopeOutcome, Seq<u64>) {
    let i = use_index(plot.land_use);
    let (avail_along, avail_depth) = available(plot, row, cfg);
    if avail_along < min_footprint_w(cfg, i) {
        (EnvelopeOutcome::Rejected { plot: idx, class: plot.land_use, reason: RejectReason::PlotTooNarrow }, w)
    } else if avail_depth < min_footprint_d(cfg, i) {
        (EnvelopeOutcome::Rejected { plot: idx, class: plot.land_use, reason: RejectReason::PlotTooShallow }, w)
    } else {
        let (trim, w1) = draw_trim(w, cfg);
        (
            EnvelopeOutcome::Placed(
                Envelope {
                    plot: idx,
                    footprint: spec_footprint(
                        plot.bounds,
                        row,
                        plot.front.unwrap(),
                        placed_along(plot, row, cfg),
                        placed_depth(plot, row, cfg, trim),
                        half_gap_at(cfg, plot.density) as i32,
                        setback_at(cfg, plot.density) as i32,
                    ),
                    front: plot.front.unwrap(),
                },
            ),
            w1,
        )
    }
}

/// The arithmetic of placing `plot` stays within its integer types, for
/// every trim that can be drawn.
pub open spec fn place_fits(plot: Plot, row: Rect, cfg: GenerationConfig) -> bool {
    let i = use_index(plot.land_use);
    &&& plot.front is Some
    &&& fits_i32(2 * cfg.envelope_wall_thickness_cells)
    &&& fits_i32(min_footprint_w(cfg, i))
    &&& fits_i32(min_footprint_d(cfg, i))
    &&& forall|trim: int|
        0 <= trim <= max_int(cfg.envelope_size_trim_max_cells as int, 0) ==> #[trigger] footprint_fits(
            plot.bounds,
            row,
            plot.front.unwrap(),
            placed_along(plot, row, cfg),
            placed_depth(plot, row, cfg, trim),
            half_gap_at(cfg, plot.density) as i32,
            setback_at(cfg, plot.density) as i32,
        )
}

/// `inner` lies within `outer`.
pub open spec fn within(inner: Rect, outer: Rect) -> bool {
    outer.x0 <= inner.x0 && inner.x1 <= outer.x1 && outer.y0 <= inner.y0 && inner.y1 <= outer.y1
}

/// The config's envelope sizing is sane: non-negative gaps and setbacks,
/// and each class's minimum at most the shared maximum.
pub open spec fn sizing_sane(cfg: GenerationConfig, u: LandUse) -> bool {
    &&& 0 <= cfg.envelope_side_gap_periphery_cells
    &&& 0 <= cfg.plot_setback_periphery_cells
    &&& 0 <= cfg.envelope_size_trim_max_cells
    &&& 0 <= min_footprint_w(cfg, use_index(u)) <= cfg.envelope_max_width_cells
    &&& 0 <= min_footprint_d(cfg, use_index(u)) <= cfg.envelope_max_depth_cells
}


/// With a sane config, a placed footprint lies within its plot, fills the
/// face as far as the class maximum allows, and keeps its size within the
/// class band.
#[verifier::rlimit(80)]
pub proof fn lemma_placed_within(plot: Plot, row: Rect, cfg: GenerationConfig, trim: int)
    requires
        place_fits(plot, row, cfg),
        sizing_sane(cfg, plot.land_use),
        0 <= trim <= cfg.envelope_size_trim_max_cells,
        available(plot, row, cfg).0 >= min_footprint_w(cfg, use_index(plot.land_use)),
        available(plot, row, cfg).1 >= min_footprint_d(cfg, use_index(plot.land_use)),
    ensures
        ({
            let front = plot.front.unwrap();
            let f = spec_footprint(
                plot.bounds,
                row,
                front,
                placed_along(plot, row, cfg),
                placed_depth(plot, row, cfg, trim),
                half_gap_at(cfg, plot.density) as i32,
                setback_at(cfg, plot.density) as i32,
            );
            &&& within(f, plot.bounds)
            &&& spec_along_face(f, front) == placed_along(plot, row, cfg)
            &&& min_footprint_w(cfg, use_index(plot.land_use)) <= spec_along_face(f, front) <= cfg.envelope_max_width_cells
            &&& min_footprint_d(cfg, use_index(plot.land_use)) <= spec_depth(f, front) <= cfg.envelope_max_depth_cells
        }),
{
    let front = plot.front.unwrap();
    let half_gap = half_gap_at(cfg, plot.density) as i32;
    let setback = setback_at(cfg, plot.density) as i32;
    let along = placed_along(plot, row, cfg);
    let depth = placed_depth(plot, row, cfg, trim);
    assert(footprint_fits(plot.bounds, row, front, along, depth, half_gap, setback));
    let (ilo, ihi) = spec_insets(plot.bounds, row, front, half_gap, setback);
    let (clo, chi) = spec_is_corner(plot.bounds, row, front);
    assert(half_gap >= 0 && setback >= 0);
    assert(ilo >= 0 && ihi >= 0);
    assert(0 <= depth <= available(plot, row, cfg).1);
    match front {
        Side::North | Side::South => {
            lemma_anchored_within(along, plot.bounds.x0 + ilo, plot.bounds.x1 - ihi, clo, chi);
        },
        Side::East | Side::West => {
            lemma_anchored_within(along, plot.bounds.y0 + ilo, plot.bounds.y1 - ihi, clo, chi);
        },
    }
}

/// Sizes (or rejects) one non-open plot's envelope, with `row_bounds` the
/// row-axis span of its row of same-front plots (for the corner check):
/// rejected as too narrow when what its face leaves (less the insets) is
/// under the class minimum width, else too shallow when what its depth
/// leaves (less the setback) is under the minimum depth; else the
/// footprint fills the face up to the class maximum, and its depth fills
/// up to the maximum less a drawn trim, never under the minimum. With a
/// sane config the footprint lies within the plot, and its size stays
/// within the class band.
#[verifier::rlimit(30)]
pub fn place_one(plot: &Plot, plot_index: u32, row_bounds: Rect, rng: &mut Rng, cfg: &GenerationConfig) -> (r: EnvelopeOutcome)
    requires
        place_fits(*plot, row_bounds, *cfg),
    ensures
        (r, final(rng).words()) == spec_place_one(*plot, plot_index, row_bounds, old(rng).words(), *cfg),
        sizing_sane(*cfg, plot.land_use) ==> (r matches EnvelopeOutcome::Placed(e) ==> {
            &&& within(e.footprint, plot.bounds)
            &&& spec_along_face(e.footprint, e.front) == placed_along(*plot, row_bounds, *cfg)
            &&& min_footprint_w(*cfg, use_index(plot.land_use)) <= spec_along_face(e.footprint, e.front) <= cfg.envelope_max_width_cells
            &&& min_footprint_d(*cfg, use_index(plot.land_use)) <= spec_depth(e.footprint, e.front) <= cfg.envelope_max_depth_cells
        }),
{
    let front = match plot.front {
        Some(f) => f,
        None => Side::South,
    };
    let limits = cfg.envelope_limits(plot.land_use);
    let half_gap = cfg.side_gap_cells(plot.density) / 2;
    let setback = cfg.setback_cells(plot.density);
    assert(half_gap == half_gap_at(*cfg, plot.density));
    let (inset_lo, inset_hi) = row_axis_insets(plot.bounds, row_bounds, front, half_gap, setback);
    let along_total = along_face_extent(plot.bounds, front);
    let depth_total = depth_extent(plot.bounds, front);
    let avail_along = along_total - inset_lo as i64 - inset_hi as i64;
    let avail_depth = depth_total - setback as i64;
    assert((avail_along as int, avail_depth as int) == available(*plot, row_bounds, *cfg));
    if avail_along < limits.min_width_cells as i64 {
        return EnvelopeOutcome::Rejected { plot: plot_index, class: plot.land_use, reason: RejectReason::PlotTooNarrow };
    }
    if avail_depth < limits.min_depth_cells as i64 {
        return EnvelopeOutcome::Rejected { plot: plot_index, class: plot.land_use, reason: RejectReason::PlotTooShallow };
    }
    let footprint_along = if avail_along <= limits.max_width_cells as i64 {
        avail_along
    } else {
        limits.max_width_cells as i64
    };
    let depth_filled = if avail_depth <= limits.max_depth_cells as i64 {
        avail_depth
    } else {
        limits.max_depth_cells as i64
    };
    let trim_max = cfg.envelope_size_trim_max_cells as i64;
    let ghost w0 = rng.words();
    let trim: i64 = if trim_max > 0 {
        (rng.next_u64() % (trim_max + 1) as u64) as i64
    } else {
        0
    };
    assert((trim as int, rng.words()) == draw_trim(w0, *cfg));
    let footprint_depth = if depth_filled - trim >= limits.min_depth_cells as i64 {
        depth_filled - trim
    } else {
        limits.min_depth_cells as i64
    };
    assert(footprint_along == placed_along(*plot, row_bounds, *cfg));
    assert(footprint_depth == placed_depth(*plot, row_bounds, *cfg, trim as int));
    assert(footprint_fits(
        plot.bounds,
        row_bounds,
        front,
        placed_along(*plot, row_bounds, *cfg),
        placed_depth(*plot, row_bounds, *cfg, trim as int),
        half_gap_at(*cfg, plot.density) as i32,
        setback_at(*cfg, plot.density) as i32,
    ));
    let footprint = build_footprint(
        plot.bounds,
        row_bounds,
        front,
        footprint_along as i32,
        footprint_depth as i32,
        half_gap,
        setback,
    );
    proof {
        if sizing_sane(*cfg, plot.land_use) {
            lemma_placed_within(*plot, row_bounds, *cfg, trim as int);
        }
    }
    EnvelopeOutcome::Placed(Envelope { plot: plot_index, footprint, front })
}

/// The row-axis span of the plots among the first `k` that belong to
/// `block` and front `front`: the first one's bounds, widened along the
/// row axis to cover each later one; `None` when there is none.
pub open spec fn row_union(plots: Seq<Plot>, block: u32, front: Side, k: int) -> Option<Rect>
    decreases k,
{
    if k <= 0 {
        None
    } else {
        let prev = row_union(plots, block, front, k - 1);
        let p = plots[k - 1];
        if p.block == block && p.front == Some(front) {
            match prev {
                None => Some(p.bounds),
                Some(acc) => Some(
                    match front {
                        Side::North | Side::South => Rect {
                            x0: if acc.x0 <= p.bounds.x0 { acc.x0 } else { p.bounds.x0 },
                            x1: if acc.x1 >= p.bounds.x1 { acc.x1 } else { p.bounds.x1 },
                            ..acc
                        },
                        Side::East | Side::West => Rect {
                            y0: if acc.y0 <= p.bounds.y0 { acc.y0 } else { p.bounds.y0 },
                            y1: if acc.y1 >= p.bounds.y1 { acc.y1 } else { p.bounds.y1 },
                            ..acc
                        },
                    },
                ),
            }
        } else {
            prev
        }
    }
}

/// The row-axis span every plot of `block` fronting `front` tiles
/// together, or `None` when no plot has that block and front.
pub fn row_bounds_of(plots: &[Plot], block: u32, front: Side) -> (r: Option<Rect>)
    ensures
        r == row_union(plots@, block, front, plots@.len() as int),
{
    let mut acc: Option<Rect> = None;
    let mut i: usize = 0;
    while i < plots.len()
        invariant
            i <= plots.len(),
            acc == row_union(plots@, block, front, i as int),
        decreases plots.len() - i,
    {
        let p = plots[i];
        let same_front = match p.front {
            Some(f) => f == front,
            None => false,
        };
        if p.block == block && same_front {
            acc = match acc {
                None => Some(p.bounds),
                Some(a) => Some(
                    match front {
                        Side::North | Side::South => Rect {
                            x0: if a.x0 <= p.bounds.x0 { a.x0 } else { p.bounds.x0 },
                            x1: if a.x1 >= p.bounds.x1 { a.x1 } else { p.bounds.x1 },
                            ..a
                        },
                        Side::East | Side::West => Rect {
                            y0: if a.y0 <= p.bounds.y0 { a.y0 } else { p.bounds.y0 },
                            y1: if a.y1 >= p.bounds.y1 { a.y1 } else { p.bounds.y1 },
                            ..a
                        },
                    },
                ),
            };
        }
        i += 1;
    }
    acc
}

/// A plot with a front belongs to its own row.
proof fn lemma_row_union_has(plots: Seq<Plot>, block: u32, front: Side, k: int, j: int)
    requires
        0 <= j < k <= plots.len(),
        plots[j].block == block,
        plots[j].front == Some(front),
    ensures
        row_union(plots, block, front, k) is Some,
    decreases k,
{
    if j < k - 1 {
        lemma_row_union_has(plots, block, front, k - 1, j);
    }
}

/// Every `(block, front)` pair the plots have, once each in order of first
/// appearance, with the row-axis span of its row.
pub fn row_bounds_by_block_front(plots: &[Plot]) -> (r: Vec<((u32, Side), Rect)>)
    ensures
        forall|a: int, b: int| 0 <= a < b < r.len() ==> r@[a].0 != r@[b].0,
        forall|a: int| 0 <= a < r.len() ==> row_union(plots@, (#[trigger] r@[a]).0.0, r@[a].0.1, plots@.len() as int) == Some(r@[a].1),
        forall|j: int| 0 <= j < plots.len() && (#[trigger] plots@[j]).front is Some ==> exists|a: int|
            0 <= a < r.len() && (#[trigger] r@[a]).0 == (plots@[j].block, plots@[j].front.unwrap()),
{
    let mut out: Vec<((u32, Side), Rect)> = Vec::new();
    let mut i: usize = 0;
    while i < plots.len()
        invariant
            i <= plots.len(),
            forall|a: int, b: int| 0 <= a < b < out.len() ==> out@[a].0 != out@[b].0,
            forall|a: int| 0 <= a < out.len() ==> row_union(plots@, (#[trigger] out@[a]).0.0, out@[a].0.1, plots@.len() as int) == Some(out@[a].1),
            forall|j: int| 0 <= j < i && (#[trigger] plots@[j]).front is Some ==> exists|a: int|
                0 <= a < out.len() && (#[trigger] out@[a]).0 == (plots@[j].block, plots@[j].front.unwrap()),
        decreases plots.len() - i,
    {
        let p = plots[i];
        if let Some(front) = p.front {
            let mut seen = false;
            let mut a: usize = 0;
            while a < out.len()
                invariant
                    a <= out.len(),
                    seen <==> exists|c: int| 0 <= c < a && (#[trigger] out@[c]).0 == (p.block, front),
                decreases out.len() - a,
            {
                if out[a].0.0 == p.block && out[a].0.1 == front {
                    seen = true;
                }
                a += 1;
            }
            if !seen {
                proof {
                    lemma_row_union_has(plots@, p.block, front, plots@.len() as int, i as int);
                }
                let bounds = match row_bounds_of(plots, p.block, front) {
                    Some(b) => b,
                    None => p.bounds,
                };
                let ghost before = out@;
                out.push(((p.block, front), bounds));
                proof {
                    assert forall|x: int, y: int| 0 <= x < y < out.len() implies out@[x].0 != out@[y].0 by {
                        if y == out.len() - 1 {
                            assert(before[x] == out@[x]);
                        }
                    }
                    assert forall|j: int| 0 <= j < i && (#[trigger] plots@[j]).front is Some implies exists|c: int|
                        0 <= c < out.len() && (#[trigger] out@[c]).0 == (plots@[j].block, plots@[j].front.unwrap()) by {
                        let c = choose|c: int| 0 <= c < before.len() && (#[trigger] before[c]).0 == (plots@[j].block, plots@[j].front.unwrap());
                        assert(out@[c] == before[c]);
                    }
                }
            }
            proof {
                assert(exists|c: int| 0 <= c < out.len() && (#[trigger] out@[c]).0 == (plots@[i as int].block, plots@[i as int].front.unwrap())) by {
                    if !seen {
                        assert(out@[out.len() - 1].0 == (p.block, front));
                    }
                }
            }
        }
        i += 1;
    }
    out
}

/// The outcomes [`place_all`] returns for the first `k` plots: one per
/// non-open plot, in plot order, each from that plot's own stream (seeded
/// from the city seed, this pass and the plot's bounds).
pub open spec fn outcomes_upto(city_seed: u64, plots: Seq<Plot>, cfg: GenerationConfig, k: int) -> Seq<EnvelopeOutcome>
    decreases k,
{
    if k <= 0 {
        Seq::empty()
    } else {
        let prev = outcomes_upto(city_seed, plots, cfg, k - 1);
        let p = plots[k - 1];
        if p.open {
            prev
        } else {
            let row = row_union(plots, p.block, p.front.unwrap(), plots.len() as int).unwrap();
            let w = seeded_state(spec_seed_from_ids(spec_seed_from_ids(city_seed, PASS_ID), spec_rect_seed_key(p.bounds)));
            prev.push(spec_place_one(p, (k - 1) as u32, row, w, cfg).0)
        }
    }
}

/// Every non-open plot can be placed.
pub open spec fn all_place_fit(plots: Seq<Plot>, cfg: GenerationConfig) -> bool {
    forall|j: int|
        0 <= j < plots.len() && !(#[trigger] plots[j]).open ==> plots[j].front is Some && place_fits(
            plots[j],
            row_union(plots, plots[j].block, plots[j].front.unwrap(), plots.len() as int).unwrap(),
            cfg,
        )
}

/// Pass 4's output: one outcome per non-open plot, in plot order.
#[derive(Debug, Clone)]
pub struct EnvelopeMap {
    outcomes: Vec<EnvelopeOutcome>,
}

/// The number of rejections among the first `k` outcomes.
pub open spec fn rejected_upto(o: Seq<EnvelopeOutcome>, k: int) -> int
    decreases k,
{
    if k <= 0 {
        0
    } else {
        rejected_upto(o, k - 1) + if o[k - 1] is Rejected {
            1int
        } else {
            0
        }
    }
}

/// The placed envelopes among the first `k` outcomes, in order.
pub open spec fn placed_upto(o: Seq<EnvelopeOutcome>, k: int) -> Seq<Envelope>
    decreases k,
{
    if k <= 0 {
        Seq::empty()
    } else {
        let prev = placed_upto(o, k - 1);
        match o[k - 1] {
            EnvelopeOutcome::Placed(e) => prev.push(e),
            EnvelopeOutcome::Rejected { .. } => prev,
        }
    }
}

proof fn lemma_counts(o: Seq<EnvelopeOutcome>, k: int)
    requires
        0 <= k <= o.len(),
    ensures
        0 <= rejected_upto(o, k) <= k,
        placed_upto(o, k).len() + rejected_upto(o, k) == k,
    decreases k,
{
    if k > 0 {
        lemma_counts(o, k - 1);
    }
}

impl EnvelopeMap {
    pub closed spec fn spec_outcomes(self) -> Seq<EnvelopeOutcome> {
        self.outcomes@
    }

    /// Builds a map from raw outcomes, for a checker's hand-built fixtures.
    pub fn test_fixture(outcomes: Vec<EnvelopeOutcome>) -> (m: Self)
        ensures
            m.spec_outcomes() == outcomes@,
    {
        EnvelopeMap { outcomes }
    }

    pub fn outcomes(&self) -> (r: &[EnvelopeOutcome])
        ensures
            r@ == self.spec_outcomes(),
    {
        self.outcomes.as_slice()
    }

    /// Every envelope this pass placed, in outcome order.
    pub fn envelopes(&self) -> (r: Vec<Envelope>)
        ensures
            r@ == placed_upto(self.spec_outcomes(), self.spec_outcomes().len() as int),
    {
        let mut out: Vec<Envelope> = Vec::new();
        let mut i: usize = 0;
        while i < self.outcomes.len()
            invariant
                i <= self.outcomes.len(),
                out@ == placed_upto(self.outcomes@, i as int),
            decreases self.outcomes.len() - i,
        {
            match self.outcomes[i] {
                EnvelopeOutcome::Placed(e) => out.push(e),
                EnvelopeOutcome::Rejected { .. } => {},
            }
            i += 1;
        }
        out
    }

    /// The number of envelopes placed.
    pub fn placed_count(&self) -> (r: i64)
        requires
            self.spec_outcomes().len() <= i64::MAX,
        ensures
            r == placed_upto(self.spec_outcomes(), self.spec_outcomes().len() as int).len(),
    {
        proof {
            lemma_counts(self.outcomes@, self.outcomes@.len() as int);
        }
        let n = self.outcomes.len() as i64 - self.rejected_count();
        n
    }

    /// The number of plots rejected.
    pub fn rejected_count(&self) -> (r: i64)
        requires
            self.spec_outcomes().len() <= i64::MAX,
        ensures
            r == rejected_upto(self.spec_outcomes(), self.spec_outcomes().len() as int),
    {
        let mut n: i64 = 0;
        let mut i: usize = 0;
        while i < self.outcomes.len()
            invariant
                i <= self.outcomes.len(),
                self.outcomes.len() <= i64::MAX,
                n == rejected_upto(self.outcomes@, i as int),
            decreases self.outcomes.len() - i,
        {
            proof {
                lemma_counts(self.outcomes@, i + 1);
            }
            if let EnvelopeOutcome::Rejected { .. } = self.outcomes[i] {
                n += 1;
            }
            i += 1;
        }
        n
    }

    /// The percent of attempted plots rejected, rounded toward zero; `0`
    /// when no plot attempted an envelope.
    pub fn rejected_percent(&self) -> (r: i64)
        requires
            self.spec_outcomes().len() <= 0x0100_0000_0000_0000,
        ensures
            r == (if self.spec_outcomes().len() == 0 {
                0
            } else {
                rejected_upto(self.spec_outcomes(), self.spec_outcomes().len() as int) * 100 / self.spec_outcomes().len() as int
            }),
    {
        if self.outcomes.len() == 0 {
            return 0;
        }
        proof {
            lemma_counts(self.outcomes@, self.outcomes@.len() as int);
        }
        (self.rejected_count() * 100) / self.outcomes.len() as i64
    }
}

/// Places every non-open plot's envelope ([`place_one`]), in plot order,
/// each plot seeding its own stream from its bounds (never its position),
/// with its row's span from the plots alone.
#[verifier::rlimit(40)]
pub fn place_all(city_seed: u64, plots: &PlotMap, cfg: &GenerationConfig) -> (m: EnvelopeMap)
    requires
        all_place_fit(plots.spec_plots(), *cfg),
    ensures
        m.spec_outcomes() == outcomes_upto(city_seed, plots.spec_plots(), *cfg, plots.spec_plots().len() as int),
{
    let pass_seed = seed_from_ids(city_seed, PASS_ID);
    let ps = plots.plots();
    let mut outcomes: Vec<EnvelopeOutcome> = Vec::new();
    let mut i: usize = 0;
    while i < ps.len()
        invariant
            i <= ps.len(),
            ps@ == plots.spec_plots(),
            pass_seed == spec_seed_from_ids(city_seed, PASS_ID),
            all_place_fit(ps@, *cfg),
            outcomes@ == outcomes_upto(city_seed, ps@, *cfg, i as int),
        decreases ps.len() - i,
    {
        let p = ps[i];
        if !p.open {
            assert(!ps@[i as int].open);
            let front = match p.front {
                Some(f) => f,
                None => Side::South,
            };
            proof {
                lemma_row_union_has(ps@, p.block, front, ps@.len() as int, i as int);
            }
            let row = match row_bounds_of(ps, p.block, front) {
                Some(r) => r,
                None => p.bounds,
            };
            let mut rng = Rng::new(seed_from_ids(pass_seed, rect_seed_key(p.bounds)));
            let o = place_one(&p, i as u32, row, &mut rng, cfg);
            outcomes.push(o);
        }
        i += 1;
    }
    EnvelopeMap { outcomes }
}

/// Runs pass 4: [`place_all`], then checks the placed count against the
/// config's building-count band for the plots' site -- an error outside
/// it.
pub fn run(city_seed: u64, plots: &PlotMap, cfg: &GenerationConfig) -> (r: Result<EnvelopeMap, GenerationError>)
    requires
        all_place_fit(plots.spec_plots(), *cfg),
        plots.spec_plots().len() <= i64::MAX,
        fits_i64(plots.spec_site().spec_width() * plots.spec_site().spec_height()),
        fits_i64(cfg.envelope_target_count_per_million_cells * (plots.spec_site().spec_width() * plots.spec_site().spec_height())),
        band_fits(
            trunc_div(cfg.envelope_target_count_per_million_cells * (plots.spec_site().spec_width() * plots.spec_site().spec_height()), 1_000_000),
            cfg.envelope_count_tolerance_percent as int,
        ),
    ensures
        ({
            let o = outcomes_upto(city_seed, plots.spec_plots(), *cfg, plots.spec_plots().len() as int);
            let placed = placed_upto(o, o.len() as int).len();
            let band = spec_band(
                trunc_div(cfg.envelope_target_count_per_million_cells * (plots.spec_site().spec_width() * plots.spec_site().spec_height()), 1_000_000),
                cfg.envelope_count_tolerance_percent as int,
            );
            match r {
                Ok(m) => m.spec_outcomes() == o && band.0 <= placed <= band.1,
                Err(e) => (placed < band.0 || placed > band.1) && e == GenerationError::BuildingCountOutOfTolerance {
                    got: placed as i64,
                    min: band.0,
                    max: band.1,
                },
            }
        }),
{
    let map = place_all(city_seed, plots, cfg);
    proof {
        lemma_outcomes_len(city_seed, plots.spec_plots(), *cfg, plots.spec_plots().len() as int);
    }
    let placed = map.placed_count();
    let site = plots.site();
    let w = site.width();
    let h = site.height();
    let site_cells = w * h;
    let (min, max) = cfg.building_count_band(site_cells);
    if placed < min || placed > max {
        return Err(GenerationError::BuildingCountOutOfTolerance { got: placed, min, max });
    }
    Ok(map)
}

proof fn lemma_outcomes_len(city_seed: u64, plots: Seq<Plot>, cfg: GenerationConfig, k: int)
    requires
        0 <= k <= plots.len(),
    ensures
        outcomes_upto(city_seed, plots, cfg, k).len() <= k,
    decreases k,
{
    if k > 0 {
        lemma_outcomes_len(city_seed, plots, cfg, k - 1);
    }
}


/// Law: a span shorter than `[lo, hi]` carries its slack on the corner
/// side -- flush to the edge that is not a corner when exactly one is,
/// split between both edges (to within a cell) when both or neither are;
/// a span that does not fit starts at `lo`.
pub proof fn lemma_anchored_slack_to_corner(len: int, lo: int, hi: int, corner_lo: bool, corner_hi: bool)
    ensures
        ({
            let start = spec_anchored(len, lo, hi, corner_lo, corner_hi);
            &&& len >= hi - lo ==> start == lo
            &&& len < hi - lo && corner_lo && !corner_hi ==> start + len == hi
            &&& len < hi - lo && !corner_lo && corner_hi ==> start == lo
            &&& len < hi - lo && corner_lo == corner_hi && len >= 0 && lo + hi >= 0 ==> {
                let left = start - lo;
                let right = hi - (start + len);
                -1 <= left - right <= 1
            }
        }),
{
}

} // verus!
