//! Pass 3's plot geometry: cutting a block's street-abutting faces into
//! rows of plots. Each face's row depth comes from [`axis_rows`]; a row is
//! cut off the block by [`cut_strip`] and filled with a small rhythm of
//! module widths by [`rhythm_plots`], end plots wider by the corner extra
//! and the last one absorbing the remainder, so a row is covered exactly.
//! [`PlotMap`] holds a district's plots and its frontage and area checks.

use vstd::prelude::*;
use super::streets::{Block, Side, Sides, StreetNetwork, block_sides, rect_inside, rects_apart, spec_block_sides};
use super::land_use::{LandUse, LandUseMap, land_use_index, use_index};
use super::block_use::{block_land_use, block_use_fits, spec_block_land_use};
use super::street_checks::clamp_int;
use super::{
    GenerationConfig, SiteBounds, fits_i32, max_core_depth_fits, min_footprint_d, min_footprint_w, rect_seed_key,
    spec_max_core_depth, spec_rect_seed_key, trunc_div,
};
use crate::rng::{Rng, seed_from_ids, seeded_state, spec_seed_from_ids, xoshiro_advance, xoshiro_output};
use crate::world::collision::Rect;

verus! {

/// This pass's own stream id.
pub const PASS_ID: u64 = super::PASS_PLOT_SUBDIVISION;

/// One plot: its bounds, the block it belongs to, the block side it
/// fronts (`None` for an open plot that fronts no single street), the
/// block's land use and density, and whether it is open land.
#[derive(Debug, Clone, Copy, PartialEq, Eq, PartialOrd, Ord, Structural)]
pub struct Plot {
    pub bounds: Rect,
    pub block: u32,
    pub front: Option<Side>,
    pub land_use: LandUse,
    pub density: i32,
    pub open: bool,
}

/// The fixed order a block's street-abutting faces are cut in: south
/// first, then north, east, west. The earlier face claims the full extent
/// left on its axis, corners included.
pub const FACE_PRIORITY: [Side; 4] = [Side::South, Side::North, Side::East, Side::West];

/// A row's rhythm has between these many module widths.
pub const RHYTHM_MODULE_MIN: u32 = 2;
pub const RHYTHM_MODULE_MAX: u32 = 3;

/// What [`absorb`] returns: the extra depth split at the mid-line when
/// both rows exist (the first taking the odd cell), whole to the one that
/// does, nothing when neither does.
pub open spec fn spec_absorb(a: int, b: int, extra: int) -> (int, int) {
    if a > 0 && b > 0 {
        (a + trunc_div(extra + 1, 2), b + trunc_div(extra, 2))
    } else if a > 0 {
        (a + extra, b)
    } else if b > 0 {
        (a, b + extra)
    } else {
        (a, b)
    }
}

/// Hands `extra` cells of depth back to the rows on one axis: split at
/// the mid-line when both exist (the first-priority face taking the odd
/// cell), whole to the one that does, nothing when neither does. When a
/// row exists and `extra` is not negative, none of it is lost.
pub fn absorb(a: i32, b: i32, extra: i32) -> (r: (i32, i32))
    requires
        a > 0 && b > 0 ==> fits_i32(extra + 1),
        fits_i32(spec_absorb(a as int, b as int, extra as int).0),
        fits_i32(spec_absorb(a as int, b as int, extra as int).1),
    ensures
        r.0 == spec_absorb(a as int, b as int, extra as int).0,
        r.1 == spec_absorb(a as int, b as int, extra as int).1,
        extra >= 0 && (a > 0 || b > 0) ==> r.0 + r.1 == a + b + extra,
{
    if a > 0 && b > 0 {
        (a + (extra + 1) / 2, b + extra / 2)
    } else if a > 0 {
        (a + extra, b)
    } else if b > 0 {
        (a, b + extra)
    } else {
        (a, b)
    }
}

/// The depth a single face gets: up to `target`, within `dim`, and none
/// at all when that cannot clear `min_needed`.
pub open spec fn one_sided(dim: int, target: int, min_needed: int) -> int {
    let depth = if target <= dim {
        target
    } else {
        dim
    };
    if depth >= min_needed {
        depth
    } else {
        0
    }
}

/// The two faces' depths before any core is absorbed, over a depth `d`.
pub open spec fn rows_before_absorb(d: int, has_a: bool, has_b: bool, target: int, min_needed: int) -> (int, int) {
    if has_a && has_b {
        let each = if target <= d / 2 {
            target
        } else {
            d / 2
        };
        if each >= min_needed {
            (each, each)
        } else {
            (one_sided(d, target, min_needed), 0)
        }
    } else if has_a {
        (one_sided(d, target, min_needed), 0)
    } else if has_b {
        (0, one_sided(d, target, min_needed))
    } else {
        (0, 0)
    }
}

/// What [`axis_rows`] returns: the two faces' depths over `max(dim, 0)`,
/// with a core of at most `max_core` handed back to them.
pub open spec fn spec_axis_rows(dim: int, has_a: bool, has_b: bool, target: int, min_needed: int, max_core: int) -> (int, int) {
    let d = if dim >= 0 {
        dim
    } else {
        0
    };
    let (a, b) = rows_before_absorb(d, has_a, has_b, target, min_needed);
    let core = d - a - b;
    if core > 0 && core <= max_core {
        spec_absorb(a, b, core)
    } else {
        (a, b)
    }
}

/// The core [`axis_rows`] leaves before absorbing any.
pub open spec fn axis_core(dim: int, has_a: bool, has_b: bool, target: int, min_needed: int) -> int {
    let d = if dim >= 0 {
        dim
    } else {
        0
    };
    let (a, b) = rows_before_absorb(d, has_a, has_b, target, min_needed);
    d - a - b
}

/// The arithmetic of [`axis_rows`] stays within its integer types.
pub open spec fn axis_rows_fit(dim: int, has_a: bool, has_b: bool, target: int, min_needed: int, max_core: int) -> bool {
    let r = spec_axis_rows(dim, has_a, has_b, target, min_needed, max_core);
    &&& i64::MIN <= axis_core(dim, has_a, has_b, target, min_needed) <= i64::MAX
    &&& fits_i32(axis_core(dim, has_a, has_b, target, min_needed) + 1)
        || axis_core(dim, has_a, has_b, target, min_needed) > max_core
    &&& fits_i32(r.0)
    &&& fits_i32(r.1)
}

/// The depth each of two opposing faces gets on one axis `dim` cells
/// deep, `a` the first in [`FACE_PRIORITY`] of the pair. Two abutting faces
/// meet at the mid-line as long as `target` reaches it, each otherwise
/// getting `target`; a single abutting face gets up to `target`. A face
/// whose depth cannot clear `min_needed` gets no row (`0`) -- of two, the
/// first then takes what one face alone would. A core left between (or
/// behind) the rows of at most `max_core` is absorbed back into them
/// ([`absorb`]). The rows never claim more than the axis holds.
pub fn axis_rows(dim: i64, has_a: bool, has_b: bool, target: i32, min_needed: i32, max_core: i32) -> (r: (i32, i32))
    requires
        axis_rows_fit(dim as int, has_a, has_b, target as int, min_needed as int, max_core as int),
    ensures
        r.0 == spec_axis_rows(dim as int, has_a, has_b, target as int, min_needed as int, max_core as int).0,
        r.1 == spec_axis_rows(dim as int, has_a, has_b, target as int, min_needed as int, max_core as int).1,
        r.0 + r.1 <= (if dim >= 0 { dim as int } else { 0 }),
{
    let d: i64 = if dim >= 0 {
        dim
    } else {
        0
    };
    let one: i64 = {
        let depth: i64 = if (target as i64) <= d {
            target as i64
        } else {
            d
        };
        if depth >= min_needed as i64 {
            depth
        } else {
            0
        }
    };
    let (a, b): (i64, i64) = if has_a && has_b {
        let each: i64 = if (target as i64) <= d / 2 {
            target as i64
        } else {
            d / 2
        };
        if each >= min_needed as i64 {
            (each, each)
        } else {
            (one, 0)
        }
    } else if has_a {
        (one, 0)
    } else if has_b {
        (0, one)
    } else {
        (0, 0)
    };
    assert((a as int, b as int) == rows_before_absorb(d as int, has_a, has_b, target as int, min_needed as int));
    let core = d - a - b;
    if core > 0 && core <= max_core as i64 {
        assert(a <= i32::MAX && b <= i32::MAX);
        absorb(a as i32, b as i32, core as i32)
    } else {
        assert(fits_i32(a as int) && fits_i32(b as int));
        (a as i32, b as i32)
    }
}

/// What [`cut_strip`] returns.
pub open spec fn spec_cut_strip(remaining: Rect, side: Side, depth: int) -> Option<(Rect, Rect)> {
    if depth <= 0 || !remaining.spec_is_valid() {
        None
    } else {
        match side {
            Side::North => {
                let cut = if remaining.y0 + depth <= remaining.y1 { remaining.y0 + depth } else { remaining.y1 as int };
                if cut > remaining.y0 {
                    Some((Rect { y1: cut as i32, ..remaining }, Rect { y0: cut as i32, ..remaining }))
                } else {
                    None
                }
            },
            Side::South => {
                let cut = if remaining.y1 - depth >= remaining.y0 { remaining.y1 - depth } else { remaining.y0 as int };
                if cut < remaining.y1 {
                    Some((Rect { y0: cut as i32, ..remaining }, Rect { y1: cut as i32, ..remaining }))
                } else {
                    None
                }
            },
            Side::West => {
                let cut = if remaining.x0 + depth <= remaining.x1 { remaining.x0 + depth } else { remaining.x1 as int };
                if cut > remaining.x0 {
                    Some((Rect { x1: cut as i32, ..remaining }, Rect { x0: cut as i32, ..remaining }))
                } else {
                    None
                }
            },
            Side::East => {
                let cut = if remaining.x1 - depth >= remaining.x0 { remaining.x1 - depth } else { remaining.x0 as int };
                if cut < remaining.x1 {
                    Some((Rect { x0: cut as i32, ..remaining }, Rect { x1: cut as i32, ..remaining }))
                } else {
                    None
                }
            },
        }
    }
}

/// Cuts the depth-`depth` strip of `remaining` along `side` (clamped to
/// what `remaining` has left on that axis), returning the strip and the
/// rest of `remaining` -- `None` if `remaining` is empty or `depth` is not
/// positive.
pub fn cut_strip(remaining: Rect, side: Side, depth: i32) -> (r: Option<(Rect, Rect)>)
    ensures
        r == spec_cut_strip(remaining, side, depth as int),
{
    if depth <= 0 || !remaining.is_valid() {
        return None;
    }
    match side {
        Side::North => {
            let cut = if remaining.y0 as i64 + depth as i64 <= remaining.y1 as i64 { remaining.y0 + depth } else { remaining.y1 };
            if cut > remaining.y0 {
                Some((Rect { y1: cut, ..remaining }, Rect { y0: cut, ..remaining }))
            } else {
                None
            }
        },
        Side::South => {
            let cut = if remaining.y1 as i64 - depth as i64 >= remaining.y0 as i64 { remaining.y1 - depth } else { remaining.y0 };
            if cut < remaining.y1 {
                Some((Rect { y0: cut, ..remaining }, Rect { y1: cut, ..remaining }))
            } else {
                None
            }
        },
        Side::West => {
            let cut = if remaining.x0 as i64 + depth as i64 <= remaining.x1 as i64 { remaining.x0 + depth } else { remaining.x1 };
            if cut > remaining.x0 {
                Some((Rect { x1: cut, ..remaining }, Rect { x0: cut, ..remaining }))
            } else {
                None
            }
        },
        Side::East => {
            let cut = if remaining.x1 as i64 - depth as i64 >= remaining.x0 as i64 { remaining.x1 - depth } else { remaining.x0 };
            if cut < remaining.x1 {
                Some((Rect { x0: cut, ..remaining }, Rect { x1: cut, ..remaining }))
            } else {
                None
            }
        },
    }
}

/// The length two ranges share, at least 0.
pub open spec fn overlap_len(a0: int, a1: int, b0: int, b1: int) -> int {
    let hi = if a1 <= b1 {
        a1
    } else {
        b1
    };
    let lo = if a0 >= b0 {
        a0
    } else {
        b0
    };
    if hi - lo >= 0 {
        hi - lo
    } else {
        0
    }
}

/// What [`shared_edge_length`] returns.
pub open spec fn spec_shared_edge(plot: Rect, block: Rect, side: Side) -> int {
    match side {
        Side::North => if plot.y0 == block.y0 { overlap_len(plot.x0 as int, plot.x1 as int, block.x0 as int, block.x1 as int) } else { 0 },
        Side::South => if plot.y1 == block.y1 { overlap_len(plot.x0 as int, plot.x1 as int, block.x0 as int, block.x1 as int) } else { 0 },
        Side::West => if plot.x0 == block.x0 { overlap_len(plot.y0 as int, plot.y1 as int, block.y0 as int, block.y1 as int) } else { 0 },
        Side::East => if plot.x1 == block.x1 { overlap_len(plot.y0 as int, plot.y1 as int, block.y0 as int, block.y1 as int) } else { 0 },
    }
}

fn overlap_len_exec(a0: i32, a1: i32, b0: i32, b1: i32) -> (r: i64)
    ensures
        r == overlap_len(a0 as int, a1 as int, b0 as int, b1 as int),
{
    let hi: i64 = if a1 <= b1 {
        a1 as i64
    } else {
        b1 as i64
    };
    let lo: i64 = if a0 >= b0 {
        a0 as i64
    } else {
        b0 as i64
    };
    if hi - lo >= 0 {
        hi - lo
    } else {
        0
    }
}

/// The length of edge `plot`'s `side` shares with `block`'s same side --
/// `0` unless the two lie on exactly the same line.
pub fn shared_edge_length(plot: Rect, block: Rect, side: Side) -> (r: i64)
    ensures
        r == spec_shared_edge(plot, block, side),
{
    match side {
        Side::North => if plot.y0 == block.y0 { overlap_len_exec(plot.x0, plot.x1, block.x0, block.x1) } else { 0 },
        Side::South => if plot.y1 == block.y1 { overlap_len_exec(plot.x0, plot.x1, block.x0, block.x1) } else { 0 },
        Side::West => if plot.x0 == block.x0 { overlap_len_exec(plot.y0, plot.y1, block.y0, block.y1) } else { 0 },
        Side::East => if plot.x1 == block.x1 { overlap_len_exec(plot.y0, plot.y1, block.y0, block.y1) } else { 0 },
    }
}

/// The sub-rect of `strip` spanning `[from, to)` along its row axis
/// (across `side`'s depth direction), keeping its depth extent.
pub open spec fn spec_row_span(strip: Rect, side: Side, from: int, to: int) -> Rect {
    match side {
        Side::North | Side::South => Rect { x0: (strip.x0 + from) as i32, x1: (strip.x0 + to) as i32, y0: strip.y0, y1: strip.y1 },
        Side::East | Side::West => Rect { y0: (strip.y0 + from) as i32, y1: (strip.y0 + to) as i32, x0: strip.x0, x1: strip.x1 },
    }
}

/// The coordinate a row runs along from.
pub open spec fn row_base(strip: Rect, side: Side) -> int {
    match side {
        Side::North | Side::South => strip.x0 as int,
        Side::East | Side::West => strip.y0 as int,
    }
}

/// The sub-rect of `strip` spanning `[from, to)` along its row axis.
pub fn row_span_rect(strip: Rect, side: Side, from: i64, to: i64) -> (r: Rect)
    requires
        0 <= from <= to <= i32::MAX,
        fits_i32(row_base(strip, side) + to),
    ensures
        r == spec_row_span(strip, side, from as int, to as int),
{
    match side {
        Side::North | Side::South => Rect { x0: strip.x0 + from as i32, x1: strip.x0 + to as i32, y0: strip.y0, y1: strip.y1 },
        Side::East | Side::West => Rect { y0: strip.y0 + from as i32, y1: strip.y0 + to as i32, x0: strip.x0, x1: strip.x1 },
    }
}

/// The least row length a face needs to hold one module once both end
/// plots carry their corner extra.
pub fn row_min_len(width_min: i32, corner_extra: i32) -> (r: i64)
    ensures
        r == width_min + 2 * (if corner_extra >= 0 { corner_extra as int } else { 0 }),
{
    width_min as i64 + 2 * (if corner_extra >= 0 { corner_extra as i64 } else { 0 })
}

/// How many module widths a row's rhythm has, drawn with state `w`.
pub open spec fn rhythm_count(w: Seq<u64>) -> int {
    RHYTHM_MODULE_MIN + (xoshiro_output(w) % ((RHYTHM_MODULE_MAX - RHYTHM_MODULE_MIN + 1) as u64)) as int
}

/// The first `n` module widths, drawn from state `w`: `width_min` plus a
/// jitter in `[0, span]` (no draw when `span` is 0), at least 1; and the
/// state after.
pub open spec fn rhythm_widths(w: Seq<u64>, n: int, width_min: int, span: int) -> (Seq<int>, Seq<u64>)
    decreases n,
{
    if n <= 0 {
        (Seq::empty(), w)
    } else {
        let (prev, w1) = rhythm_widths(w, n - 1, width_min, span);
        let (jit, w2) = if span > 0 {
            ((xoshiro_output(w1) % ((span + 1) as u64)) as int, xoshiro_advance(w1))
        } else {
            (0int, w1)
        };
        let v = width_min + jit;
        (prev.push(if v >= 1 { v } else { 1 }), w2)
    }
}

/// The width of the module at position `wi` of the row: the rhythm cycled
/// end to end, the first one wider by `extra`.
pub open spec fn module_width(widths: Seq<int>, extra: int, wi: int) -> int {
    widths[wi % widths.len() as int] + if wi == 0 {
        extra
    } else {
        0
    }
}

/// The width the plot at `cursor` takes: its module's, or everything left
/// when the module would reach the end or leave less than `last_min`.
pub open spec fn plot_width(widths: Seq<int>, extra: int, last_min: int, row_len: int, cursor: int, wi: int) -> int {
    let w = module_width(widths, extra, wi);
    let rem = row_len - cursor;
    if w >= rem || rem - w < last_min {
        rem
    } else {
        w
    }
}

/// The rhythm is usable: at least one width, every width positive, and
/// a non-negative extra.
pub open spec fn rhythm_ok(widths: Seq<int>, extra: int) -> bool {
    &&& widths.len() >= 1
    &&& forall|j: int| 0 <= j < widths.len() ==> #[trigger] widths[j] >= 1
    &&& extra >= 0
}

/// The plots of the row from `cursor` on, the next one being module `wi`.
pub open spec fn rhythm_rects(
    strip: Rect,
    side: Side,
    widths: Seq<int>,
    extra: int,
    last_min: int,
    row_len: int,
    cursor: int,
    wi: int,
) -> Seq<Rect>
    decreases row_len - cursor,
    when rhythm_ok(widths, extra) && wi >= 0
{
    if cursor >= row_len {
        Seq::empty()
    } else {
        let w = plot_width(widths, extra, last_min, row_len, cursor, wi);
        proof {
            assert(widths[wi % widths.len() as int] >= 1);
        }
        seq![spec_row_span(strip, side, cursor, cursor + w)] + rhythm_rects(strip, side, widths, extra, last_min, row_len, cursor + w, wi + 1)
    }
}

/// What [`rhythm_plots`] returns, and the state after: nothing (and no
/// draw) for a non-positive row or module; else the rhythm's size and
/// widths are drawn and the row is filled from its start.
pub open spec fn spec_rhythm_plots(
    strip: Rect,
    side: Side,
    row_len: int,
    width_min: int,
    width_max: int,
    corner_extra: int,
    w: Seq<u64>,
) -> (Seq<Rect>, Seq<u64>) {
    if row_len <= 0 || width_min <= 0 {
        (Seq::empty(), w)
    } else {
        let k = rhythm_count(w);
        let span = if width_max - width_min >= 0 {
            width_max - width_min
        } else {
            0
        };
        let (widths, w2) = rhythm_widths(xoshiro_advance(w), k, width_min, span);
        let extra = if corner_extra >= 0 {
            corner_extra
        } else {
            0
        };
        (rhythm_rects(strip, side, widths, extra, width_min + extra, row_len, 0, 0), w2)
    }
}

/// The module widths a row's rhythm draws from state `w`.
pub open spec fn rhythm_of(w: Seq<u64>, width_min: int, width_max: int) -> Seq<int> {
    let span = if width_max - width_min >= 0 {
        width_max - width_min
    } else {
        0
    };
    rhythm_widths(xoshiro_advance(w), rhythm_count(w), width_min, span).0
}

/// Where a plot starts and ends along its row.
pub open spec fn row_lo(r: Rect, side: Side) -> int {
    match side {
        Side::North | Side::South => r.x0 as int,
        Side::East | Side::West => r.y0 as int,
    }
}

pub open spec fn row_hi(r: Rect, side: Side) -> int {
    match side {
        Side::North | Side::South => r.x1 as int,
        Side::East | Side::West => r.y1 as int,
    }
}

/// `r` keeps the strip's own depth extent.
pub open spec fn same_depth(r: Rect, strip: Rect, side: Side) -> bool {
    match side {
        Side::North | Side::South => r.y0 == strip.y0 && r.y1 == strip.y1,
        Side::East | Side::West => r.x0 == strip.x0 && r.x1 == strip.x1,
    }
}

/// The plots of a row from `cursor` on tile it exactly: the first starts at
/// the cursor, each ends where the next starts, the last ends at the
/// row's end, none is empty and each keeps the strip's depth; every plot
/// but the last is its module's width; and the last is at least
/// `last_min` wide when that much was left.
proof fn lemma_rhythm_tiles(
    strip: Rect,
    side: Side,
    widths: Seq<int>,
    extra: int,
    last_min: int,
    row_len: int,
    cursor: int,
    wi: int,
)
    requires
        rhythm_ok(widths, extra),
        wi >= 0,
        0 <= cursor < row_len <= i32::MAX,
        fits_i32(row_base(strip, side) + row_len),
    ensures
        ({
            let r = rhythm_rects(strip, side, widths, extra, last_min, row_len, cursor, wi);
            &&& r.len() >= 1
            &&& row_lo(r[0], side) == row_base(strip, side) + cursor
            &&& row_hi(r.last(), side) == row_base(strip, side) + row_len
            &&& forall|j: int| 0 <= j < r.len() - 1 ==> row_hi(#[trigger] r[j], side) == row_lo(r[j + 1], side)
            &&& forall|j: int| 0 <= j < r.len() ==> row_lo(#[trigger] r[j], side) < row_hi(r[j], side) && same_depth(r[j], strip, side)
            &&& forall|j: int| 0 <= j < r.len() - 1 ==> row_hi(#[trigger] r[j], side) - row_lo(r[j], side) == module_width(widths, extra, wi + j)
            &&& (row_len - cursor >= last_min ==> row_hi(r.last(), side) - row_lo(r.last(), side) >= last_min)
        }),
    decreases row_len - cursor,
{
    let w = plot_width(widths, extra, last_min, row_len, cursor, wi);
    assert(widths[wi % widths.len() as int] >= 1);
    let head = spec_row_span(strip, side, cursor, cursor + w);
    let r = rhythm_rects(strip, side, widths, extra, last_min, row_len, cursor, wi);
    let rest = rhythm_rects(strip, side, widths, extra, last_min, row_len, cursor + w, wi + 1);
    assert(r == seq![head] + rest);
    if cursor + w < row_len {
        lemma_rhythm_tiles(strip, side, widths, extra, last_min, row_len, cursor + w, wi + 1);
        assert(w == module_width(widths, extra, wi));
        assert forall|j: int| 0 <= j < r.len() - 1 implies row_hi(#[trigger] r[j], side) == row_lo(r[j + 1], side) by {
            if j > 0 {
                assert(r[j] == rest[j - 1] && r[j + 1] == rest[j]);
            }
        }
        assert forall|j: int| 0 <= j < r.len() implies row_lo(#[trigger] r[j], side) < row_hi(r[j], side) && same_depth(r[j], strip, side) by {
            if j > 0 {
                assert(r[j] == rest[j - 1]);
            }
        }
        assert forall|j: int| 0 <= j < r.len() - 1 implies row_hi(#[trigger] r[j], side) - row_lo(r[j], side) == module_width(widths, extra, wi + j) by {
            if j > 0 {
                assert(r[j] == rest[j - 1]);
                assert(wi + 1 + (j - 1) == wi + j);
            }
        }
        assert(r.last() == rest.last());
    } else {
        assert(rest == Seq::<Rect>::empty());
        assert(r.len() == 1);
    }
}

/// Draws the widths of a rhythm of `k` modules.
fn draw_widths(rng: &mut Rng, k: u32, width_min: i32, span: u64) -> (widths: Vec<i64>)
    requires
        span <= 0xFFFF_FFFF,
    ensures
        widths@.len() == k,
        forall|j: int| 0 <= j < k ==> widths@[j] as int == rhythm_widths(old(rng).words(), k as int, width_min as int, span as int).0[j],
        final(rng).words() == rhythm_widths(old(rng).words(), k as int, width_min as int, span as int).1,
{
    let ghost w0 = rng.words();
    let mut widths: Vec<i64> = Vec::new();
    let mut j: u32 = 0;
    while j < k
        invariant
            span <= 0xFFFF_FFFF,
            j <= k,
            widths@.len() == j,
            forall|a: int| 0 <= a < j ==> widths@[a] as int == rhythm_widths(w0, j as int, width_min as int, span as int).0[a],
            rng.words() == rhythm_widths(w0, j as int, width_min as int, span as int).1,
            rhythm_widths(w0, j as int, width_min as int, span as int).0.len() == j,
        decreases k - j,
    {
        let jitter: i64 = if span > 0 {
            (rng.next_u64() % (span + 1)) as i64
        } else {
            0
        };
        let v = width_min as i64 + jitter;
        widths.push(if v >= 1 { v } else { 1 });
        proof {
            let prev = rhythm_widths(w0, j as int, width_min as int, span as int).0;
            assert(rhythm_widths(w0, j + 1, width_min as int, span as int).0 == prev.push(widths@[j as int] as int));
        }
        j += 1;
    }
    widths
}

/// Fills `strip`'s row of `row_len` cells with a rhythm of 2-3 module
/// widths in `[width_min, width_max]` (drawn once, cycled end to end --
/// a terrace, never a fresh width per plot). Both end plots are wider by
/// `corner_extra` (at least 0): the first by carrying it, the last by
/// absorbing the remainder whenever a module would leave less than
/// `width_min + corner_extra`. Empty if `row_len` or `width_min` is not
/// positive. The plots tile the row exactly, and every plot but the last
/// is its module's width.
pub fn rhythm_plots(
    strip: Rect,
    side: Side,
    row_len: i64,
    width_min: i32,
    width_max: i32,
    corner_extra: i32,
    rng: &mut Rng,
) -> (r: Vec<Rect>)
    requires
        fits_i32(width_max - width_min),
        row_len <= i32::MAX,
        fits_i32(row_base(strip, side) + row_len),
    ensures
        (r@, final(rng).words()) == spec_rhythm_plots(
            strip,
            side,
            row_len as int,
            width_min as int,
            width_max as int,
            corner_extra as int,
            old(rng).words(),
        ),
        row_len > 0 && width_min > 0 ==> {
            &&& r.len() >= 1
            &&& row_lo(r@[0], side) == row_base(strip, side)
            &&& row_hi(r@.last(), side) == row_base(strip, side) + row_len
            &&& forall|j: int| 0 <= j < r.len() - 1 ==> row_hi(#[trigger] r@[j], side) == row_lo(r@[j + 1], side)
            &&& forall|j: int| 0 <= j < r.len() ==> row_lo(#[trigger] r@[j], side) < row_hi(r@[j], side) && same_depth(r@[j], strip, side)
            &&& forall|j: int|
                0 <= j < r.len() - 1 ==> row_hi(#[trigger] r@[j], side) - row_lo(r@[j], side) == module_width(
                    rhythm_of(old(rng).words(), width_min as int, width_max as int),
                    if corner_extra >= 0 { corner_extra as int } else { 0 },
                    j,
                )
            &&& (row_len >= width_min + (if corner_extra >= 0 { corner_extra as int } else { 0 }) ==> row_hi(r@.last(), side) - row_lo(
                r@.last(),
                side,
            ) >= width_min + (if corner_extra >= 0 { corner_extra as int } else { 0 }))
        },
{
    if row_len <= 0 || width_min <= 0 {
        return Vec::new();
    }
    let ghost w0 = rng.words();
    let k: u32 = RHYTHM_MODULE_MIN + (rng.next_u64() % (RHYTHM_MODULE_MAX - RHYTHM_MODULE_MIN + 1) as u64) as u32;
    assert(k == rhythm_count(w0));
    let span: u64 = if width_max - width_min >= 0 {
        (width_max - width_min) as u64
    } else {
        0
    };
    let widths = draw_widths(rng, k, width_min, span);
    let ghost ws = rhythm_widths(xoshiro_advance(w0), k as int, width_min as int, span as int).0;
    assert(widths@.len() == ws.len()) by {
        lemma_widths_len(xoshiro_advance(w0), k as int, width_min as int, span as int);
    }
    proof {
        lemma_widths_positive(xoshiro_advance(w0), k as int, width_min as int, span as int);
    }
    let extra: i64 = if corner_extra >= 0 {
        corner_extra as i64
    } else {
        0
    };
    let last_min = width_min as i64 + extra;
    let mut out: Vec<Rect> = Vec::new();
    let mut cursor: i64 = 0;
    let mut wi: usize = 0;
    assert(rhythm_ok(ws, extra as int));
    while cursor < row_len
        invariant
            0 <= cursor <= row_len,
            row_len <= i32::MAX,
            fits_i32(row_base(strip, side) + row_len),
            widths@.len() == k,
            k >= 2,
            ws.len() == k,
            forall|j: int| 0 <= j < k ==> widths@[j] as int == ws[j],
            rhythm_ok(ws, extra as int),
            0 <= extra <= i32::MAX,
            last_min == width_min + extra,
            0 <= wi as int <= cursor,
            out@ + rhythm_rects(strip, side, ws, extra as int, last_min as int, row_len as int, cursor as int, wi as int)
                == rhythm_rects(strip, side, ws, extra as int, last_min as int, row_len as int, 0, 0),
            forall|j: int| 0 <= j < k ==> 1 <= #[trigger] ws[j] <= 0x2_0000_0000,
        decreases row_len - cursor,
    {
        let m = widths[wi % widths.len()];
        let mut w: i64 = if wi == 0 {
            m + extra
        } else {
            m
        };
        assert(w == module_width(ws, extra as int, wi as int));
        wi = wi + 1;
        let remaining_len = row_len - cursor;
        if w >= remaining_len || remaining_len - w < last_min {
            w = remaining_len;
        }
        let ghost c0 = cursor as int;
        let ghost wi0 = (wi - 1) as int;
        assert(w == plot_width(ws, extra as int, last_min as int, row_len as int, c0, wi0));
        let rect = row_span_rect(strip, side, cursor, cursor + w);
        proof {
            assert(ws[wi0 % ws.len() as int] >= 1);
            let rest = rhythm_rects(strip, side, ws, extra as int, last_min as int, row_len as int, c0 + w, wi0 + 1);
            assert(rhythm_rects(strip, side, ws, extra as int, last_min as int, row_len as int, c0, wi0) == seq![rect] + rest);
            assert(out@.push(rect) + rest == out@ + (seq![rect] + rest));
        }
        out.push(rect);
        cursor += w;
    }
    proof {
        assert(rhythm_rects(strip, side, ws, extra as int, last_min as int, row_len as int, cursor as int, wi as int) == Seq::<Rect>::empty());
        assert(out@ == rhythm_rects(strip, side, ws, extra as int, last_min as int, row_len as int, 0, 0));
        lemma_rhythm_tiles(strip, side, ws, extra as int, last_min as int, row_len as int, 0, 0);
    }
    out
}

proof fn lemma_widths_len(w: Seq<u64>, n: int, width_min: int, span: int)
    requires
        n >= 0,
    ensures
        rhythm_widths(w, n, width_min, span).0.len() == n,
    decreases n,
{
    if n > 0 {
        lemma_widths_len(w, n - 1, width_min, span);
    }
}

proof fn lemma_widths_positive(w: Seq<u64>, n: int, width_min: int, span: int)
    requires
        n >= 0,
        0 <= span <= 0xFFFF_FFFF,
        width_min <= i32::MAX,
    ensures
        forall|j: int| 0 <= j < n ==> 1 <= #[trigger] rhythm_widths(w, n, width_min, span).0[j] <= 0x2_0000_0000,
    decreases n,
{
    if n > 0 {
        lemma_widths_positive(w, n - 1, width_min, span);
        lemma_widths_len(w, n - 1, width_min, span);
        let (prev, w1) = rhythm_widths(w, n - 1, width_min, span);
        assert forall|j: int| 0 <= j < n implies 1 <= #[trigger] rhythm_widths(w, n, width_min, span).0[j] <= 0x2_0000_0000 by {
            if j < n - 1 {
                assert(rhythm_widths(w, n, width_min, span).0[j] == prev[j]);
            }
        }
    }
}

/// Plots are ordered by block, then north-west corner.
pub open spec fn plot_before(a: Plot, b: Plot) -> bool {
    a.block < b.block || (a.block == b.block && (a.bounds.y0 < b.bounds.y0 || (a.bounds.y0 == b.bounds.y0
        && a.bounds.x0 < b.bounds.x0)))
}

/// `t` is `s` stably sorted by [`plot_before`], entry `k` of `t` being
/// entry `p[k]` of `s`.
pub open spec fn stable_plot_sort(s: Seq<Plot>, t: Seq<Plot>, p: Seq<int>) -> bool {
    &&& t.len() == s.len()
    &&& p.len() == s.len()
    &&& p.no_duplicates()
    &&& forall|k: int| 0 <= k < t.len() ==> 0 <= #[trigger] p[k] < s.len() && t[k] == s[p[k]]
    &&& forall|i: int| 0 <= i < s.len() ==> #[trigger] p.contains(i)
    &&& forall|i: int, j: int| 0 <= i < j < t.len() ==> !plot_before(#[trigger] t[j], #[trigger] t[i])
    &&& forall|i: int, j: int| 0 <= i < j < t.len() && !plot_before(#[trigger] t[i], #[trigger] t[j]) ==> p[i] < p[j]
}

fn plot_before_exec(a: &Plot, b: &Plot) -> (r: bool)
    ensures
        r == plot_before(*a, *b),
{
    a.block < b.block || (a.block == b.block && (a.bounds.y0 < b.bounds.y0 || (a.bounds.y0 == b.bounds.y0
        && a.bounds.x0 < b.bounds.x0)))
}

/// Sorts `s` by [`plot_before`], stably (an insertion sort).
fn sort_plots(s: Vec<Plot>) -> (r: (Vec<Plot>, Ghost<Seq<int>>))
    ensures
        stable_plot_sort(s@, r.0@, r.1@),
{
    let mut t: Vec<Plot> = Vec::new();
    let ghost mut p: Seq<int> = Seq::empty();
    let n = s.len();
    let mut k: usize = 0;
    while k < n
        invariant
            n == s.len(),
            k <= n,
            t.len() == k,
            p.len() == k,
            p.no_duplicates(),
            forall|q: int| 0 <= q < k ==> 0 <= #[trigger] p[q] < k && t@[q] == s@[p[q]],
            forall|i: int| 0 <= i < k ==> #[trigger] p.contains(i),
            forall|i: int, j: int| 0 <= i < j < k ==> !plot_before(#[trigger] t@[j], #[trigger] t@[i]),
            forall|i: int, j: int| 0 <= i < j < k && !plot_before(#[trigger] t@[i], #[trigger] t@[j]) ==> p[i] < p[j],
        decreases n - k,
    {
        let e = s[k];
        let mut pos: usize = k;
        while pos > 0 && plot_before_exec(&e, &t[pos - 1])
            invariant
                t.len() == k,
                pos <= k,
                forall|q: int| pos <= q < k ==> plot_before(e, #[trigger] t@[q]),
            decreases pos,
        {
            pos -= 1;
        }
        proof {
            assert forall|q: int| 0 <= q < pos implies !plot_before(e, #[trigger] t@[q]) by {
                assert(!plot_before(e, t@[pos - 1]));
                if q < pos - 1 {
                    assert(!plot_before(t@[pos - 1], t@[q]));
                }
            }
        }
        let ghost old_t = t@;
        let ghost old_p = p;
        t.insert(pos, e);
        proof {
            p = old_p.insert(pos as int, k as int);
            assert forall|q: int| 0 <= q < k + 1 implies 0 <= #[trigger] p[q] < k + 1 && t@[q] == s@[p[q]] by {
                if q < pos {
                    assert(p[q] == old_p[q]);
                } else if q > pos {
                    assert(p[q] == old_p[q - 1]);
                }
            }
            assert forall|i: int| 0 <= i < k + 1 implies #[trigger] p.contains(i) by {
                if i == k {
                    assert(p[pos as int] == k);
                } else {
                    assert(old_p.contains(i));
                    let q = choose|q: int| 0 <= q < old_p.len() && old_p[q] == i;
                    if q < pos {
                        assert(p[q] == i);
                    } else {
                        assert(p[q + 1] == i);
                    }
                }
            }
            assert(p.no_duplicates()) by {
                assert forall|a: int, b: int| 0 <= a < p.len() && 0 <= b < p.len() && a != b implies p[a] != p[b] by {
                    if a != pos && b != pos {
                        let oa = if a < pos { a } else { a - 1 };
                        let ob = if b < pos { b } else { b - 1 };
                        assert(p[a] == old_p[oa] && p[b] == old_p[ob]);
                    } else if a == pos {
                        let ob = if b < pos { b } else { b - 1 };
                        assert(p[b] == old_p[ob]);
                    } else {
                        let oa = if a < pos { a } else { a - 1 };
                        assert(p[a] == old_p[oa]);
                    }
                }
            }
            assert forall|i: int, j: int| 0 <= i < j < k + 1 implies !plot_before(#[trigger] t@[j], #[trigger] t@[i]) by {
                let oi = if i < pos { i } else { i - 1 };
                let oj = if j < pos { j } else { j - 1 };
                if i != pos && j != pos {
                    assert(t@[i] == old_t[oi] && t@[j] == old_t[oj]);
                } else if i == pos {
                    assert(t@[j] == old_t[oj]);
                } else {
                    assert(t@[i] == old_t[oi]);
                }
            }
            assert forall|i: int, j: int| 0 <= i < j < k + 1 && !plot_before(#[trigger] t@[i], #[trigger] t@[j]) implies p[i] < p[j] by {
                let oi = if i < pos { i } else { i - 1 };
                let oj = if j < pos { j } else { j - 1 };
                if i != pos && j != pos {
                    assert(t@[i] == old_t[oi] && t@[j] == old_t[oj]);
                    assert(p[i] == old_p[oi] && p[j] == old_p[oj]);
                } else if i == pos {
                    assert(t@[j] == old_t[oj]);
                } else {
                    assert(p[i] == old_p[oi]);
                }
            }
        }
        k += 1;
    }
    (t, Ghost(p))
}

/// Whether a block's `side` abuts a street: it does not lie on the
/// site's own boundary (see [`block_sides`]).
pub open spec fn side_abuts(block: Rect, site: SiteBounds, side: Side) -> bool {
    match side {
        Side::North => block.y0 != site.y0,
        Side::South => block.y1 != site.y1,
        Side::West => block.x0 != site.x0,
        Side::East => block.x1 != site.x1,
    }
}

/// A non-open plot with no front, naming no real block, fronting a side
/// of its block that abuts no street, or sharing less than `frontage_min`
/// of that side's edge.
pub open spec fn landlocked(site: SiteBounds, blocks: Seq<Block>, p: Plot, frontage_min: int) -> bool {
    !p.open && match p.front {
        None => true,
        Some(f) => p.block >= blocks.len() || !side_abuts(blocks[p.block as int].bounds, site, f) || spec_shared_edge(
            p.bounds,
            blocks[p.block as int].bounds,
            f,
        ) < frontage_min,
    }
}

/// The indices, in order, of the landlocked plots among the first `k`.
pub open spec fn landlocked_upto(site: SiteBounds, blocks: Seq<Block>, plots: Seq<Plot>, frontage_min: int, k: int) -> Seq<usize>
    decreases k,
{
    if k <= 0 {
        Seq::empty()
    } else {
        let prev = landlocked_upto(site, blocks, plots, frontage_min, k - 1);
        if landlocked(site, blocks, plots[k - 1], frontage_min) {
            prev.push((k - 1) as usize)
        } else {
            prev
        }
    }
}

pub open spec fn rect_area(r: Rect) -> int {
    r.spec_width() * r.spec_height()
}

pub open spec fn abs_int(v: int) -> int {
    if v < 0 {
        -v
    } else {
        v
    }
}

/// Over the first `k` plots: the sum of the areas of those belonging to
/// block `b` (every block's when `b` is `None`), of those that are open
/// when `open_only`, and the sum of all their absolute areas.
pub open spec fn plot_area_sum(plots: Seq<Plot>, b: Option<u32>, open_only: bool, k: int) -> int
    decreases k,
{
    if k <= 0 {
        0
    } else {
        let p = plots[k - 1];
        plot_area_sum(plots, b, open_only, k - 1) + if (b matches Some(x) ==> p.block == x) && (open_only ==> p.open) {
            rect_area(p.bounds)
        } else {
            0
        }
    }
}

pub open spec fn plot_magnitude(plots: Seq<Plot>, k: int) -> int
    decreases k,
{
    if k <= 0 {
        0
    } else {
        plot_magnitude(plots, k - 1) + abs_int(rect_area(plots[k - 1].bounds))
    }
}

pub open spec fn block_area_sum(blocks: Seq<Block>, k: int) -> int
    decreases k,
{
    if k <= 0 {
        0
    } else {
        block_area_sum(blocks, k - 1) + rect_area(blocks[k - 1].bounds)
    }
}

pub open spec fn block_magnitude(blocks: Seq<Block>, k: int) -> int
    decreases k,
{
    if k <= 0 {
        0
    } else {
        block_magnitude(blocks, k - 1) + abs_int(rect_area(blocks[k - 1].bounds))
    }
}

proof fn lemma_plot_sums_bounded(plots: Seq<Plot>, b: Option<u32>, open_only: bool, k: int)
    requires
        0 <= k <= plots.len(),
    ensures
        abs_int(plot_area_sum(plots, b, open_only, k)) <= plot_magnitude(plots, k),
        0 <= plot_magnitude(plots, k),
    decreases k,
{
    if k > 0 {
        lemma_plot_sums_bounded(plots, b, open_only, k - 1);
    }
}

proof fn lemma_plot_magnitude_monotone(plots: Seq<Plot>, k: int, m: int)
    requires
        0 <= k <= m <= plots.len(),
    ensures
        plot_magnitude(plots, k) <= plot_magnitude(plots, m),
    decreases m - k,
{
    if k < m {
        lemma_plot_magnitude_monotone(plots, k, m - 1);
    }
}

proof fn lemma_block_sums_bounded(blocks: Seq<Block>, k: int)
    requires
        0 <= k <= blocks.len(),
    ensures
        abs_int(block_area_sum(blocks, k)) <= block_magnitude(blocks, k),
        0 <= block_magnitude(blocks, k),
    decreases k,
{
    if k > 0 {
        lemma_block_sums_bounded(blocks, k - 1);
    }
}

proof fn lemma_block_magnitude_monotone(blocks: Seq<Block>, k: int, m: int)
    requires
        0 <= k <= m <= blocks.len(),
    ensures
        block_magnitude(blocks, k) <= block_magnitude(blocks, m),
    decreases m - k,
{
    if k < m {
        lemma_block_magnitude_monotone(blocks, k, m - 1);
    }
}

/// The number of open plots among the first `k`.
pub open spec fn open_count(plots: Seq<Plot>, k: int) -> int
    decreases k,
{
    if k <= 0 {
        0
    } else {
        open_count(plots, k - 1) + if plots[k - 1].open {
            1int
        } else {
            0
        }
    }
}

/// `a / b` rounded toward zero, as Rust's own integer division does.
pub open spec fn div_toward_zero(a: int, b: int) -> int {
    if b > 0 {
        trunc_div(a, b)
    } else {
        -trunc_div(a, -b)
    }
}

/// Rust's own `a / b` for a non-zero `b`.
fn div_i64(a: i64, b: i64) -> (r: i64)
    requires
        b != 0,
        b > i64::MIN,
        a > i64::MIN,
    ensures
        r == div_toward_zero(a as int, b as int),
{
    if b > 0 {
        a / b
    } else {
        -(a / (-b))
    }
}

/// A district's plots, sorted by block then north-west corner.
#[derive(Debug, Clone)]
pub struct PlotMap {
    site: SiteBounds,
    plots: Vec<Plot>,
}

impl PlotMap {
    pub closed spec fn spec_site(self) -> SiteBounds {
        self.site
    }

    pub closed spec fn spec_plots(self) -> Seq<Plot> {
        self.plots@
    }

    /// Builds a map from raw parts, so a checker's own fixtures need not
    /// come out of the generator: the plots are sorted by block then
    /// north-west corner, stably.
    pub fn test_fixture(site: SiteBounds, plots: Vec<Plot>) -> (m: Self)
        ensures
            m.spec_site() == site,
            exists|p: Seq<int>| stable_plot_sort(plots@, m.spec_plots(), p),
    {
        let ghost given = plots@;
        let (sorted, Ghost(p)) = sort_plots(plots);
        let m = PlotMap { site, plots: sorted };
        assert(stable_plot_sort(given, m.spec_plots(), p));
        m
    }

    pub fn site(&self) -> (r: SiteBounds)
        ensures
            r == self.spec_site(),
    {
        self.site
    }

    pub fn plots(&self) -> (r: &[Plot])
        ensures
            r@ == self.spec_plots(),
    {
        self.plots.as_slice()
    }

    /// The indices, in order, of every non-open plot that is landlocked:
    /// no front, no real block, a front side that abuts no street (lies on
    /// the site boundary), or under `frontage_min_cells` of edge shared
    /// with that side of its block.
    pub fn landlocked_plots(&self, blocks: &[Block], frontage_min_cells: i32) -> (r: Vec<usize>)
        ensures
            r@ == landlocked_upto(self.spec_site(), blocks@, self.spec_plots(), frontage_min_cells as int, self.spec_plots().len() as int),
    {
        let mut out: Vec<usize> = Vec::new();
        let mut i: usize = 0;
        while i < self.plots.len()
            invariant
                i <= self.plots.len(),
                out@ == landlocked_upto(self.site, blocks@, self.plots@, frontage_min_cells as int, i as int),
            decreases self.plots.len() - i,
        {
            let p = self.plots[i];
            let flagged = if p.open {
                false
            } else {
                match p.front {
                    None => true,
                    Some(front) => {
                        if p.block as usize >= blocks.len() {
                            true
                        } else {
                            let b = blocks[p.block as usize];
                            let sides = block_sides(b.bounds, self.site);
                            if !sides.get(front) {
                                true
                            } else {
                                shared_edge_length(p.bounds, b.bounds, front) < frontage_min_cells as i64
                            }
                        }
                    },
                }
            };
            assert(flagged == landlocked(self.site, blocks@, p, frontage_min_cells as int));
            if flagged {
                out.push(i);
            }
            i += 1;
        }
        out
    }

    /// `block_index`'s own area minus the summed area of its own plots, or
    /// `None` if no such block exists.
    pub fn remainder_cells(&self, block_index: u32, blocks: &[Block]) -> (r: Option<i64>)
        requires
            (block_index as int) < blocks.len() ==> abs_int(rect_area(blocks@[block_index as int].bounds)) + plot_magnitude(
                self.spec_plots(),
                self.spec_plots().len() as int,
            ) <= i64::MAX,
        ensures
            (block_index as int) < blocks.len() <==> r is Some,
            r matches Some(v) ==> v == rect_area(blocks@[block_index as int].bounds) - plot_area_sum(
                self.spec_plots(),
                Some(block_index),
                false,
                self.spec_plots().len() as int,
            ),
    {
        if block_index as usize >= blocks.len() {
            return None;
        }
        let b = blocks[block_index as usize];
        let w = b.bounds.width();
        let h = b.bounds.height();
        proof {
            lemma_plot_sums_bounded(self.plots@, Some(block_index), false, self.plots@.len() as int);
            assert(abs_int(w * h) <= i64::MAX);
        }
        let block_area = w * h;
        let plot_area = self.area_sum(Some(block_index), false);
        Some(block_area - plot_area)
    }

    /// The summed area of the plots of block `b` (every block's when
    /// `None`), only the open ones when `open_only`.
    fn area_sum(&self, b: Option<u32>, open_only: bool) -> (r: i64)
        requires
            plot_magnitude(self.spec_plots(), self.spec_plots().len() as int) <= i64::MAX,
        ensures
            r == plot_area_sum(self.spec_plots(), b, open_only, self.spec_plots().len() as int),
    {
        let mut sum: i64 = 0;
        let mut i: usize = 0;
        while i < self.plots.len()
            invariant
                i <= self.plots.len(),
                plot_magnitude(self.plots@, self.plots@.len() as int) <= i64::MAX,
                sum == plot_area_sum(self.plots@, b, open_only, i as int),
            decreases self.plots.len() - i,
        {
            let p = self.plots[i];
            proof {
                lemma_plot_sums_bounded(self.plots@, b, open_only, i + 1);
                lemma_plot_sums_bounded(self.plots@, b, open_only, i as int);
                lemma_plot_magnitude_monotone(self.plots@, i + 1, self.plots@.len() as int);
            }
            let counted = match b {
                Some(x) => p.block == x,
                None => true,
            } && (!open_only || p.open);
            if counted {
                let w = p.bounds.width();
                let h = p.bounds.height();
                assert(w * h == rect_area(self.plots@[i as int].bounds));
                sum = sum + w * h;
            }
            i += 1;
        }
        sum
    }

    /// The percent of plots that are open, rounded toward zero; `0` for an
    /// empty map.
    pub fn open_count_percent(&self) -> (r: i64)
        requires
            self.spec_plots().len() <= 0x0100_0000_0000_0000,
        ensures
            r == (if self.spec_plots().len() == 0 {
                0
            } else {
                open_count(self.spec_plots(), self.spec_plots().len() as int) * 100 / self.spec_plots().len() as int
            }),
    {
        if self.plots.len() == 0 {
            return 0;
        }
        let mut open: i64 = 0;
        let mut i: usize = 0;
        while i < self.plots.len()
            invariant
                i <= self.plots.len(),
                self.plots.len() <= 0x0100_0000_0000_0000,
                open == open_count(self.plots@, i as int),
                0 <= open <= i,
            decreases self.plots.len() - i,
        {
            if self.plots[i].open {
                open += 1;
            }
            i += 1;
        }
        open * 100 / self.plots.len() as i64
    }

    /// The percent of all plotted area that is open, rounded toward zero;
    /// `0` when the plots have no area at all.
    pub fn open_area_percent(&self) -> (r: i64)
        requires
            plot_magnitude(self.spec_plots(), self.spec_plots().len() as int) * 100 <= i64::MAX,
        ensures
            ({
                let n = self.spec_plots().len() as int;
                let total = plot_area_sum(self.spec_plots(), None, false, n);
                r == if total == 0 {
                    0
                } else {
                    div_toward_zero(plot_area_sum(self.spec_plots(), None, true, n) * 100, total)
                }
            }),
    {
        let total = self.area_sum(None, false);
        if total == 0 {
            return 0;
        }
        let open = self.area_sum(None, true);
        proof {
            lemma_plot_sums_bounded(self.plots@, None, true, self.plots@.len() as int);
            lemma_plot_sums_bounded(self.plots@, None, false, self.plots@.len() as int);
        }
        let hundredfold = open * 100;
        let r = div_i64(hundredfold, total);
        assert(r == div_toward_zero(hundredfold as int, total as int));
        r
    }

    /// The percent of the blocks' summed area that no plot covers (at
    /// least 0), rounded toward zero; `0` when the blocks have no area.
    pub fn unplotted_percent(&self, blocks: &[Block]) -> (r: i64)
        requires
            (block_magnitude(blocks@, blocks@.len() as int) + plot_magnitude(self.spec_plots(), self.spec_plots().len() as int))
                * 100 <= i64::MAX,
        ensures
            ({
                let total_block = block_area_sum(blocks@, blocks@.len() as int);
                let total_plot = plot_area_sum(self.spec_plots(), None, false, self.spec_plots().len() as int);
                let diff = total_block - total_plot;
                r == if total_block == 0 {
                    0
                } else {
                    div_toward_zero((if diff >= 0 { diff } else { 0 }) * 100, total_block)
                }
            }),
    {
        let mut total_block: i64 = 0;
        let mut i: usize = 0;
        while i < blocks.len()
            invariant
                i <= blocks.len(),
                (block_magnitude(blocks@, blocks@.len() as int) + plot_magnitude(self.plots@, self.plots@.len() as int)) * 100 <= i64::MAX,
                total_block == block_area_sum(blocks@, i as int),
            decreases blocks.len() - i,
        {
            proof {
                lemma_block_sums_bounded(blocks@, i + 1);
                lemma_block_sums_bounded(blocks@, i as int);
                lemma_block_magnitude_monotone(blocks@, i + 1, blocks@.len() as int);
                lemma_plot_sums_bounded(self.plots@, None, false, self.plots@.len() as int);
            }
            let w = blocks[i].bounds.width();
            let h = blocks[i].bounds.height();
            assert(w * h == rect_area(blocks@[i as int].bounds));
            total_block = total_block + w * h;
            i += 1;
        }
        if total_block == 0 {
            return 0;
        }
        proof {
            lemma_block_sums_bounded(blocks@, blocks@.len() as int);
            lemma_plot_sums_bounded(self.plots@, None, false, self.plots@.len() as int);
        }
        let total_plot = self.area_sum(None, false);
        let diff = total_block - total_plot;
        let kept = if diff >= 0 {
            diff
        } else {
            0
        };
        let r = div_i64(kept * 100, total_block);
        assert(r == div_toward_zero(kept as int * 100, total_block as int));
        r
    }
}


/// The density a block's plots carry: that of the land-use cell under the
/// block's centre (clamped into the site), the minimum density where no
/// cell covers it.
pub open spec fn block_density(lu: LandUseMap, b: Rect, site: SiteBounds, cfg: GenerationConfig) -> i32 {
    let sx = clamp_int(trunc_div(b.x0 + b.x1, 2), site.x0 as int, site.x1 - 1);
    let sy = clamp_int(trunc_div(b.y0 + b.y1, 2), site.y0 as int, site.y1 - 1);
    match lu.spec_at_world(sx, sy) {
        Some(c) => c.density,
        None => cfg.density_min,
    }
}

/// The build-line setback at `density`.
pub open spec fn setback_at(cfg: GenerationConfig, density: int) -> int {
    if density >= cfg.plot_high_density_threshold {
        0
    } else {
        cfg.plot_setback_periphery_cells as int
    }
}

/// The gap between neighbouring envelopes at `density`.
pub open spec fn side_gap_at(cfg: GenerationConfig, density: int) -> int {
    if density >= cfg.plot_high_density_threshold {
        0
    } else {
        cfg.envelope_side_gap_periphery_cells as int
    }
}

/// How much wider a row's end plots are than their module: the setback
/// less half the side gap, at least 0.
pub open spec fn corner_extra_at(cfg: GenerationConfig, density: int) -> int {
    let c = setback_at(cfg, density) - trunc_div(side_gap_at(cfg, density), 2);
    if c >= 0 {
        c
    } else {
        0
    }
}

/// The least depth a row of use `u` needs: the use's least envelope depth
/// behind the setback.
pub open spec fn min_needed_at(cfg: GenerationConfig, u: LandUse, density: int) -> int {
    min_footprint_d(cfg, use_index(u)) + setback_at(cfg, density)
}

/// The least row length a face of use `u` needs for one module with both
/// corner extras.
pub open spec fn row_min_at(cfg: GenerationConfig, u: LandUse, density: int) -> int {
    cfg.plot_width_min_cells[use_index(u)] + 2 * corner_extra_at(cfg, density)
}

/// The south and north row depths before any band is absorbed: rows are
/// only cut when the block is wide enough for one module, and none of the
/// band between them is absorbed yet.
pub open spec fn ns_rows(cfg: GenerationConfig, b: Rect, sides: Sides, u: LandUse, density: int) -> (int, int) {
    if b.spec_width() >= row_min_at(cfg, u, density) {
        spec_axis_rows(
            b.spec_height(),
            sides.south,
            sides.north,
            cfg.plot_row_depth_cells[use_index(u)] as int,
            min_needed_at(cfg, u, density),
            0,
        )
    } else {
        (0, 0)
    }
}

/// The band the south and north rows leave between them.
pub open spec fn ns_band(cfg: GenerationConfig, b: Rect, sides: Sides, u: LandUse, density: int) -> int {
    b.spec_height() - ns_rows(cfg, b, sides, u, density).0 - ns_rows(cfg, b, sides, u, density).1
}

/// The band is offered to the east and west faces: it is non-empty, one
/// of them abuts a street, and it is long enough for one module.
pub open spec fn ew_offered(cfg: GenerationConfig, b: Rect, sides: Sides, u: LandUse, density: int) -> bool {
    let band = ns_band(cfg, b, sides, u, density);
    band > 0 && (sides.east || sides.west) && band >= row_min_at(cfg, u, density)
}

/// The east and west row depths: cut across the block's width when the
/// band is offered to them, absorbing a core up to the ceiling.
pub open spec fn ew_rows(cfg: GenerationConfig, b: Rect, sides: Sides, u: LandUse, density: int) -> (int, int) {
    if ew_offered(cfg, b, sides, u, density) {
        spec_axis_rows(
            b.spec_width(),
            sides.east,
            sides.west,
            cfg.plot_row_depth_cells[use_index(u)] as int,
            min_needed_at(cfg, u, density),
            spec_max_core_depth(cfg, density),
        )
    } else {
        (0, 0)
    }
}

/// No east or west row uses the band, and it is absorbed into the south
/// and north rows as rear yard: when it is within the core ceiling, or
/// whenever an east or west street abuts it.
pub open spec fn band_absorbed(cfg: GenerationConfig, b: Rect, sides: Sides, u: LandUse, density: int) -> bool {
    let band = ns_band(cfg, b, sides, u, density);
    let ew = ew_rows(cfg, b, sides, u, density);
    band > 0 && ew.0 == 0 && ew.1 == 0 && (band <= spec_max_core_depth(cfg, density) || sides.east || sides.west)
}

/// Each face's row depth: south, north, east, west.
pub open spec fn face_depths(cfg: GenerationConfig, b: Rect, sides: Sides, u: LandUse, density: int) -> (int, int, int, int) {
    let ns = ns_rows(cfg, b, sides, u, density);
    let ew = ew_rows(cfg, b, sides, u, density);
    let sn = if band_absorbed(cfg, b, sides, u, density) {
        spec_absorb(ns.0, ns.1, (ns_band(cfg, b, sides, u, density) as i32) as int)
    } else {
        ns
    };
    (sn.0, sn.1, ew.0, ew.1)
}

/// The `i`-th face in [`FACE_PRIORITY`].
pub open spec fn face_at(i: int) -> Side {
    if i == 0 {
        Side::South
    } else if i == 1 {
        Side::North
    } else if i == 2 {
        Side::East
    } else {
        Side::West
    }
}

/// The depth of `side`'s row.
pub open spec fn depth_on(d: (int, int, int, int), side: Side) -> int {
    match side {
        Side::South => d.0,
        Side::North => d.1,
        Side::East => d.2,
        Side::West => d.3,
    }
}

/// How long a row cut along `side` runs.
pub open spec fn row_len_of(strip: Rect, side: Side) -> int {
    match side {
        Side::North | Side::South => strip.spec_width(),
        Side::East | Side::West => strip.spec_height(),
    }
}

/// A plot fronting `side` of block `block`.
pub open spec fn front_plot(bounds: Rect, block: u32, side: Side, u: LandUse, density: i32) -> Plot {
    Plot { bounds, block, front: Some(side), land_use: u, density, open: false }
}

/// An open plot of block `block`, fronting no single street.
pub open spec fn open_plot(bounds: Rect, block: u32, u: LandUse, density: i32) -> Plot {
    Plot { bounds, block, front: None, land_use: u, density, open: true }
}

/// The plots one face cuts off `remaining` with a row `depth` deep, what
/// is left, and the generator state after: its strip ([`spec_cut_strip`])
/// filled with a rhythm of plots ([`spec_rhythm_plots`]); nothing when no
/// strip can be cut.
#[verifier::opaque]
pub open spec fn face_row(
    cfg: GenerationConfig,
    block: u32,
    u: LandUse,
    density: i32,
    side: Side,
    depth: int,
    remaining: Rect,
    w: Seq<u64>,
) -> (Seq<Plot>, Rect, Seq<u64>) {
    match spec_cut_strip(remaining, side, depth) {
        None => (Seq::empty(), remaining, w),
        Some((strip, rest)) => {
            let ui = use_index(u);
            let row = spec_rhythm_plots(
                strip,
                side,
                row_len_of(strip, side),
                cfg.plot_width_min_cells[ui] as int,
                cfg.plot_width_max_cells[ui] as int,
                corner_extra_at(cfg, density as int),
                w,
            );
            (row.0.map_values(|r: Rect| front_plot(r, block, side, u, density)), rest, row.1)
        },
    }
}

/// The plots cut from the first `i` faces in [`FACE_PRIORITY`] order, what
/// is left of the block, and the generator state after, each face cutting
/// its row ([`face_row`]) off what the ones before it left.
pub open spec fn faces_cut(
    cfg: GenerationConfig,
    block: u32,
    u: LandUse,
    density: i32,
    depths: (int, int, int, int),
    bounds: Rect,
    w: Seq<u64>,
    i: int,
) -> (Seq<Plot>, Rect, Seq<u64>)
    decreases i,
{
    if i <= 0 {
        (Seq::empty(), bounds, w)
    } else {
        let prev = faces_cut(cfg, block, u, density, depths, bounds, w, i - 1);
        let side = face_at(i - 1);
        let f = face_row(cfg, block, u, density, side, depth_on(depths, side), prev.1, prev.2);
        (prev.0 + f.0, f.1, f.2)
    }
}

/// The plots of the block at `index` with bounds `b`, in the order they
/// are cut: a block no face of which abuts a street is one open plot;
/// otherwise its faces are cut into rows, with the generator seeded from
/// the pass seed and the block's own bounds, and whatever no row claims
/// is one more open plot.
pub open spec fn spec_block_plots(
    city_seed: u64,
    lu: LandUseMap,
    site: SiteBounds,
    cfg: GenerationConfig,
    index: int,
    b: Rect,
) -> Seq<Plot> {
    let block = index as u32;
    let u = spec_block_land_use(lu, b);
    let density = block_density(lu, b, site, cfg);
    let sides = spec_block_sides(b, site);
    if !(sides.north || sides.east || sides.south || sides.west) {
        seq![open_plot(b, block, u, density)]
    } else {
        let w = seeded_state(spec_seed_from_ids(spec_seed_from_ids(city_seed, PASS_ID), spec_rect_seed_key(b)));
        let cut = faces_cut(cfg, block, u, density, face_depths(cfg, b, sides, u, density as int), b, w, 4);
        if cut.1.spec_width() > 0 && cut.1.spec_height() > 0 {
            cut.0.push(open_plot(cut.1, block, u, density))
        } else {
            cut.0
        }
    }
}

/// The plots of the first `k` blocks, block by block.
pub open spec fn plots_of_blocks(
    city_seed: u64,
    lu: LandUseMap,
    site: SiteBounds,
    cfg: GenerationConfig,
    blocks: Seq<Block>,
    k: int,
) -> Seq<Plot>
    decreases k,
{
    if k <= 0 {
        Seq::empty()
    } else {
        plots_of_blocks(city_seed, lu, site, cfg, blocks, k - 1) + spec_block_plots(city_seed, lu, site, cfg, k - 1, blocks[k - 1].bounds)
    }
}

/// The arithmetic of cutting block `b` stays within its integer types.
pub open spec fn block_plots_fit(lu: LandUseMap, site: SiteBounds, cfg: GenerationConfig, b: Rect) -> bool {
    let u = spec_block_land_use(lu, b);
    let ui = use_index(u);
    let density = block_density(lu, b, site, cfg) as int;
    let sides = spec_block_sides(b, site);
    let row_depth = cfg.plot_row_depth_cells[ui] as int;
    let min_needed = min_needed_at(cfg, u, density);
    let ns = ns_rows(cfg, b, sides, u, density);
    let extra = (ns_band(cfg, b, sides, u, density) as i32) as int;
    &&& fits_i32(b.x0 + b.x1)
    &&& fits_i32(b.y0 + b.y1)
    &&& block_use_fits(lu, b)
    &&& (sides.north || sides.east || sides.south || sides.west) ==> {
        &&& fits_i32(b.spec_width())
        &&& fits_i32(b.spec_height())
        &&& fits_i32(2 * cfg.envelope_wall_thickness_cells)
        &&& fits_i32(min_footprint_w(cfg, ui))
        &&& fits_i32(min_footprint_d(cfg, ui))
        &&& fits_i32(min_needed)
        &&& max_core_depth_fits(cfg, density)
        &&& fits_i32(setback_at(cfg, density) - trunc_div(side_gap_at(cfg, density), 2))
        &&& fits_i32(cfg.plot_width_max_cells[ui] - cfg.plot_width_min_cells[ui])
        &&& (b.spec_width() >= row_min_at(cfg, u, density) ==> axis_rows_fit(
            b.spec_height(),
            sides.south,
            sides.north,
            row_depth,
            min_needed,
            0,
        ))
        &&& (ew_offered(cfg, b, sides, u, density) ==> axis_rows_fit(
            b.spec_width(),
            sides.east,
            sides.west,
            row_depth,
            min_needed,
            spec_max_core_depth(cfg, density),
        ))
        &&& (band_absorbed(cfg, b, sides, u, density) ==> {
            &&& (ns.0 > 0 && ns.1 > 0 ==> fits_i32(extra + 1))
            &&& fits_i32(spec_absorb(ns.0, ns.1, extra).0)
            &&& fits_i32(spec_absorb(ns.0, ns.1, extra).1)
        })
    }
}

/// Pass 3 can run: the site is not empty and every block's arithmetic
/// fits.
pub open spec fn run_fits(lu: LandUseMap, site: SiteBounds, cfg: GenerationConfig, blocks: Seq<Block>) -> bool {
    &&& site.x0 < site.x1
    &&& site.y0 < site.y1
    &&& forall|k: int| 0 <= k < blocks.len() ==> block_plots_fit(lu, site, cfg, #[trigger] blocks[k].bounds)
}


/// The density of the land-use cell under `b`'s centre, clamped into the
/// site; the minimum density where no cell covers it.
fn sample_density(land_use: &LandUseMap, b: Rect, site: SiteBounds, cfg: &GenerationConfig) -> (d: i32)
    requires
        fits_i32(b.x0 + b.x1),
        fits_i32(b.y0 + b.y1),
        site.x0 < site.x1,
        site.y0 < site.y1,
    ensures
        d == block_density(*land_use, b, site, *cfg),
{
    let mx = (b.x0 + b.x1) / 2;
    let my = (b.y0 + b.y1) / 2;
    let sx = if mx < site.x0 {
        site.x0
    } else if mx > site.x1 - 1 {
        site.x1 - 1
    } else {
        mx
    };
    let sy = if my < site.y0 {
        site.y0
    } else if my > site.y1 - 1 {
        site.y1 - 1
    } else {
        my
    };
    match land_use.at_world(sx, sy) {
        Some(c) => c.density,
        None => cfg.density_min,
    }
}

/// Each face's row depth (south, north, east, west), per [`face_depths`]:
/// the south/north pair cut first across the block's full width, the band
/// between offered to the east/west pair, and absorbed back into the
/// south/north rows when no east/west row takes it and it is within the
/// core ceiling or abuts an east/west street.
#[verifier::spinoff_prover]
fn row_depths(
    cfg: &GenerationConfig,
    b: Rect,
    sides: Sides,
    use_: LandUse,
    density: i32,
    row_min: i64,
    min_needed: i32,
    max_core: i32,
) -> (d: (i32, i32, i32, i32))
    requires
        row_min == row_min_at(*cfg, use_, density as int),
        min_needed == min_needed_at(*cfg, use_, density as int),
        max_core == spec_max_core_depth(*cfg, density as int),
        fits_i32(b.spec_width()),
        fits_i32(b.spec_height()),
        b.spec_width() >= row_min_at(*cfg, use_, density as int) ==> axis_rows_fit(
            b.spec_height(),
            sides.south,
            sides.north,
            cfg.plot_row_depth_cells[use_index(use_)] as int,
            min_needed as int,
            0,
        ),
        ew_offered(*cfg, b, sides, use_, density as int) ==> axis_rows_fit(
            b.spec_width(),
            sides.east,
            sides.west,
            cfg.plot_row_depth_cells[use_index(use_)] as int,
            min_needed as int,
            max_core as int,
        ),
        band_absorbed(*cfg, b, sides, use_, density as int) ==> {
            let ns = ns_rows(*cfg, b, sides, use_, density as int);
            let extra = (ns_band(*cfg, b, sides, use_, density as int) as i32) as int;
            &&& (ns.0 > 0 && ns.1 > 0 ==> fits_i32(extra + 1))
            &&& fits_i32(spec_absorb(ns.0, ns.1, extra).0)
            &&& fits_i32(spec_absorb(ns.0, ns.1, extra).1)
        },
    ensures
        d.0 == face_depths(*cfg, b, sides, use_, density as int).0,
        d.1 == face_depths(*cfg, b, sides, use_, density as int).1,
        d.2 == face_depths(*cfg, b, sides, use_, density as int).2,
        d.3 == face_depths(*cfg, b, sides, use_, density as int).3,
{
    let ghost (c, dn) = (*cfg, density as int);
    let ui = land_use_index(use_);
    let row_depth = cfg.plot_row_depth_cells[ui];
    let width = b.width();
    let height = b.height();
    let ns = if width >= row_min {
        axis_rows(height, sides.south, sides.north, row_depth, min_needed, 0)
    } else {
        (0, 0)
    };
    assert(ns.0 == ns_rows(c, b, sides, use_, dn).0 && ns.1 == ns_rows(c, b, sides, use_, dn).1);
    let mut south = ns.0;
    let mut north = ns.1;
    let band = height - south as i64 - north as i64;
    assert(band == ns_band(c, b, sides, use_, dn));
    let mut east: i32 = 0;
    let mut west: i32 = 0;
    if band > 0 {
        if (sides.east || sides.west) && band >= row_min {
            let ew = axis_rows(width, sides.east, sides.west, row_depth, min_needed, max_core);
            east = ew.0;
            west = ew.1;
        }
        assert(east == ew_rows(c, b, sides, use_, dn).0 && west == ew_rows(c, b, sides, use_, dn).1);
        if east == 0 && west == 0 {
            let absorb_band = band <= max_core as i64 || sides.east || sides.west;
            if absorb_band {
                let sn = absorb(south, north, band as i32);
                south = sn.0;
                north = sn.1;
            }
        }
    }
    (south, north, east, west)
}


/// Appends one plot fronting `side` for each rect of a row, in order.
fn push_row(plots: &mut Vec<Plot>, row: &Vec<Rect>, block: u32, side: Side, use_: LandUse, density: i32)
    ensures
        final(plots)@ == old(plots)@ + row@.map_values(|r: Rect| front_plot(r, block, side, use_, density)),
{
    let ghost before = plots@;
    let mut j: usize = 0;
    while j < row.len()
        invariant
            j <= row.len(),
            plots@ == before + row@.subrange(0, j as int).map_values(|r: Rect| front_plot(r, block, side, use_, density)),
        decreases row.len() - j,
    {
        plots.push(Plot { bounds: row[j], block, front: Some(side), land_use: use_, density, open: false });
        proof {
            assert(row@.subrange(0, j + 1) == row@.subrange(0, j as int).push(row@[j as int]));
            assert(plots@ =~= before + row@.subrange(0, j + 1).map_values(|r: Rect| front_plot(r, block, side, use_, density)));
        }
        j += 1;
    }
    assert(row@.subrange(0, row.len() as int) == row@);
}

/// Cuts one face's row off `remaining`, per [`face_row`], appending its
/// plots; returns what is left.
#[verifier::spinoff_prover]
fn cut_face(
    cfg: &GenerationConfig,
    block: u32,
    use_: LandUse,
    density: i32,
    side: Side,
    depth: i32,
    corner_extra: i32,
    width_min: i32,
    width_max: i32,
    remaining: Rect,
    rng: &mut Rng,
    plots: &mut Vec<Plot>,
) -> (rest: Rect)
    requires
        corner_extra == corner_extra_at(*cfg, density as int),
        width_min == cfg.plot_width_min_cells[use_index(use_)],
        width_max == cfg.plot_width_max_cells[use_index(use_)],
        fits_i32(width_max - width_min),
        fits_i32(remaining.spec_width()),
        fits_i32(remaining.spec_height()),
    ensures
        ({
            let f = face_row(*cfg, block, use_, density, side, depth as int, remaining, old(rng).words());
            &&& final(plots)@ == old(plots)@ + f.0
            &&& rest == f.1
            &&& final(rng).words() == f.2
        }),
        remaining.x0 <= rest.x0,
        rest.x1 <= remaining.x1,
        remaining.y0 <= rest.y0,
        rest.y1 <= remaining.y1,
        rest == remaining || (rest.x0 <= rest.x1 && rest.y0 <= rest.y1),
{
    reveal(face_row);
    if depth <= 0 {
        assert(old(plots)@ + Seq::<Plot>::empty() =~= old(plots)@);
        return remaining;
    }
    match cut_strip(remaining, side, depth) {
        Some((strip, rest)) => {
            let row_len = match side {
                Side::North | Side::South => strip.width(),
                Side::East | Side::West => strip.height(),
            };
            let row = rhythm_plots(strip, side, row_len, width_min, width_max, corner_extra, rng);
            push_row(plots, &row, block, side, use_, density);
            rest
        },
        None => {
            assert(old(plots)@ + Seq::<Plot>::empty() =~= old(plots)@);
            remaining
        },
    }
}

/// Cuts block `bounds`'s faces in [`FACE_PRIORITY`] order, per
/// [`faces_cut`]: each face with a row cuts its strip off what is left and
/// fills it with a rhythm of plots, appended to `plots`. Returns what no
/// row claimed.
#[verifier::spinoff_prover]
#[verifier::rlimit(40)]
fn cut_faces(
    cfg: &GenerationConfig,
    block: u32,
    use_: LandUse,
    density: i32,
    depths: (i32, i32, i32, i32),
    corner_extra: i32,
    bounds: Rect,
    rng: &mut Rng,
    plots: &mut Vec<Plot>,
) -> (remaining: Rect)
    requires
        corner_extra == corner_extra_at(*cfg, density as int),
        fits_i32(bounds.spec_width()),
        fits_i32(bounds.spec_height()),
        fits_i32(cfg.plot_width_max_cells[use_index(use_)] - cfg.plot_width_min_cells[use_index(use_)]),
    ensures
        ({
            let cut = faces_cut(
                *cfg,
                block,
                use_,
                density,
                (depths.0 as int, depths.1 as int, depths.2 as int, depths.3 as int),
                bounds,
                old(rng).words(),
                4,
            );
            &&& final(plots)@ == old(plots)@ + cut.0
            &&& remaining == cut.1
            &&& final(rng).words() == cut.2
        }),
{
    let ghost dd = (depths.0 as int, depths.1 as int, depths.2 as int, depths.3 as int);
    let ghost w0 = rng.words();
    let ghost base = plots@;
    let ui = land_use_index(use_);
    let width_min = cfg.plot_width_min_cells[ui];
    let width_max = cfg.plot_width_max_cells[ui];
    let mut remaining = bounds;
    let mut fi: usize = 0;
    while fi < 4
        invariant
            fi <= 4,
            ui == use_index(use_),
            width_min == cfg.plot_width_min_cells[use_index(use_)],
            width_max == cfg.plot_width_max_cells[use_index(use_)],
            corner_extra == corner_extra_at(*cfg, density as int),
            dd == (depths.0 as int, depths.1 as int, depths.2 as int, depths.3 as int),
            fits_i32(bounds.spec_width()),
            fits_i32(bounds.spec_height()),
            fits_i32(width_max - width_min),
            plots@ == base + faces_cut(*cfg, block, use_, density, dd, bounds, w0, fi as int).0,
            remaining == faces_cut(*cfg, block, use_, density, dd, bounds, w0, fi as int).1,
            rng.words() == faces_cut(*cfg, block, use_, density, dd, bounds, w0, fi as int).2,
            bounds.x0 <= remaining.x0,
            remaining.x1 <= bounds.x1,
            bounds.y0 <= remaining.y0,
            remaining.y1 <= bounds.y1,
            remaining == bounds || (remaining.x0 <= remaining.x1 && remaining.y0 <= remaining.y1),
        decreases 4 - fi,
    {
        let side = FACE_PRIORITY[fi];
        assert(side == face_at(fi as int));
        let depth = match side {
            Side::South => depths.0,
            Side::North => depths.1,
            Side::East => depths.2,
            Side::West => depths.3,
        };
        assert(depth == depth_on(dd, side));
        let ghost prev_plots = plots@;
        let rest = cut_face(cfg, block, use_, density, side, depth, corner_extra, width_min, width_max, remaining, rng, plots);
        proof {
            let f = face_row(*cfg, block, use_, density, side, depth as int, remaining, faces_cut(*cfg, block, use_, density, dd, bounds, w0, fi as int).2);
            assert(plots@ =~= base + faces_cut(*cfg, block, use_, density, dd, bounds, w0, fi + 1).0);
        }
        remaining = rest;
        fi += 1;
    }
    remaining
}


/// Appends the plots of the block at `index` with bounds `b`, per
/// [`spec_block_plots`].
#[verifier::spinoff_prover]
fn plot_block(
    city_seed: u64,
    pass_seed: u64,
    land_use: &LandUseMap,
    site: SiteBounds,
    cfg: &GenerationConfig,
    index: usize,
    b: Rect,
    plots: &mut Vec<Plot>,
)
    requires
        pass_seed == spec_seed_from_ids(city_seed, PASS_ID),
        site.x0 < site.x1,
        site.y0 < site.y1,
        block_plots_fit(*land_use, site, *cfg, b),
    ensures
        final(plots)@ == old(plots)@ + spec_block_plots(city_seed, *land_use, site, *cfg, index as int, b),
{
    let block_index = index as u32;
    let use_ = block_land_use(land_use, b);
    let density = sample_density(land_use, b, site, cfg);
    let mut rng = Rng::new(seed_from_ids(pass_seed, rect_seed_key(b)));
    let sides = block_sides(b, site);
    if !sides.any() {
        // A sliver block: no face fronts a street, so it is one open plot.
        plots.push(Plot { bounds: b, block: block_index, front: None, land_use: use_, density, open: true });
        assert(plots@ =~= old(plots)@ + seq![open_plot(b, block_index, use_, density)]);
        return;
    }
    let ui = land_use_index(use_);
    let width_min = cfg.plot_width_min_cells[ui];
    let limits = cfg.envelope_limits(use_);
    let setback = cfg.setback_cells(density);
    let min_needed = limits.min_depth_cells + setback;
    let max_core = cfg.max_core_depth_cells(density);
    let extra = setback - cfg.side_gap_cells(density) / 2;
    let corner_extra = if extra >= 0 {
        extra
    } else {
        0
    };
    let row_min = row_min_len(width_min, corner_extra);
    let depths = row_depths(cfg, b, sides, use_, density, row_min, min_needed, max_core);
    let ghost before = plots@;
    let remaining = cut_faces(cfg, block_index, use_, density, depths, corner_extra, b, &mut rng, plots);
    // Whatever no row claimed is the block's core: one open plot.
    if remaining.width() > 0 && remaining.height() > 0 {
        plots.push(Plot { bounds: remaining, block: block_index, front: None, land_use: use_, density, open: true });
    }
    proof {
        let cut = faces_cut(
            *cfg,
            block_index,
            use_,
            density,
            face_depths(*cfg, b, sides, use_, density as int),
            b,
            seeded_state(spec_seed_from_ids(pass_seed, spec_rect_seed_key(b))),
            4,
        );
        assert(plots@ =~= old(plots)@ + spec_block_plots(city_seed, *land_use, site, *cfg, index as int, b));
    }
}

/// Runs pass 3: every block of `streets`, in order, is cut into plots
/// ([`spec_block_plots`]): its land use is the majority over its window,
/// its density that of the cell under its centre, and its
/// street-abutting faces are cut into rows of plots with a generator
/// seeded from the pass seed and the block's own bounds (never its
/// position). The plots come out sorted by block, then north-west corner,
/// stably.
#[verifier::rlimit(60)]
#[verifier::spinoff_prover]
pub fn run(city_seed: u64, land_use: &LandUseMap, streets: &StreetNetwork, cfg: &GenerationConfig) -> (m: PlotMap)
    requires
        run_fits(*land_use, streets.spec_site(), *cfg, streets.spec_blocks()),
    ensures
        m.spec_site() == streets.spec_site(),
        exists|p: Seq<int>|
            stable_plot_sort(
                plots_of_blocks(
                    city_seed,
                    *land_use,
                    streets.spec_site(),
                    *cfg,
                    streets.spec_blocks(),
                    streets.spec_blocks().len() as int,
                ),
                m.spec_plots(),
                p,
            ),
        streets.spec_blocks().len() <= u32::MAX ==> forall|j: int|
            0 <= j < m.spec_plots().len() ==> {
                let q = #[trigger] m.spec_plots()[j];
                q.block < streets.spec_blocks().len() && rect_inside(q.bounds, streets.spec_blocks()[q.block as int].bounds)
            },
        streets.spec_blocks().len() <= u32::MAX && (forall|i: int| 0 <= i < 4 ==> cfg.plot_width_min_cells[i] >= 1)
            ==> forall|b: int|
            0 <= b < streets.spec_blocks().len() && (#[trigger] streets.spec_blocks()[b]).bounds.spec_is_valid()
                ==> exists|j: int| 0 <= j < m.spec_plots().len() && #[trigger] m.spec_plots()[j].block == b,
        streets.spec_blocks().len() <= u32::MAX ==> forall|i: int, j: int|
            0 <= i < m.spec_plots().len() && 0 <= j < m.spec_plots().len() && i != j && (#[trigger] m.spec_plots()[i]).block
                == (#[trigger] m.spec_plots()[j]).block ==> rects_apart(m.spec_plots()[i].bounds, m.spec_plots()[j].bounds),
{
    let pass_seed = seed_from_ids(city_seed, PASS_ID);
    let site = streets.site();
    let blocks = streets.blocks();
    let mut plots: Vec<Plot> = Vec::new();
    let mut k: usize = 0;
    while k < blocks.len()
        invariant
            k <= blocks.len(),
            blocks@ == streets.spec_blocks(),
            site == streets.spec_site(),
            pass_seed == spec_seed_from_ids(city_seed, PASS_ID),
            run_fits(*land_use, site, *cfg, blocks@),
            plots@ == plots_of_blocks(city_seed, *land_use, site, *cfg, blocks@, k as int),
        decreases blocks.len() - k,
    {
        plot_block(city_seed, pass_seed, land_use, site, cfg, k, blocks[k].bounds, &mut plots);
        k += 1;
    }
    let ghost all = plots@;
    let (sorted, Ghost(p)) = sort_plots(plots);
    let m = PlotMap { site, plots: sorted };
    assert(stable_plot_sort(all, m.spec_plots(), p));
    proof {
        if blocks@.len() <= u32::MAX {
            lemma_plots_of_blocks_inside(city_seed, *land_use, site, *cfg, blocks@, blocks@.len() as int);
            assert forall|j: int| 0 <= j < m.spec_plots().len() implies {
                let q = #[trigger] m.spec_plots()[j];
                q.block < blocks@.len() && rect_inside(q.bounds, blocks@[q.block as int].bounds)
            } by {
                assert(m.spec_plots()[j] == all[p[j]]);
            }
            lemma_plots_of_blocks_apart(city_seed, *land_use, site, *cfg, blocks@, blocks@.len() as int);
            assert forall|i: int, j: int|
                0 <= i < m.spec_plots().len() && 0 <= j < m.spec_plots().len() && i != j && (#[trigger] m.spec_plots()[i]).block
                    == (#[trigger] m.spec_plots()[j]).block implies rects_apart(m.spec_plots()[i].bounds, m.spec_plots()[j].bounds) by {
                assert(m.spec_plots()[i] == all[p[i]] && m.spec_plots()[j] == all[p[j]]);
                assert(p[i] != p[j]);
            }
            if forall|i: int| 0 <= i < 4 ==> cfg.plot_width_min_cells[i] >= 1 {
                lemma_plots_of_blocks_cover(city_seed, *land_use, site, *cfg, blocks@, blocks@.len() as int);
                assert forall|b: int|
                    0 <= b < blocks@.len() && (#[trigger] blocks@[b]).bounds.spec_is_valid() implies exists|j: int|
                        0 <= j < m.spec_plots().len() && #[trigger] m.spec_plots()[j].block == b by {
                    let j = choose|j: int| 0 <= j < all.len() && #[trigger] all[j].block == b;
                    assert(p.contains(j));
                    let q = choose|q: int| 0 <= q < p.len() && p[q] == j;
                    assert(m.spec_plots()[q] == all[j]);
                }
            }
        }
    }
    m
}


/// The plots of a row from `cursor` on lie inside the strip's span from
/// `cursor` to the row's end.
proof fn lemma_rhythm_inside(
    strip: Rect,
    side: Side,
    widths: Seq<int>,
    extra: int,
    last_min: int,
    row_len: int,
    cursor: int,
    wi: int,
)
    requires
        rhythm_ok(widths, extra),
        wi >= 0,
        0 <= cursor <= row_len,
        row_len == row_len_of(strip, side),
    ensures
        forall|j: int|
            0 <= j < rhythm_rects(strip, side, widths, extra, last_min, row_len, cursor, wi).len() ==> rect_inside(
                #[trigger] rhythm_rects(strip, side, widths, extra, last_min, row_len, cursor, wi)[j],
                strip,
            ),
    decreases row_len - cursor,
{
    if cursor < row_len {
        let w = plot_width(widths, extra, last_min, row_len, cursor, wi);
        assert(widths[wi % widths.len() as int] >= 1);
        let head = spec_row_span(strip, side, cursor, cursor + w);
        let r = rhythm_rects(strip, side, widths, extra, last_min, row_len, cursor, wi);
        let rest = rhythm_rects(strip, side, widths, extra, last_min, row_len, cursor + w, wi + 1);
        assert(r == seq![head] + rest);
        lemma_rhythm_inside(strip, side, widths, extra, last_min, row_len, cursor + w, wi + 1);
        assert forall|j: int| 0 <= j < r.len() implies rect_inside(#[trigger] r[j], strip) by {
            if j > 0 {
                assert(r[j] == rest[j - 1]);
            }
        }
    }
}

/// Every plot a face row cuts lies inside what was left of the block, and
/// so does what it leaves; each names the block.
proof fn lemma_face_row_inside(
    cfg: GenerationConfig,
    block: u32,
    u: LandUse,
    density: i32,
    side: Side,
    depth: int,
    remaining: Rect,
    w: Seq<u64>,
)
    requires
        cfg.plot_width_max_cells[use_index(u)] - cfg.plot_width_min_cells[use_index(u)] <= 0xFFFF_FFFF,
    ensures
        ({
            let f = face_row(cfg, block, u, density, side, depth, remaining, w);
            &&& rect_inside(f.1, remaining)
            &&& forall|j: int| 0 <= j < f.0.len() ==> rect_inside((#[trigger] f.0[j]).bounds, remaining) && f.0[j].block == block
        }),
{
    reveal(face_row);
    match spec_cut_strip(remaining, side, depth) {
        None => {},
        Some((strip, rest)) => {
            let ui = use_index(u);
            let width_min = cfg.plot_width_min_cells[ui] as int;
            let width_max = cfg.plot_width_max_cells[ui] as int;
            let row_len = row_len_of(strip, side);
            if row_len > 0 && width_min > 0 {
                let span = if width_max - width_min >= 0 { width_max - width_min } else { 0 };
                let k = rhythm_count(w);
                lemma_widths_len(xoshiro_advance(w), k, width_min, span);
                lemma_widths_positive(xoshiro_advance(w), k, width_min, span);
                let widths = rhythm_widths(xoshiro_advance(w), k, width_min, span).0;
                let extra = corner_extra_at(cfg, density as int);
                assert(rhythm_ok(widths, extra));
                lemma_rhythm_inside(strip, side, widths, extra, width_min + extra, row_len, 0, 0);
            }
        },
    }
}

/// The plots cut from the first `i` faces lie inside the block, as does
/// what they leave; each names the block.
proof fn lemma_faces_cut_inside(
    cfg: GenerationConfig,
    block: u32,
    u: LandUse,
    density: i32,
    depths: (int, int, int, int),
    bounds: Rect,
    w: Seq<u64>,
    i: int,
)
    requires
        cfg.plot_width_max_cells[use_index(u)] - cfg.plot_width_min_cells[use_index(u)] <= 0xFFFF_FFFF,
    ensures
        ({
            let c = faces_cut(cfg, block, u, density, depths, bounds, w, i);
            &&& rect_inside(c.1, bounds)
            &&& forall|j: int| 0 <= j < c.0.len() ==> rect_inside((#[trigger] c.0[j]).bounds, bounds) && c.0[j].block == block
        }),
    decreases i,
{
    if i > 0 {
        lemma_faces_cut_inside(cfg, block, u, density, depths, bounds, w, i - 1);
        let prev = faces_cut(cfg, block, u, density, depths, bounds, w, i - 1);
        let side = face_at(i - 1);
        let f = face_row(cfg, block, u, density, side, depth_on(depths, side), prev.1, prev.2);
        lemma_face_row_inside(cfg, block, u, density, side, depth_on(depths, side), prev.1, prev.2);
        let c = faces_cut(cfg, block, u, density, depths, bounds, w, i);
        assert(c.0 == prev.0 + f.0);
        assert forall|j: int| 0 <= j < c.0.len() implies rect_inside((#[trigger] c.0[j]).bounds, bounds) && c.0[j].block == block by {
            if j >= prev.0.len() {
                assert(c.0[j] == f.0[j - prev.0.len()]);
            } else {
                assert(c.0[j] == prev.0[j]);
            }
        }
    }
}

/// Every plot of the first `k` blocks names a block before `k` and lies
/// inside it.
proof fn lemma_plots_of_blocks_inside(
    city_seed: u64,
    lu: LandUseMap,
    site: SiteBounds,
    cfg: GenerationConfig,
    blocks: Seq<Block>,
    k: int,
)
    requires
        0 <= k <= blocks.len() <= u32::MAX,
        forall|i: int| 0 <= i < 4 ==> cfg.plot_width_max_cells[i] - cfg.plot_width_min_cells[i] <= 0xFFFF_FFFF,
    ensures
        forall|j: int|
            0 <= j < plots_of_blocks(city_seed, lu, site, cfg, blocks, k).len() ==> {
                let p = #[trigger] plots_of_blocks(city_seed, lu, site, cfg, blocks, k)[j];
                p.block < k && rect_inside(p.bounds, blocks[p.block as int].bounds)
            },
    decreases k,
{
    if k > 0 {
        lemma_plots_of_blocks_inside(city_seed, lu, site, cfg, blocks, k - 1);
        let prev = plots_of_blocks(city_seed, lu, site, cfg, blocks, k - 1);
        let b = blocks[k - 1].bounds;
        let bp = spec_block_plots(city_seed, lu, site, cfg, k - 1, b);
        let block = (k - 1) as u32;
        let u = spec_block_land_use(lu, b);
        let density = block_density(lu, b, site, cfg);
        let sides = spec_block_sides(b, site);
        assert(use_index(u) < 4);
        if sides.north || sides.east || sides.south || sides.west {
            let w = seeded_state(spec_seed_from_ids(spec_seed_from_ids(city_seed, PASS_ID), spec_rect_seed_key(b)));
            lemma_faces_cut_inside(cfg, block, u, density, face_depths(cfg, b, sides, u, density as int), b, w, 4);
        }
        assert forall|j: int| 0 <= j < bp.len() implies rect_inside((#[trigger] bp[j]).bounds, b) && bp[j].block == block by {}
        let all = plots_of_blocks(city_seed, lu, site, cfg, blocks, k);
        assert(all == prev + bp);
        assert forall|j: int| 0 <= j < all.len() implies {
            let p = #[trigger] all[j];
            p.block < k && rect_inside(p.bounds, blocks[p.block as int].bounds)
        } by {
            if j >= prev.len() {
                assert(all[j] == bp[j - prev.len()]);
            } else {
                assert(all[j] == prev[j]);
            }
        }
    }
}


/// A face row cuts at least one plot, or cuts nothing and leaves what it
/// was given.
proof fn lemma_face_row_nonempty(
    cfg: GenerationConfig,
    block: u32,
    u: LandUse,
    density: i32,
    side: Side,
    depth: int,
    remaining: Rect,
    w: Seq<u64>,
)
    requires
        cfg.plot_width_min_cells[use_index(u)] >= 1,
    ensures
        ({
            let f = face_row(cfg, block, u, density, side, depth, remaining, w);
            f.0.len() > 0 || (f.0.len() == 0 && f.1 == remaining)
        }),
{
    reveal(face_row);
    match spec_cut_strip(remaining, side, depth) {
        None => {},
        Some((strip, rest)) => {
            let ui = use_index(u);
            let width_min = cfg.plot_width_min_cells[ui] as int;
            let width_max = cfg.plot_width_max_cells[ui] as int;
            let row_len = row_len_of(strip, side);
            assert(row_len > 0);
            let span = if width_max - width_min >= 0 { width_max - width_min } else { 0 };
            let k = rhythm_count(w);
            lemma_widths_len(xoshiro_advance(w), k, width_min, span);
            lemma_widths_positive(xoshiro_advance(w), k, width_min, span);
            let widths = rhythm_widths(xoshiro_advance(w), k, width_min, span).0;
            let extra = corner_extra_at(cfg, density as int);
            assert(rhythm_ok(widths, extra));
            let r = rhythm_rects(strip, side, widths, extra, width_min + extra, row_len, 0, 0);
            assert(widths[0int % widths.len() as int] >= 1);
            assert(r.len() > 0);
        },
    }
}

/// The faces cut at least one plot, or cut nothing and leave the block.
proof fn lemma_faces_cut_nonempty(
    cfg: GenerationConfig,
    block: u32,
    u: LandUse,
    density: i32,
    depths: (int, int, int, int),
    bounds: Rect,
    w: Seq<u64>,
    i: int,
)
    requires
        cfg.plot_width_min_cells[use_index(u)] >= 1,
    ensures
        ({
            let c = faces_cut(cfg, block, u, density, depths, bounds, w, i);
            c.0.len() > 0 || (c.0.len() == 0 && c.1 == bounds)
        }),
    decreases i,
{
    if i > 0 {
        lemma_faces_cut_nonempty(cfg, block, u, density, depths, bounds, w, i - 1);
        let prev = faces_cut(cfg, block, u, density, depths, bounds, w, i - 1);
        let side = face_at(i - 1);
        lemma_face_row_nonempty(cfg, block, u, density, side, depth_on(depths, side), prev.1, prev.2);
    }
}

/// A block with positive width and height gets at least one plot, each
/// naming it.
proof fn lemma_block_plots_nonempty(
    city_seed: u64,
    lu: LandUseMap,
    site: SiteBounds,
    cfg: GenerationConfig,
    index: int,
    b: Rect,
)
    requires
        b.spec_is_valid(),
        forall|i: int| 0 <= i < 4 ==> cfg.plot_width_min_cells[i] >= 1,
        forall|i: int| 0 <= i < 4 ==> cfg.plot_width_max_cells[i] - cfg.plot_width_min_cells[i] <= 0xFFFF_FFFF,
    ensures
        spec_block_plots(city_seed, lu, site, cfg, index, b).len() > 0,
        forall|j: int|
            0 <= j < spec_block_plots(city_seed, lu, site, cfg, index, b).len() ==> (
            #[trigger] spec_block_plots(city_seed, lu, site, cfg, index, b)[j]).block == index as u32,
{
    let block = index as u32;
    let u = spec_block_land_use(lu, b);
    let density = block_density(lu, b, site, cfg);
    let sides = spec_block_sides(b, site);
    assert(use_index(u) < 4);
    if sides.north || sides.east || sides.south || sides.west {
        let w = seeded_state(spec_seed_from_ids(spec_seed_from_ids(city_seed, PASS_ID), spec_rect_seed_key(b)));
        let d = face_depths(cfg, b, sides, u, density as int);
        lemma_faces_cut_nonempty(cfg, block, u, density, d, b, w, 4);
        lemma_faces_cut_inside(cfg, block, u, density, d, b, w, 4);
    }
}

/// Every block before `k` with positive width and height has a plot
/// among the plots of the first `k` blocks.
proof fn lemma_plots_of_blocks_cover(
    city_seed: u64,
    lu: LandUseMap,
    site: SiteBounds,
    cfg: GenerationConfig,
    blocks: Seq<Block>,
    k: int,
)
    requires
        0 <= k <= blocks.len() <= u32::MAX,
        forall|i: int| 0 <= i < 4 ==> cfg.plot_width_min_cells[i] >= 1,
        forall|i: int| 0 <= i < 4 ==> cfg.plot_width_max_cells[i] - cfg.plot_width_min_cells[i] <= 0xFFFF_FFFF,
    ensures
        forall|b: int|
            0 <= b < k && (#[trigger] blocks[b]).bounds.spec_is_valid() ==> exists|j: int|
                0 <= j < plots_of_blocks(city_seed, lu, site, cfg, blocks, k).len()
                    && #[trigger] plots_of_blocks(city_seed, lu, site, cfg, blocks, k)[j].block == b,
    decreases k,
{
    if k > 0 {
        lemma_plots_of_blocks_cover(city_seed, lu, site, cfg, blocks, k - 1);
        let prev = plots_of_blocks(city_seed, lu, site, cfg, blocks, k - 1);
        let bp = spec_block_plots(city_seed, lu, site, cfg, k - 1, blocks[k - 1].bounds);
        let all = plots_of_blocks(city_seed, lu, site, cfg, blocks, k);
        assert(all == prev + bp);
        assert forall|b: int| 0 <= b < k && (#[trigger] blocks[b]).bounds.spec_is_valid() implies exists|j: int|
            0 <= j < all.len() && #[trigger] all[j].block == b by {
            if b < k - 1 {
                let j = choose|j: int| 0 <= j < prev.len() && #[trigger] prev[j].block == b;
                assert(all[j] == prev[j]);
            } else {
                lemma_block_plots_nonempty(city_seed, lu, site, cfg, k - 1, blocks[k - 1].bounds);
                assert(all[prev.len() as int] == bp[0]);
                assert(bp[0].block == (k - 1) as u32);
            }
        }
    }
}


/// `a` shares no cell with `r`, and `b` lies inside `r`: `a` and `b` share
/// no cell.
proof fn lemma_apart_inside(a: Rect, b: Rect, r: Rect)
    requires
        rects_apart(a, r),
        rect_inside(b, r),
    ensures
        rects_apart(a, b),
{
}

/// The plots of a row from `cursor` on start at or after the cursor and
/// share no cell with one another.
proof fn lemma_rhythm_apart(
    strip: Rect,
    side: Side,
    widths: Seq<int>,
    extra: int,
    last_min: int,
    row_len: int,
    cursor: int,
    wi: int,
)
    requires
        rhythm_ok(widths, extra),
        wi >= 0,
        0 <= cursor <= row_len,
        row_len == row_len_of(strip, side),
    ensures
        ({
            let r = rhythm_rects(strip, side, widths, extra, last_min, row_len, cursor, wi);
            &&& forall|j: int| 0 <= j < r.len() ==> row_base(strip, side) + cursor <= row_lo(#[trigger] r[j], side)
            &&& forall|i: int, j: int| 0 <= i < j < r.len() ==> rects_apart(#[trigger] r[i], #[trigger] r[j])
        }),
    decreases row_len - cursor,
{
    if cursor < row_len {
        let w = plot_width(widths, extra, last_min, row_len, cursor, wi);
        assert(widths[wi % widths.len() as int] >= 1);
        let head = spec_row_span(strip, side, cursor, cursor + w);
        let r = rhythm_rects(strip, side, widths, extra, last_min, row_len, cursor, wi);
        let rest = rhythm_rects(strip, side, widths, extra, last_min, row_len, cursor + w, wi + 1);
        assert(r == seq![head] + rest);
        lemma_rhythm_apart(strip, side, widths, extra, last_min, row_len, cursor + w, wi + 1);
        assert(row_hi(head, side) == row_base(strip, side) + cursor + w);
        assert forall|j: int| 0 <= j < r.len() implies row_base(strip, side) + cursor <= row_lo(#[trigger] r[j], side) by {
            if j > 0 {
                assert(r[j] == rest[j - 1]);
            }
        }
        assert forall|i: int, j: int| 0 <= i < j < r.len() implies rects_apart(#[trigger] r[i], #[trigger] r[j]) by {
            assert(r[j] == rest[j - 1]);
            if i > 0 {
                assert(r[i] == rest[i - 1]);
            } else {
                assert(row_hi(head, side) <= row_lo(r[j], side));
            }
        }
    }
}

/// A face row's plots share no cell with one another or with what it
/// leaves, and lie inside what it was given, as does what it leaves.
proof fn lemma_face_row_apart(
    cfg: GenerationConfig,
    block: u32,
    u: LandUse,
    density: i32,
    side: Side,
    depth: int,
    remaining: Rect,
    w: Seq<u64>,
)
    requires
        cfg.plot_width_max_cells[use_index(u)] - cfg.plot_width_min_cells[use_index(u)] <= 0xFFFF_FFFF,
    ensures
        ({
            let f = face_row(cfg, block, u, density, side, depth, remaining, w);
            &&& rect_inside(f.1, remaining)
            &&& forall|j: int| 0 <= j < f.0.len() ==> rect_inside((#[trigger] f.0[j]).bounds, remaining) && rects_apart(
                f.0[j].bounds,
                f.1,
            )
            &&& forall|i: int, j: int| 0 <= i < j < f.0.len() ==> rects_apart((#[trigger] f.0[i]).bounds, (#[trigger] f.0[j]).bounds)
        }),
{
    reveal(face_row);
    lemma_face_row_inside(cfg, block, u, density, side, depth, remaining, w);
    match spec_cut_strip(remaining, side, depth) {
        None => {},
        Some((strip, rest)) => {
            let ui = use_index(u);
            let width_min = cfg.plot_width_min_cells[ui] as int;
            let width_max = cfg.plot_width_max_cells[ui] as int;
            let row_len = row_len_of(strip, side);
            let f = face_row(cfg, block, u, density, side, depth, remaining, w);
            if row_len > 0 && width_min > 0 {
                let span = if width_max - width_min >= 0 { width_max - width_min } else { 0 };
                let k = rhythm_count(w);
                lemma_widths_len(xoshiro_advance(w), k, width_min, span);
                lemma_widths_positive(xoshiro_advance(w), k, width_min, span);
                let widths = rhythm_widths(xoshiro_advance(w), k, width_min, span).0;
                let extra = corner_extra_at(cfg, density as int);
                assert(rhythm_ok(widths, extra));
                lemma_rhythm_inside(strip, side, widths, extra, width_min + extra, row_len, 0, 0);
                lemma_rhythm_apart(strip, side, widths, extra, width_min + extra, row_len, 0, 0);
                let r = rhythm_rects(strip, side, widths, extra, width_min + extra, row_len, 0, 0);
                assert forall|j: int| 0 <= j < f.0.len() implies rects_apart((#[trigger] f.0[j]).bounds, f.1) by {
                    assert(f.0[j].bounds == r[j]);
                    assert(rect_inside(r[j], strip));
                }
                assert forall|i: int, j: int| 0 <= i < j < f.0.len() implies rects_apart(
                    (#[trigger] f.0[i]).bounds,
                    (#[trigger] f.0[j]).bounds,
                ) by {
                    assert(f.0[i].bounds == r[i] && f.0[j].bounds == r[j]);
                }
            }
        },
    }
}

/// The plots cut from the first `i` faces share no cell with one another
/// or with what is left of the block.
proof fn lemma_faces_cut_apart(
    cfg: GenerationConfig,
    block: u32,
    u: LandUse,
    density: i32,
    depths: (int, int, int, int),
    bounds: Rect,
    w: Seq<u64>,
    i: int,
)
    requires
        cfg.plot_width_max_cells[use_index(u)] - cfg.plot_width_min_cells[use_index(u)] <= 0xFFFF_FFFF,
    ensures
        ({
            let c = faces_cut(cfg, block, u, density, depths, bounds, w, i);
            &&& forall|j: int| 0 <= j < c.0.len() ==> rects_apart((#[trigger] c.0[j]).bounds, c.1)
            &&& forall|a: int, b: int| 0 <= a < b < c.0.len() ==> rects_apart((#[trigger] c.0[a]).bounds, (#[trigger] c.0[b]).bounds)
        }),
    decreases i,
{
    if i > 0 {
        lemma_faces_cut_apart(cfg, block, u, density, depths, bounds, w, i - 1);
        let prev = faces_cut(cfg, block, u, density, depths, bounds, w, i - 1);
        let side = face_at(i - 1);
        let f = face_row(cfg, block, u, density, side, depth_on(depths, side), prev.1, prev.2);
        lemma_face_row_apart(cfg, block, u, density, side, depth_on(depths, side), prev.1, prev.2);
        let c = faces_cut(cfg, block, u, density, depths, bounds, w, i);
        assert(c.0 == prev.0 + f.0);
        let n = prev.0.len();
        assert forall|j: int| 0 <= j < c.0.len() implies rects_apart((#[trigger] c.0[j]).bounds, c.1) by {
            if j >= n {
                assert(c.0[j] == f.0[j - n]);
            } else {
                assert(c.0[j] == prev.0[j]);
                lemma_apart_inside(prev.0[j].bounds, f.1, prev.1);
            }
        }
        assert forall|a: int, b: int| 0 <= a < b < c.0.len() implies rects_apart((#[trigger] c.0[a]).bounds, (#[trigger] c.0[b]).bounds) by {
            if b < n {
                assert(c.0[a] == prev.0[a] && c.0[b] == prev.0[b]);
            } else if a >= n {
                assert(c.0[a] == f.0[a - n] && c.0[b] == f.0[b - n]);
            } else {
                assert(c.0[a] == prev.0[a] && c.0[b] == f.0[b - n]);
                lemma_apart_inside(prev.0[a].bounds, f.0[b - n].bounds, prev.1);
            }
        }
    }
}

/// A block's plots share no cell with one another.
proof fn lemma_block_plots_apart(city_seed: u64, lu: LandUseMap, site: SiteBounds, cfg: GenerationConfig, index: int, b: Rect)
    requires
        forall|i: int| 0 <= i < 4 ==> cfg.plot_width_max_cells[i] - cfg.plot_width_min_cells[i] <= 0xFFFF_FFFF,
    ensures
        forall|i: int, j: int|
            0 <= i < j < spec_block_plots(city_seed, lu, site, cfg, index, b).len() ==> rects_apart(
                (#[trigger] spec_block_plots(city_seed, lu, site, cfg, index, b)[i]).bounds,
                (#[trigger] spec_block_plots(city_seed, lu, site, cfg, index, b)[j]).bounds,
            ),
{
    let block = index as u32;
    let u = spec_block_land_use(lu, b);
    let density = block_density(lu, b, site, cfg);
    let sides = spec_block_sides(b, site);
    assert(use_index(u) < 4);
    if sides.north || sides.east || sides.south || sides.west {
        let w = seeded_state(spec_seed_from_ids(spec_seed_from_ids(city_seed, PASS_ID), spec_rect_seed_key(b)));
        let d = face_depths(cfg, b, sides, u, density as int);
        lemma_faces_cut_apart(cfg, block, u, density, d, b, w, 4);
        let cut = faces_cut(cfg, block, u, density, d, b, w, 4);
        let bp = spec_block_plots(city_seed, lu, site, cfg, index, b);
        if cut.1.spec_width() > 0 && cut.1.spec_height() > 0 {
            assert(bp == cut.0.push(open_plot(cut.1, block, u, density)));
            assert forall|i: int, j: int| 0 <= i < j < bp.len() implies rects_apart(
                (#[trigger] bp[i]).bounds,
                (#[trigger] bp[j]).bounds,
            ) by {
                assert(bp[i] == cut.0[i]);
                if j < cut.0.len() {
                    assert(bp[j] == cut.0[j]);
                }
            }
        }
    }
}

/// Two plots of the first `k` blocks that name the same block share no
/// cell.
proof fn lemma_plots_of_blocks_apart(
    city_seed: u64,
    lu: LandUseMap,
    site: SiteBounds,
    cfg: GenerationConfig,
    blocks: Seq<Block>,
    k: int,
)
    requires
        0 <= k <= blocks.len() <= u32::MAX,
        forall|i: int| 0 <= i < 4 ==> cfg.plot_width_max_cells[i] - cfg.plot_width_min_cells[i] <= 0xFFFF_FFFF,
    ensures
        forall|i: int, j: int|
            0 <= i < plots_of_blocks(city_seed, lu, site, cfg, blocks, k).len() && 0 <= j < plots_of_blocks(
                city_seed,
                lu,
                site,
                cfg,
                blocks,
                k,
            ).len() && i != j && (#[trigger] plots_of_blocks(city_seed, lu, site, cfg, blocks, k)[i]).block
                == (#[trigger] plots_of_blocks(city_seed, lu, site, cfg, blocks, k)[j]).block ==> rects_apart(
                plots_of_blocks(city_seed, lu, site, cfg, blocks, k)[i].bounds,
                plots_of_blocks(city_seed, lu, site, cfg, blocks, k)[j].bounds,
            ),
    decreases k,
{
    if k > 0 {
        lemma_plots_of_blocks_apart(city_seed, lu, site, cfg, blocks, k - 1);
        lemma_plots_of_blocks_inside(city_seed, lu, site, cfg, blocks, k - 1);
        let prev = plots_of_blocks(city_seed, lu, site, cfg, blocks, k - 1);
        let b = blocks[k - 1].bounds;
        let bp = spec_block_plots(city_seed, lu, site, cfg, k - 1, b);
        let all = plots_of_blocks(city_seed, lu, site, cfg, blocks, k);
        assert(all == prev + bp);
        let n = prev.len();
        lemma_block_plots_apart(city_seed, lu, site, cfg, k - 1, b);
        let block = (k - 1) as u32;
        let u = spec_block_land_use(lu, b);
        let density = block_density(lu, b, site, cfg);
        let sides = spec_block_sides(b, site);
        assert(use_index(u) < 4);
        if sides.north || sides.east || sides.south || sides.west {
            let w = seeded_state(spec_seed_from_ids(spec_seed_from_ids(city_seed, PASS_ID), spec_rect_seed_key(b)));
            lemma_faces_cut_inside(cfg, block, u, density, face_depths(cfg, b, sides, u, density as int), b, w, 4);
        }
        assert forall|j: int| 0 <= j < bp.len() implies (#[trigger] bp[j]).block == block by {}
        assert forall|i: int, j: int|
            0 <= i < all.len() && 0 <= j < all.len() && i != j && (#[trigger] all[i]).block == (#[trigger] all[j]).block
            implies rects_apart(all[i].bounds, all[j].bounds) by {
            if i < n && j < n {
                assert(all[i] == prev[i] && all[j] == prev[j]);
            } else if i >= n && j >= n {
                assert(all[i] == bp[i - n] && all[j] == bp[j - n]);
                if i < j {
                    assert(rects_apart(bp[i - n].bounds, bp[j - n].bounds));
                } else {
                    assert(rects_apart(bp[j - n].bounds, bp[i - n].bounds));
                }
            } else if i < n {
                assert(all[i] == prev[i] && all[j] == bp[j - n]);
                assert(prev[i].block < k - 1);
            } else {
                assert(all[j] == prev[j] && all[i] == bp[i - n]);
                assert(prev[j].block < k - 1);
            }
        }
    }
}

} // verus!
