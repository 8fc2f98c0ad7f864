//! Pass 1: land use. Receives the city seed and the site bounds; hands
//! down a coarse residential/commercial/industrial/institutional split
//! across the site plus the density field every later pass reads. Districts
//! are grown by recursive axis-aligned subdivision of the coarse grid, so
//! every region boundary is a run of axis-aligned segments.

use vstd::prelude::*;
use super::{GenerationConfig, GenerationError, SiteBounds, PASS_LAND_USE, trunc_div, fits_i32};
use crate::rng::{Rng, seed_from_ids, spec_seed_from_ids, seeded_state, xoshiro_advance, xoshiro_output};
use crate::world::collision::{lemma_cell_index_bounds, lemma_cell_index_injective, spec_cell_index};
use crate::world::bits;
use crate::world::walkability::{
    label_components, labelling_ok, findings_ok, finding_ok, cells_labelled, at, component, region_matches,
    reachable, mpass, mask_matches, lemma_component_label, lemma_reach_label, lemma_labelled_bound, Finding,
    LABEL_MAX_CELLS,
};
use crate::world::collision::Rect;

verus! {

/// The four land uses. Open periphery is a low density of one of them,
/// never a fifth value.
#[derive(Debug, Clone, Copy, PartialEq, Eq, PartialOrd, Ord, Hash, Structural)]
pub enum LandUse {
    Residential,
    Commercial,
    Industrial,
    Institutional,
}

impl LandUse {
    /// Every land use, in declaration order.
    pub const ALL: [LandUse; 4] = [LandUse::Residential, LandUse::Commercial, LandUse::Industrial, LandUse::Institutional];
}

/// This pass's own stream id.
pub const PASS_ID: u64 = PASS_LAND_USE;

/// One coarse cell's own value: a land use and a density -- nothing finer.
#[derive(Debug, Clone, Copy, PartialEq, Eq, Structural)]
pub struct LandUseCell {
    pub use_: LandUse,
    pub density: i32,
}

/// A 4-connected component of equal land use over the coarse grid:
/// `bounds` is in coarse-cell coordinates, never world cells.
#[derive(Debug, Clone, Copy, PartialEq, Eq, Structural)]
pub struct Region {
    pub use_: LandUse,
    pub bounds: Rect,
    pub cell_count: u64,
}

/// The coarse grid `[0, cols) x [0, rows)`.
pub open spec fn grid_rect(cols: int, rows: int) -> Rect {
    Rect { x0: 0, y0: 0, x1: cols as i32, y1: rows as i32 }
}

/// The entry of a row-major `cols`-wide grid for `(x, y)`.
pub open spec fn cell_at(cells: Seq<LandUseCell>, cols: int, x: int, y: int) -> LandUseCell {
    cells[y * cols + x]
}

/// Pass 1's own output: a dense, row-major grid over the site's coarse
/// cells. Every one of `cols * rows` cells carries exactly one
/// [`LandUseCell`]; there is no unassigned value to fall into.
#[derive(Debug)]
pub struct LandUseMap {
    site: SiteBounds,
    cell_size: i32,
    cols: i32,
    rows: i32,
    cells: Vec<LandUseCell>,
}

impl LandUseMap {
    #[verifier::type_invariant]
    spec fn shape_ok(self) -> bool {
        &&& self.cols >= 1
        &&& self.rows >= 1
        &&& self.cell_size >= 1
        &&& self.cols * self.rows <= i32::MAX
        &&& self.cells.len() == self.cols * self.rows
    }

    pub closed spec fn spec_site(self) -> SiteBounds {
        self.site
    }

    pub closed spec fn spec_cell_size(self) -> int {
        self.cell_size as int
    }

    pub closed spec fn spec_cols(self) -> int {
        self.cols as int
    }

    pub closed spec fn spec_rows(self) -> int {
        self.rows as int
    }

    /// The cells, row-major.
    pub closed spec fn spec_cells(self) -> Seq<LandUseCell> {
        self.cells@
    }

    /// The coarse cell at `(cx, cy)`, `None` outside the grid.
    pub open spec fn spec_coarse_at(self, cx: int, cy: int) -> Option<LandUseCell> {
        if 0 <= cx < self.spec_cols() && 0 <= cy < self.spec_rows() {
            Some(cell_at(self.spec_cells(), self.spec_cols(), cx, cy))
        } else {
            None
        }
    }

    /// The coarse cell covering world-absolute `(x, y)`, `None` outside the
    /// site.
    pub open spec fn spec_at_world(self, x: int, y: int) -> Option<LandUseCell> {
        if self.spec_site().spec_contains(x, y) {
            self.spec_coarse_at(
                (x - self.spec_site().x0) / self.spec_cell_size(),
                (y - self.spec_site().y0) / self.spec_cell_size(),
            )
        } else {
            None
        }
    }

    pub fn site(&self) -> (r: SiteBounds)
        ensures
            r == self.spec_site(),
    {
        self.site
    }

    pub fn cell_size(&self) -> (r: i32)
        ensures
            r == self.spec_cell_size(),
            r >= 1,
    {
        proof {
            use_type_invariant(self);
        }
        self.cell_size
    }

    pub fn cols(&self) -> (r: i32)
        ensures
            r == self.spec_cols(),
            r >= 1,
    {
        proof {
            use_type_invariant(self);
        }
        self.cols
    }

    pub fn rows(&self) -> (r: i32)
        ensures
            r == self.spec_rows(),
            r >= 1,
    {
        proof {
            use_type_invariant(self);
        }
        self.rows
    }

    /// The coarse cell at coarse-grid coordinates `(cx, cy)`, `None`
    /// outside `[0, cols) x [0, rows)`.
    pub fn coarse_at(&self, cx: i32, cy: i32) -> (r: Option<LandUseCell>)
        ensures
            r == self.spec_coarse_at(cx as int, cy as int),
    {
        proof {
            use_type_invariant(self);
        }
        if cx < 0 || cy < 0 || cx >= self.cols || cy >= self.rows {
            return None;
        }
        proof {
            lemma_cell_index_bounds(grid_rect(self.cols as int, self.rows as int), cx as int, cy as int);
        }
        let idx = cy as usize * self.cols as usize + cx as usize;
        Some(self.cells[idx])
    }

    /// The coarse cell covering world-absolute `(x, y)`, `None` outside
    /// the site.
    pub fn at_world(&self, x: i32, y: i32) -> (r: Option<LandUseCell>)
        ensures
            r == self.spec_at_world(x as int, y as int),
    {
        proof {
            use_type_invariant(self);
        }
        if !self.site.contains(x, y) {
            return None;
        }
        let cx = (x as i64 - self.site.x0 as i64) / self.cell_size as i64;
        let cy = (y as i64 - self.site.y0 as i64) / self.cell_size as i64;
        if cx >= self.cols as i64 || cy >= self.rows as i64 {
            return None;
        }
        self.coarse_at(cx as i32, cy as i32)
    }
}

/// A land use's position in [`LandUse::ALL`].
pub open spec fn use_index(u: LandUse) -> int {
    match u {
        LandUse::Residential => 0,
        LandUse::Commercial => 1,
        LandUse::Industrial => 2,
        LandUse::Institutional => 3,
    }
}

pub fn land_use_index(u: LandUse) -> (i: usize)
    ensures
        i == use_index(u),
        i < 4,
{
    match u {
        LandUse::Residential => 0,
        LandUse::Commercial => 1,
        LandUse::Industrial => 2,
        LandUse::Institutional => 3,
    }
}

/// The jitter span of a split along an axis `len` cells long: `len *
/// pct / 100`, rounded toward zero and narrowed to `i32`.
pub open spec fn jitter_span(len: int, pct: int) -> i32 {
    trunc_div(len * pct, 100) as i32
}

/// Where a split of `[from, to)` lands: the midpoint moved by the jitter
/// drawn from `r` (none when `span` is not positive), clamped to leave at
/// least `min_leaf` on either side.
pub open spec fn split_pos(from: int, to: int, min_leaf: int, span: i32, r: u64) -> int {
    let mid = from + (to - from) / 2;
    let jitter: int = if span > 0 {
        ((r % ((2 * span + 1) as u64)) as i32) - span
    } else {
        0
    };
    let p = mid + jitter;
    if p < from + min_leaf {
        from + min_leaf
    } else if p > to - min_leaf {
        to - min_leaf
    } else {
        p
    }
}

/// The two halves of `rect` cut at `pos`: along x when `vertical`, else
/// along y.
pub open spec fn halves(rect: Rect, vertical: bool, pos: int) -> (Rect, Rect) {
    if vertical {
        (Rect { x1: pos as i32, ..rect }, Rect { x0: pos as i32, ..rect })
    } else {
        (Rect { y1: pos as i32, ..rect }, Rect { y0: pos as i32, ..rect })
    }
}

/// Whether [`subdivide`] splits `rect` at `depth`, and along which axis.
pub open spec fn split_axis(rect: Rect, cfg: GenerationConfig, depth: int) -> Option<bool> {
    let over_x = rect.spec_width() > cfg.land_use_max_leaf_cells;
    let over_y = rect.spec_height() > cfg.land_use_max_leaf_cells;
    if (!over_x && !over_y) || depth >= cfg.land_use_max_recursion_depth {
        None
    } else if over_x && over_y {
        Some(rect.spec_width() >= rect.spec_height())
    } else {
        Some(over_x)
    }
}

/// The leaves [`subdivide`] appends for `rect` at `depth` when the
/// generator's state words are `w`, in the order it appends them, and the
/// state words it leaves behind.
#[verifier::opaque]
pub open spec fn spec_subdivide(rect: Rect, cfg: GenerationConfig, w: Seq<u64>, depth: int) -> (Seq<Rect>, Seq<u64>)
    decreases cfg.land_use_max_recursion_depth - depth,
{
    match split_axis(rect, cfg, depth) {
        None => (seq![rect], w),
        Some(vertical) => {
            let from: int = if vertical { rect.x0 as int } else { rect.y0 as int };
            let to: int = if vertical { rect.x1 as int } else { rect.y1 as int };
            let span = jitter_span(to - from, cfg.land_use_split_jitter_pct as int);
            let w1 = if span > 0 { xoshiro_advance(w) } else { w };
            let pos = split_pos(from, to, cfg.land_use_min_leaf_cells as int, span, xoshiro_output(w));
            let (c1, c2) = halves(rect, vertical, pos);
            let (l1, w2) = spec_subdivide(c1, cfg, w1, depth + 1);
            let (l2, w3) = spec_subdivide(c2, cfg, w2, depth + 1);
            (l1 + l2, w3)
        },
    }
}

/// What [`subdivide`] needs of the configuration: a non-negative minimum
/// leaf, and a maximum at least twice it so an over-sized axis can always
/// be split legally.
pub open spec fn leaf_limits_ok(cfg: GenerationConfig) -> bool {
    &&& 0 <= cfg.land_use_min_leaf_cells
    &&& cfg.land_use_max_leaf_cells >= 2 * cfg.land_use_min_leaf_cells
}

/// `r` spans a non-negative extent on both axes, inside the non-negative
/// `i32` quadrant.
pub open spec fn quadrant_rect(r: Rect) -> bool {
    0 <= r.x0 <= r.x1 && 0 <= r.y0 <= r.y1
}

/// `a` lies inside `b`.
pub open spec fn rect_within(a: Rect, b: Rect) -> bool {
    b.x0 <= a.x0 && a.x1 <= b.x1 && b.y0 <= a.y0 && a.y1 <= b.y1
}

/// What a subdivision of `rect` into `leaves` promises: each leaf inside
/// `rect` and at least `min_leaf` on both axes, no two leaves overlapping,
/// every cell of `rect` inside some leaf.
pub open spec fn leaves_partition(rect: Rect, leaves: Seq<Rect>, min_leaf: int) -> bool {
    &&& forall|i: int|
        0 <= i < leaves.len() ==> {
            &&& rect_within(#[trigger] leaves[i], rect)
            &&& quadrant_rect(leaves[i])
            &&& leaves[i].spec_width() >= min_leaf
            &&& leaves[i].spec_height() >= min_leaf
        }
    &&& forall|i: int, j: int|
        0 <= i < j < leaves.len() ==> !(#[trigger] leaves[i]).spec_overlaps(#[trigger] leaves[j])
    &&& forall|x: int, y: int|
        rect.spec_contains(x, y) ==> exists|i: int| 0 <= i < leaves.len() && (#[trigger] leaves[i]).spec_contains(x, y)
}

/// Subdivision partitions: the leaves of `rect` tile it exactly, and every
/// leaf is at least `lo` on both axes whenever `rect` is and `lo` is at
/// most `land_use_min_leaf_cells` -- an axis is split only when it exceeds
/// the maximum, which is at least twice the minimum, and the cut is
/// clamped to leave the minimum on both sides. With `lo` the minimum
/// itself: a `rect` at least the minimum on both axes yields leaves that
/// all are too.
pub proof fn lemma_subdivide_partition(rect: Rect, cfg: GenerationConfig, w: Seq<u64>, depth: int, lo: int)
    requires
        leaf_limits_ok(cfg),
        quadrant_rect(rect),
        lo <= cfg.land_use_min_leaf_cells,
        rect.spec_width() >= lo,
        rect.spec_height() >= lo,
    ensures
        leaves_partition(rect, spec_subdivide(rect, cfg, w, depth).0, lo),
    decreases cfg.land_use_max_recursion_depth - depth,
{
    reveal(spec_subdivide);
    let m = lo;
    let ml = cfg.land_use_min_leaf_cells as int;
    match split_axis(rect, cfg, depth) {
        None => {
            let leaves = seq![rect];
            assert forall|x: int, y: int| rect.spec_contains(x, y) implies exists|i: int|
                0 <= i < leaves.len() && (#[trigger] leaves[i]).spec_contains(x, y) by {
                assert(leaves[0].spec_contains(x, y));
            }
        },
        Some(vertical) => {
            let from: int = if vertical { rect.x0 as int } else { rect.y0 as int };
            let to: int = if vertical { rect.x1 as int } else { rect.y1 as int };
            let span = jitter_span(to - from, cfg.land_use_split_jitter_pct as int);
            let w1 = if span > 0 { xoshiro_advance(w) } else { w };
            let pos = split_pos(from, to, ml, span, xoshiro_output(w));
            assert(to - from > cfg.land_use_max_leaf_cells);
            assert(from + ml <= pos <= to - ml);
            let (c1, c2) = halves(rect, vertical, pos);
            lemma_subdivide_partition(c1, cfg, w1, depth + 1, lo);
            let (l1, w2) = spec_subdivide(c1, cfg, w1, depth + 1);
            lemma_subdivide_partition(c2, cfg, w2, depth + 1, lo);
            let (l2, w3) = spec_subdivide(c2, cfg, w2, depth + 1);
            let leaves = l1 + l2;
            assert(spec_subdivide(rect, cfg, w, depth).0 == leaves);
            assert forall|i: int| 0 <= i < leaves.len() implies {
                &&& rect_within(#[trigger] leaves[i], rect)
                &&& quadrant_rect(leaves[i])
                &&& leaves[i].spec_width() >= m
                &&& leaves[i].spec_height() >= m
            } by {
                if i < l1.len() {
                    assert(leaves[i] == l1[i]);
                } else {
                    assert(leaves[i] == l2[i - l1.len()]);
                }
            }
            assert forall|i: int, j: int| 0 <= i < j < leaves.len() implies !(#[trigger] leaves[i]).spec_overlaps(
                #[trigger] leaves[j],
            ) by {
                if j < l1.len() {
                    assert(leaves[i] == l1[i] && leaves[j] == l1[j]);
                } else if i >= l1.len() {
                    assert(leaves[i] == l2[i - l1.len()] && leaves[j] == l2[j - l1.len()]);
                } else {
                    assert(leaves[i] == l1[i] && leaves[j] == l2[j - l1.len()]);
                    assert(rect_within(l1[i], c1));
                    assert(rect_within(l2[j - l1.len()], c2));
                }
            }
            assert forall|x: int, y: int| rect.spec_contains(x, y) implies exists|i: int|
                0 <= i < leaves.len() && (#[trigger] leaves[i]).spec_contains(x, y) by {
                if c1.spec_contains(x, y) {
                    let k = choose|k: int| 0 <= k < l1.len() && (#[trigger] l1[k]).spec_contains(x, y);
                    assert(leaves[k] == l1[k]);
                } else {
                    assert(c2.spec_contains(x, y));
                    let k = choose|k: int| 0 <= k < l2.len() && (#[trigger] l2[k]).spec_contains(x, y);
                    assert(leaves[k + l1.len()] == l2[k]);
                }
            }
        },
    }
}

/// The sum of the four land-use shares.
pub open spec fn share_total(cfg: GenerationConfig) -> int {
    cfg.share_residential_pct + cfg.share_commercial_pct + cfg.share_industrial_pct + cfg.share_institutional_pct
}

/// The running sums of the shares, in [`LandUse::ALL`] order, fit `i32`.
pub open spec fn shares_fit(cfg: GenerationConfig) -> bool {
    &&& fits_i32(cfg.share_residential_pct + cfg.share_commercial_pct)
    &&& fits_i32(cfg.share_residential_pct + cfg.share_commercial_pct + cfg.share_industrial_pct)
    &&& fits_i32(share_total(cfg))
}

/// The use a roll picks: the first whose running share sum exceeds the
/// roll, residential when none does.
pub open spec fn spec_pick(cfg: GenerationConfig, roll: int) -> LandUse {
    let a1 = cfg.share_residential_pct as int;
    let a2 = a1 + cfg.share_commercial_pct;
    let a3 = a2 + cfg.share_industrial_pct;
    let a4 = a3 + cfg.share_institutional_pct;
    if roll < a1 {
        LandUse::Residential
    } else if roll < a2 {
        LandUse::Commercial
    } else if roll < a3 {
        LandUse::Industrial
    } else if roll < a4 {
        LandUse::Institutional
    } else {
        LandUse::Residential
    }
}

/// The roll drawn from state `w`: the next word modulo the share total
/// (at least 1).
pub open spec fn share_roll(cfg: GenerationConfig, w: Seq<u64>) -> int {
    let t: int = if share_total(cfg) > 1 { share_total(cfg) } else { 1 };
    (xoshiro_output(w) % (t as u64)) as int
}

/// `n` uses drawn by share weight from state `w`, and the state after.
pub open spec fn spec_draw_weighted(cfg: GenerationConfig, w: Seq<u64>, n: nat) -> (Seq<LandUse>, Seq<u64>)
    decreases n,
{
    if n == 0 {
        (Seq::empty(), w)
    } else {
        let (s, w1) = spec_draw_weighted(cfg, w, (n - 1) as nat);
        (s.push(spec_pick(cfg, share_roll(cfg, w1))), xoshiro_advance(w1))
    }
}

/// `s` with entries `i` and `j` exchanged.
pub open spec fn swap_at(s: Seq<LandUse>, i: int, j: int) -> Seq<LandUse> {
    s.update(i, s[j]).update(j, s[i])
}

/// A Fisher-Yates shuffle of `s` from position `i` down to 1, each swap
/// partner drawn from state `w`; and the state after.
pub open spec fn spec_shuffle(s: Seq<LandUse>, w: Seq<u64>, i: int) -> (Seq<LandUse>, Seq<u64>)
    decreases i,
{
    if i <= 0 {
        (s, w)
    } else {
        let j = (xoshiro_output(w) % ((i + 1) as u64)) as int;
        spec_shuffle(swap_at(s, i, j), xoshiro_advance(w), i - 1)
    }
}

/// The first `count` of [`LandUse::ALL`] (at most all four).
pub open spec fn guaranteed_uses(count: int) -> Seq<LandUse> {
    seq![LandUse::Residential, LandUse::Commercial, LandUse::Industrial, LandUse::Institutional].take(
        if count < 4 { count } else { 4 },
    )
}

/// What [`draw_uses`] returns for `count` leaves from state `w`, and the
/// state after: the guaranteed uses, then weighted draws up to `count`,
/// then shuffled.
pub open spec fn spec_draw_uses(w: Seq<u64>, count: int, cfg: GenerationConfig) -> (Seq<LandUse>, Seq<u64>) {
    let base = guaranteed_uses(count);
    let (extra, w1) = spec_draw_weighted(cfg, w, (count - base.len()) as nat);
    spec_shuffle(base + extra, w1, count - 1)
}

proof fn lemma_shuffle_keeps(s: Seq<LandUse>, w: Seq<u64>, i: int)
    requires
        i < s.len() <= u64::MAX,
    ensures
        spec_shuffle(s, w, i).0.len() == s.len(),
        forall|u: LandUse| spec_shuffle(s, w, i).0.contains(u) <==> s.contains(u),
    decreases i,
{
    if i > 0 {
        let j = (xoshiro_output(w) % ((i + 1) as u64)) as int;
        assert((i + 1) as u64 == i + 1);
        assert(0 <= j <= i);
        let t = swap_at(s, i, j);
        assert forall|u: LandUse| t.contains(u) <==> s.contains(u) by {
            if t.contains(u) {
                let k = choose|k: int| 0 <= k < t.len() && t[k] == u;
                if k == j {
                    assert(s[i] == u);
                } else if k == i {
                    assert(s[j] == u);
                } else {
                    assert(s[k] == u);
                }
            }
            if s.contains(u) {
                let k = choose|k: int| 0 <= k < s.len() && s[k] == u;
                if k == i {
                    assert(t[j] == u);
                } else if k == j {
                    assert(t[i] == u);
                } else {
                    assert(t[k] == u);
                }
            }
        }
        lemma_shuffle_keeps(t, xoshiro_advance(w), i - 1);
    }
}

/// Every use is drawn whenever there are at least four leaves, and the
/// draw has exactly one use per leaf.
pub proof fn lemma_draw_uses_covers(w: Seq<u64>, count: int, cfg: GenerationConfig)
    requires
        0 <= count <= usize::MAX,
    ensures
        spec_draw_uses(w, count, cfg).0.len() == count,
        count >= 4 ==> forall|u: LandUse| #[trigger] spec_draw_uses(w, count, cfg).0.contains(u),
{
    let base = guaranteed_uses(count);
    let n = (count - base.len()) as nat;
    lemma_draw_weighted_len(cfg, w, n);
    let (extra, w1) = spec_draw_weighted(cfg, w, n);
    let all = base + extra;
    if count > 0 {
        lemma_shuffle_keeps(all, w1, count - 1);
    }
    assert(spec_draw_uses(w, count, cfg) == spec_shuffle(all, w1, count - 1));
    if count >= 4 {
        assert(base =~= seq![LandUse::Residential, LandUse::Commercial, LandUse::Industrial, LandUse::Institutional]);
        assert forall|u: LandUse| #[trigger] spec_draw_uses(w, count, cfg).0.contains(u) by {
            let k: int = match u {
                LandUse::Residential => 0,
                LandUse::Commercial => 1,
                LandUse::Industrial => 2,
                LandUse::Institutional => 3,
            };
            assert(all[k] == base[k]);
            assert(all[k] == u);
            assert(all.contains(u));
        }
    }
}

proof fn lemma_draw_weighted_len(cfg: GenerationConfig, w: Seq<u64>, n: nat)
    ensures
        spec_draw_weighted(cfg, w, n).0.len() == n,
    decreases n,
{
    if n > 0 {
        lemma_draw_weighted_len(cfg, w, (n - 1) as nat);
    }
}

/// Draws `count` land uses: one each of [`LandUse::ALL`] guaranteed
/// whenever `count >= 4` (for fewer, the first `count` of them), the rest
/// drawn by the configured shares, then shuffled (Fisher-Yates) so the
/// guaranteed ones are never predictably first.
fn draw_uses(rng: &mut Rng, count: usize, cfg: &GenerationConfig) -> (uses: Vec<LandUse>)
    requires
        shares_fit(*cfg),
        old(rng).words().len() == 4,
    ensures
        uses@ == spec_draw_uses(old(rng).words(), count as int, *cfg).0,
        uses.len() == count,
        final(rng).words() == spec_draw_uses(old(rng).words(), count as int, *cfg).1,
        final(rng).words().len() == 4,
{
    let ghost w0 = rng.words();
    let all = LandUse::ALL;
    let mut uses: Vec<LandUse> = Vec::new();
    let take = if count < 4 { count } else { 4 };
    let mut i: usize = 0;
    while i < take
        invariant
            take <= 4,
            take == (if count < 4 { count } else { 4 }),
            i <= take,
            all@ == seq![LandUse::Residential, LandUse::Commercial, LandUse::Industrial, LandUse::Institutional],
            uses@ == guaranteed_uses(count as int).take(i as int),
        decreases take - i,
    {
        uses.push(all[i]);
        i += 1;
        assert(uses@ =~= guaranteed_uses(count as int).take(i as int));
    }
    assert(uses@ =~= guaranteed_uses(count as int));
    let ghost base = uses@;
    let sr = cfg.share_residential_pct as i64;
    let sc = cfg.share_commercial_pct as i64;
    let si = cfg.share_industrial_pct as i64;
    let sn = cfg.share_institutional_pct as i64;
    let total = sr + sc + si + sn;
    let modulus: u64 = if total > 1 { total as u64 } else { 1 };
    while uses.len() < count
        invariant
            shares_fit(*cfg),
            base.len() == take,
            take <= count,
            take <= uses.len() <= count,
            total == share_total(*cfg),
            modulus == (if share_total(*cfg) > 1 { share_total(*cfg) } else { 1 }),
            sr == cfg.share_residential_pct,
            sc == cfg.share_commercial_pct,
            si == cfg.share_industrial_pct,
            sn == cfg.share_institutional_pct,
            rng.words().len() == 4,
            uses@ == base + spec_draw_weighted(*cfg, w0, (uses.len() - take) as nat).0,
            rng.words() == spec_draw_weighted(*cfg, w0, (uses.len() - take) as nat).1,
        decreases count - uses.len(),
    {
        let ghost n = (uses.len() - take) as nat;
        let ghost w1 = rng.words();
        let r = rng.next_u64();
        let roll = r % modulus;
        assert(roll as int == share_roll(*cfg, w1));
        let pick = if (roll as i64) < sr {
            LandUse::Residential
        } else if (roll as i64) < sr + sc {
            LandUse::Commercial
        } else if (roll as i64) < sr + sc + si {
            LandUse::Industrial
        } else if (roll as i64) < total {
            LandUse::Institutional
        } else {
            LandUse::Residential
        };
        uses.push(pick);
        proof {
            assert(spec_draw_weighted(*cfg, w0, (n + 1) as nat) == (
                spec_draw_weighted(*cfg, w0, n).0.push(spec_pick(*cfg, share_roll(*cfg, w1))),
                xoshiro_advance(w1),
            ));
            assert(uses@ =~= base + spec_draw_weighted(*cfg, w0, (n + 1) as nat).0);
        }
    }
    let ghost w1 = rng.words();
    let ghost pre = uses@;
    let len = uses.len();
    let mut k: usize = len;
    while k > 1
        invariant
            len == uses.len(),
            len == count,
            1 <= k <= len || (k == len && len <= 1),
            rng.words().len() == 4,
            spec_shuffle(uses@, rng.words(), k - 1) == spec_shuffle(pre, w1, len - 1),
        decreases k,
    {
        k -= 1;
        let ghost ws = rng.words();
        let ghost before = uses@;
        let r = rng.next_u64();
        let j = (r % (k as u64 + 1)) as usize;
        let a = uses[k];
        let b = uses[j];
        uses.set(k, b);
        uses.set(j, a);
        proof {
            assert(uses@ =~= swap_at(before, k as int, j as int));
        }
    }
    proof {
        assert(spec_shuffle(uses@, rng.words(), k - 1) == (uses@, rng.words()));
    }
    uses
}

/// Twice the distance of coarse index `c` from the centre of `n` cells.
pub open spec fn centre_dist2(c: int, n: int) -> int {
    let d = 2 * c - (n - 1);
    if d < 0 { -d } else { d }
}

/// The larger of `cols - 1` and `rows - 1`, at least 1: the largest
/// [`centre_dist2`] on the grid.
pub open spec fn max_dist2(cols: int, rows: int) -> int {
    let m = if cols >= rows { cols - 1 } else { rows - 1 };
    if m < 1 { 1 } else { m }
}

/// The Chebyshev-style distance of `(cx, cy)` from the grid's centre,
/// doubled.
pub open spec fn cell_dist2(cx: int, cy: int, cols: int, rows: int) -> int {
    let dx = centre_dist2(cx, cols);
    let dy = centre_dist2(cy, rows);
    if dx >= dy { dx } else { dy }
}

/// The density of coarse cell `(cx, cy)`: `density_max` at the centre,
/// falling linearly with [`cell_dist2`] to `density_min` at the farthest
/// cells, the fall rounded toward zero.
pub open spec fn spec_density_at(cx: int, cy: int, cols: int, rows: int, cfg: GenerationConfig) -> int {
    cfg.density_max - trunc_div(
        (cfg.density_max - cfg.density_min) * cell_dist2(cx, cy, cols, rows),
        max_dist2(cols, rows),
    )
}

pub proof fn lemma_fall_bounds(span: int, d: int, md: int)
    requires
        0 <= d <= md,
        md >= 1,
    ensures
        span >= 0 ==> 0 <= trunc_div(span * d, md) <= span,
        span < 0 ==> span <= trunc_div(span * d, md) <= 0,
{
    if span >= 0 {
        assert(0 <= span * d <= span * md) by (nonlinear_arith)
            requires
                span >= 0,
                0 <= d <= md,
        ;
        assert((span * md) / md == span) by (nonlinear_arith)
            requires
                md >= 1,
        ;
        vstd::arithmetic::div_mod::lemma_div_is_ordered(span * d, span * md, md);
        vstd::arithmetic::div_mod::lemma_div_pos_is_pos(span * d, md);
    } else {
        let n = -span;
        assert(0 <= n * d <= n * md) by (nonlinear_arith)
            requires
                n >= 0,
                0 <= d <= md,
        ;
        assert(span * d == -(n * d)) by (nonlinear_arith)
            requires
                n == -span,
        ;
        assert((n * md) / md == n) by (nonlinear_arith)
            requires
                md >= 1,
        ;
        vstd::arithmetic::div_mod::lemma_div_is_ordered(n * d, n * md, md);
        vstd::arithmetic::div_mod::lemma_div_pos_is_pos(n * d, md);
    }
}

/// Density stays within `[density_min, density_max]` (given `density_min
/// <= density_max`), is `density_min` at the farthest cells, and never
/// rises moving away from the centre: a cell at least as far out as
/// another is at most as dense. A cell strictly nearer the centre than the
/// farthest ones is strictly denser than `density_min` when the range is
/// not empty.
pub proof fn lemma_density_falloff(ax: int, ay: int, bx: int, by: int, cols: int, rows: int, cfg: GenerationConfig)
    requires
        cfg.density_min <= cfg.density_max,
        0 <= ax < cols,
        0 <= ay < rows,
        0 <= bx < cols,
        0 <= by < rows,
    ensures
        cfg.density_min <= spec_density_at(ax, ay, cols, rows, cfg) <= cfg.density_max,
        cell_dist2(ax, ay, cols, rows) <= cell_dist2(bx, by, cols, rows) ==> spec_density_at(bx, by, cols, rows, cfg)
            <= spec_density_at(ax, ay, cols, rows, cfg),
        (cols > 1 || rows > 1) && cell_dist2(ax, ay, cols, rows) == max_dist2(cols, rows) ==> spec_density_at(
            ax,
            ay,
            cols,
            rows,
            cfg,
        ) == cfg.density_min,
        cfg.density_min < cfg.density_max && cell_dist2(ax, ay, cols, rows) < max_dist2(cols, rows)
            ==> cfg.density_min < spec_density_at(ax, ay, cols, rows, cfg),
{
    let span = cfg.density_max - cfg.density_min;
    let md = max_dist2(cols, rows);
    let da = cell_dist2(ax, ay, cols, rows);
    let db = cell_dist2(bx, by, cols, rows);
    lemma_fall_bounds(span, da, md);
    lemma_fall_bounds(span, db, md);
    if da <= db {
        assert(span * da <= span * db) by (nonlinear_arith)
            requires
                span >= 0,
                da <= db,
        ;
        vstd::arithmetic::div_mod::lemma_div_is_ordered(span * da, span * db, md);
    }
    if (cols > 1 || rows > 1) && da == md {
        assert((span * md) / md == span) by (nonlinear_arith)
            requires
                md >= 1,
        ;
    }
    if span > 0 && da < md {
        assert(span * da <= span * md - span) by (nonlinear_arith)
            requires
                span > 0,
                da <= md - 1,
        ;
        assert((span * md - span) / md < span) by (nonlinear_arith)
            requires
                span > 0,
                md >= 1,
        ;
        vstd::arithmetic::div_mod::lemma_div_is_ordered(span * da, span * md - span, md);
    }
}

/// The density of coarse cell `(cx, cy)` on a `cols x rows` grid.
fn density_at(cx: i32, cy: i32, cols: i32, rows: i32, cfg: &GenerationConfig) -> (d: i32)
    requires
        0 <= cx < cols,
        0 <= cy < rows,
    ensures
        d == spec_density_at(cx as int, cy as int, cols as int, rows as int, *cfg),
{
    let dx0 = 2 * cx as i64 - (cols as i64 - 1);
    let dx = if dx0 < 0 { -dx0 } else { dx0 };
    let dy0 = 2 * cy as i64 - (rows as i64 - 1);
    let dy = if dy0 < 0 { -dy0 } else { dy0 };
    let dist2 = if dx >= dy { dx } else { dy };
    let m = if cols >= rows { cols as i64 - 1 } else { rows as i64 - 1 };
    let md = if m < 1 { 1 } else { m };
    let span = cfg.density_max as i64 - cfg.density_min as i64;
    assert(dist2 <= md);
    proof {
        lemma_fall_bounds(span as int, dist2 as int, md as int);
    }
    assert(-0xFFFF_FFFF * 0x7FFF_FFFF <= span * dist2 <= 0xFFFF_FFFF * 0x7FFF_FFFF) by (nonlinear_arith)
        requires
            -0xFFFF_FFFF <= span <= 0xFFFF_FFFF,
            0 <= dist2 <= 0x7FFF_FFFF,
    ;
    let fall = span * dist2 / md;
    (cfg.density_max as i64 - fall) as i32
}

/// `a`'s north-west corner comes strictly before `b`'s: by row, then by
/// column.
pub open spec fn corner_before(a: Rect, b: Rect) -> bool {
    a.y0 < b.y0 || (a.y0 == b.y0 && a.x0 < b.x0)
}

/// `t` is `s` stably sorted by north-west corner, entry `k` of `t` being
/// entry `p[k]` of `s`: a permutation, sorted, and leaves with the same
/// corner kept in their order in `s`.
pub open spec fn stable_corner_sort(s: Seq<Rect>, t: Seq<Rect>, p: Seq<int>) -> bool {
    &&& t.len() == s.len()
    &&& p.len() == s.len()
    &&& p.no_duplicates()
    &&& forall|k: int| 0 <= k < t.len() ==> 0 <= #[trigger] p[k] < s.len() && t[k] == s[p[k]]
    &&& forall|i: int| 0 <= i < s.len() ==> #[trigger] p.contains(i)
    &&& forall|i: int, j: int| 0 <= i < j < t.len() ==> !corner_before(#[trigger] t[j], #[trigger] t[i])
    &&& forall|i: int, j: int|
        0 <= i < j < t.len() && !corner_before(#[trigger] t[i], #[trigger] t[j]) ==> p[i] < p[j]
}

/// Sorts `s` by north-west corner, stably (an insertion sort).
fn sort_by_corner(s: &Vec<Rect>) -> (r: (Vec<Rect>, Ghost<Seq<int>>))
    ensures
        stable_corner_sort(s@, r.0@, r.1@),
{
    let mut t: Vec<Rect> = Vec::new();
    let ghost mut p: Seq<int> = Seq::empty();
    let n = s.len();
    let mut k: usize = 0;
    while k < n
        invariant
            n == s.len(),
            k <= n,
            t.len() == k,
            p.len() == k,
            p.no_duplicates(),
            forall|q: int| 0 <= q < k ==> 0 <= #[trigger] p[q] < k && t@[q] == s@[p[q]],
            forall|i: int| 0 <= i < k ==> #[trigger] p.contains(i),
            forall|i: int, j: int| 0 <= i < j < k ==> !corner_before(#[trigger] t@[j], #[trigger] t@[i]),
            forall|i: int, j: int|
                0 <= i < j < k && !corner_before(#[trigger] t@[i], #[trigger] t@[j]) ==> p[i] < p[j],
        decreases n - k,
    {
        let e = s[k];
        let mut pos: usize = k;
        while pos > 0 && (e.y0 < t[pos - 1].y0 || (e.y0 == t[pos - 1].y0 && e.x0 < t[pos - 1].x0))
            invariant
                t.len() == k,
                pos <= k,
                forall|q: int| pos <= q < k ==> corner_before(e, #[trigger] t@[q]),
            decreases pos,
        {
            pos -= 1;
        }
        proof {
            assert forall|q: int| 0 <= q < pos implies !corner_before(e, #[trigger] t@[q]) by {
                assert(!corner_before(e, t@[pos - 1]));
                if q < pos - 1 {
                    assert(!corner_before(t@[pos - 1], t@[q]));
                }
            }
        }
        let ghost old_t = t@;
        let ghost old_p = p;
        t.insert(pos, e);
        proof {
            p = old_p.insert(pos as int, k as int);
            assert forall|q: int| 0 <= q < k + 1 implies 0 <= #[trigger] p[q] < k + 1 && t@[q] == s@[p[q]] by {
                if q < pos {
                    assert(p[q] == old_p[q]);
                } else if q > pos {
                    assert(p[q] == old_p[q - 1]);
                }
            }
            assert forall|i: int| 0 <= i < k + 1 implies #[trigger] p.contains(i) by {
                if i == k {
                    assert(p[pos as int] == k);
                } else {
                    assert(old_p.contains(i));
                    let q = choose|q: int| 0 <= q < old_p.len() && old_p[q] == i;
                    if q < pos {
                        assert(p[q] == i);
                    } else {
                        assert(p[q + 1] == i);
                    }
                }
            }
            assert(p.no_duplicates()) by {
                assert forall|a: int, b: int| 0 <= a < p.len() && 0 <= b < p.len() && a != b implies p[a] != p[b] by {
                    if a != pos && b != pos {
                        let oa = if a < pos { a } else { a - 1 };
                        let ob = if b < pos { b } else { b - 1 };
                        assert(p[a] == old_p[oa] && p[b] == old_p[ob]);
                    } else if a == pos {
                        let ob = if b < pos { b } else { b - 1 };
                        assert(p[b] == old_p[ob]);
                    } else {
                        let oa = if a < pos { a } else { a - 1 };
                        assert(p[a] == old_p[oa]);
                    }
                }
            }
            assert forall|i: int, j: int| 0 <= i < j < k + 1 implies !corner_before(#[trigger] t@[j], #[trigger] t@[i]) by {
                let oi = if i < pos { i } else { i - 1 };
                let oj = if j < pos { j } else { j - 1 };
                if i != pos && j != pos {
                    assert(t@[i] == old_t[oi] && t@[j] == old_t[oj]);
                } else if i == pos {
                    assert(t@[j] == old_t[oj]);
                } else {
                    assert(t@[i] == old_t[oi]);
                }
            }
            assert forall|i: int, j: int|
                0 <= i < j < k + 1 && !corner_before(#[trigger] t@[i], #[trigger] t@[j]) implies p[i] < p[j] by {
                let oi = if i < pos { i } else { i - 1 };
                let oj = if j < pos { j } else { j - 1 };
                if i != pos && j != pos {
                    assert(t@[i] == old_t[oi] && t@[j] == old_t[oj]);
                    assert(p[i] == old_p[oi] && p[j] == old_p[oj]);
                } else if i == pos {
                    assert(t@[j] == old_t[oj]);
                } else {
                    assert(p[i] == old_p[oi]);
                }
            }
        }
        k += 1;
    }
    (t, Ghost(p))
}

fn clamp_i64(p: i64, lo: i64, hi: i64) -> (r: i64)
    requires
        lo <= hi,
    ensures
        r == (if p < lo { lo } else if p > hi { hi } else { p }),
{
    if p < lo {
        lo
    } else if p > hi {
        hi
    } else {
        p
    }
}

/// Recursively splits `rect` (coarse-cell coordinates) into leaves no
/// larger than `cfg.land_use_max_leaf_cells` on either axis, appending them
/// to `leaves`. An axis is split if and only if it exceeds the maximum;
/// the two children are `[from, pos)` and `[pos, to)`, adjacent with no
/// gap, with `pos` jittered about the midpoint and clamped to leave at
/// least `cfg.land_use_min_leaf_cells` on both sides.
#[verifier::rlimit(40)]
pub fn subdivide(rect: Rect, cfg: &GenerationConfig, rng: &mut Rng, depth: u32, leaves: &mut Vec<Rect>)
    requires
        leaf_limits_ok(*cfg),
        quadrant_rect(rect),
        old(rng).words().len() == 4,
    ensures
        final(leaves)@ == old(leaves)@ + spec_subdivide(rect, *cfg, old(rng).words(), depth as int).0,
        final(rng).words() == spec_subdivide(rect, *cfg, old(rng).words(), depth as int).1,
        final(rng).words().len() == 4,
    decreases cfg.land_use_max_recursion_depth - depth,
{
    reveal(spec_subdivide);
    let ghost w = rng.words();
    let max_leaf = cfg.land_use_max_leaf_cells as i64;
    let over_x = rect.width() > max_leaf;
    let over_y = rect.height() > max_leaf;
    if (!over_x && !over_y) || depth >= cfg.land_use_max_recursion_depth {
        leaves.push(rect);
        proof {
            assert(final(leaves)@ =~= old(leaves)@ + seq![rect]);
        }
        return;
    }
    let vertical = if over_x && over_y {
        rect.width() >= rect.height()
    } else {
        over_x
    };
    let (from, to) = if vertical {
        (rect.x0 as i64, rect.x1 as i64)
    } else {
        (rect.y0 as i64, rect.y1 as i64)
    };
    let len = to - from;
    let min_leaf = cfg.land_use_min_leaf_cells as i64;
    let mid = from + len / 2;
    let pct = cfg.land_use_split_jitter_pct as i64;
    assert(i32::MIN * 0x8000_0000 <= len * pct <= i32::MAX * 0x8000_0000) by (nonlinear_arith)
        requires
            0 <= len <= 0x8000_0000,
            i32::MIN <= pct <= i32::MAX,
    ;
    let span = (len * pct / 100) as i32;
    let ghost r0 = xoshiro_output(w);
    let jitter: i64 = if span > 0 {
        let r = rng.next_u64();
        ((r % (2 * span as u64 + 1)) as i32) as i64 - span as i64
    } else {
        0
    };
    let lo = from + min_leaf;
    let hi = to - min_leaf;
    let pos = clamp_i64(mid + jitter, lo, hi);
    assert(pos == split_pos(from as int, to as int, min_leaf as int, span, r0));
    let (c1, c2) = if vertical {
        (Rect { x1: pos as i32, ..rect }, Rect { x0: pos as i32, ..rect })
    } else {
        (Rect { y1: pos as i32, ..rect }, Rect { y0: pos as i32, ..rect })
    };
    assert((c1, c2) == halves(rect, vertical, pos as int));
    let ghost w1 = rng.words();
    subdivide(c1, cfg, rng, depth + 1, leaves);
    let ghost mid_leaves = leaves@;
    subdivide(c2, cfg, rng, depth + 1, leaves);
    proof {
        let l1 = spec_subdivide(c1, *cfg, w1, depth + 1).0;
        let l2 = spec_subdivide(c2, *cfg, spec_subdivide(c1, *cfg, w1, depth + 1).1, depth + 1).0;
        assert(final(leaves)@ =~= old(leaves)@ + (l1 + l2));
    }
}

/// The coarse cell size `run` works at: the configured one, at least 1.
pub open spec fn coarse_size(cfg: GenerationConfig) -> int {
    if cfg.coarse_cell_size_cells >= 1 { cfg.coarse_cell_size_cells as int } else { 1 }
}

/// The coarse cells across a site extent `len` cells long (the extent
/// narrowed to `i32`, divided toward zero), at least 1.
pub open spec fn grid_extent(len: int, cfg: GenerationConfig) -> int {
    let c = trunc_div((len as i32) as int, coarse_size(cfg));
    if c >= 1 { c } else { 1 }
}

/// The generator state pass 1 starts from for `city_seed`.
pub open spec fn run_words(city_seed: u64) -> Seq<u64> {
    seeded_state(spec_seed_from_ids(city_seed, PASS_ID))
}

/// The leaves pass 1 subdivides the grid of `site` into, in the order it
/// appends them, and the generator state after.
pub open spec fn run_leaves(city_seed: u64, site: SiteBounds, cfg: GenerationConfig) -> (Seq<Rect>, Seq<u64>) {
    spec_subdivide(
        grid_rect(grid_extent(site.spec_width(), cfg), grid_extent(site.spec_height(), cfg)),
        cfg,
        run_words(city_seed),
        0,
    )
}

/// The cell written for `(x, y)` with use `u`.
pub open spec fn paint_cell(u: LandUse, x: int, y: int, cols: int, rows: int, cfg: GenerationConfig) -> LandUseCell {
    LandUseCell { use_: u, density: spec_density_at(x, y, cols, rows, cfg) as i32 }
}

/// The value cell `(x, y)` holds after painting the first `n` leaves in
/// order, leaf `k` with use `uses[k]`: the last leaf containing it wins,
/// and a cell no leaf contains stays residential at density 0.
pub open spec fn painted(
    t: Seq<Rect>,
    uses: Seq<LandUse>,
    cols: int,
    rows: int,
    cfg: GenerationConfig,
    x: int,
    y: int,
    n: int,
) -> LandUseCell
    decreases n,
{
    if n <= 0 {
        LandUseCell { use_: LandUse::Residential, density: 0 }
    } else if t[n - 1].spec_contains(x, y) {
        paint_cell(uses[n - 1], x, y, cols, rows, cfg)
    } else {
        painted(t, uses, cols, rows, cfg, x, y, n - 1)
    }
}

/// `cells` is the `cols x rows` grid painted with leaves `t` and their
/// uses.
pub open spec fn cells_painted(
    cells: Seq<LandUseCell>,
    t: Seq<Rect>,
    uses: Seq<LandUse>,
    cols: int,
    rows: int,
    cfg: GenerationConfig,
) -> bool {
    &&& cells.len() == cols * rows
    &&& forall|x: int, y: int|
        0 <= x < cols && 0 <= y < rows ==> #[trigger] cell_at(cells, cols, x, y) == painted(
            t,
            uses,
            cols,
            rows,
            cfg,
            x,
            y,
            t.len() as int,
        )
}

/// `cells` is what pass 1 paints for `city_seed`: the subdivision's
/// leaves, stably sorted by north-west corner, each painted with the use
/// drawn for its position in that order.
pub open spec fn land_use_outcome(city_seed: u64, site: SiteBounds, cfg: GenerationConfig, cells: Seq<LandUseCell>) -> bool {
    let (l0, w1) = run_leaves(city_seed, site, cfg);
    &&& l0.len() <= usize::MAX
    &&& exists|t: Seq<Rect>, p: Seq<int>|
        #[trigger] stable_corner_sort(l0, t, p) && cells_painted(
            cells,
            t,
            spec_draw_uses(w1, l0.len() as int, cfg).0,
            grid_extent(site.spec_width(), cfg),
            grid_extent(site.spec_height(), cfg),
            cfg,
        )
}

/// What [`run`] needs: legal leaf limits, share sums that fit `i32`, and a
/// coarse grid whose cell count fits `i32`.
pub open spec fn run_ok(site: SiteBounds, cfg: GenerationConfig) -> bool {
    &&& leaf_limits_ok(cfg)
    &&& shares_fit(cfg)
    &&& grid_extent(site.spec_width(), cfg) * grid_extent(site.spec_height(), cfg) <= i32::MAX
}

/// Paints every cell of `leaf` (inside the `cols x rows` grid) with use
/// `u` and its density; every other cell keeps its value.
fn paint_leaf(cells: &mut Vec<LandUseCell>, leaf: Rect, u: LandUse, cols: i32, rows: i32, cfg: &GenerationConfig)
    requires
        1 <= cols,
        1 <= rows,
        cols * rows <= i32::MAX,
        old(cells).len() == cols * rows,
        0 <= leaf.x0 <= leaf.x1 <= cols,
        0 <= leaf.y0 <= leaf.y1 <= rows,
    ensures
        final(cells).len() == cols * rows,
        forall|x: int, y: int|
            0 <= x < cols && 0 <= y < rows ==> #[trigger] cell_at(final(cells)@, cols as int, x, y) == (if leaf.spec_contains(
                x,
                y,
            ) {
                paint_cell(u, x, y, cols as int, rows as int, *cfg)
            } else {
                cell_at(old(cells)@, cols as int, x, y)
            }),
{
    let ghost orig = cells@;
    let mut cy = leaf.y0;
    while cy < leaf.y1
        invariant
            0 <= leaf.x0 <= leaf.x1 <= cols,
            0 <= leaf.y0 <= leaf.y1 <= rows,
            leaf.y0 <= cy <= leaf.y1,
            1 <= cols,
            1 <= rows,
            cols * rows <= i32::MAX,
            cells.len() == cols * rows,
            orig.len() == cols * rows,
            forall|x: int, y: int|
                0 <= x < cols && 0 <= y < rows ==> #[trigger] cell_at(cells@, cols as int, x, y) == (if leaf.spec_contains(
                    x,
                    y,
                ) && y < cy {
                    paint_cell(u, x, y, cols as int, rows as int, *cfg)
                } else {
                    cell_at(orig, cols as int, x, y)
                }),
        decreases leaf.y1 - cy,
    {
        let mut cx = leaf.x0;
        while cx < leaf.x1
            invariant
                0 <= leaf.x0 <= leaf.x1 <= cols,
                0 <= leaf.y0 <= leaf.y1 <= rows,
                leaf.y0 <= cy < leaf.y1,
                leaf.x0 <= cx <= leaf.x1,
                1 <= cols,
                1 <= rows,
                cols * rows <= i32::MAX,
                cells.len() == cols * rows,
                orig.len() == cols * rows,
                forall|x: int, y: int|
                    0 <= x < cols && 0 <= y < rows ==> #[trigger] cell_at(cells@, cols as int, x, y) == (if leaf.spec_contains(
                        x,
                        y,
                    ) && (y < cy || (y == cy && x < cx)) {
                        paint_cell(u, x, y, cols as int, rows as int, *cfg)
                    } else {
                        cell_at(orig, cols as int, x, y)
                    }),
            decreases leaf.x1 - cx,
        {
            let ghost g = grid_rect(cols as int, rows as int);
            proof {
                lemma_cell_index_bounds(g, cx as int, cy as int);
            }
            assert(g.spec_width() == cols);
            let idx = cy as usize * cols as usize + cx as usize;
            assert(idx == cy * cols + cx);
            let d = density_at(cx, cy, cols, rows, cfg);
            let ghost before = cells@;
            cells.set(idx, LandUseCell { use_: u, density: d });
            proof {
                assert forall|x: int, y: int| 0 <= x < cols && 0 <= y < rows implies #[trigger] cell_at(
                    cells@,
                    cols as int,
                    x,
                    y,
                ) == (if leaf.spec_contains(x, y) && (y < cy || (y == cy && x < cx + 1)) {
                    paint_cell(u, x, y, cols as int, rows as int, *cfg)
                } else {
                    cell_at(orig, cols as int, x, y)
                }) by {
                    if x != cx || y != cy {
                        lemma_cell_index_injective(g, x, y, cx as int, cy as int);
                        lemma_cell_index_bounds(g, x, y);
                        assert(cell_at(cells@, cols as int, x, y) == cell_at(before, cols as int, x, y));
                    }
                }
            }
            cx += 1;
        }
        cy += 1;
    }
}

/// Runs pass 1: seeds its own stream from `(city_seed, PASS_ID)`,
/// recursively subdivides the coarse grid into leaves, sorts them by
/// north-west corner, draws a land use per leaf and paints each leaf's
/// cells with its use and the centre-to-periphery density falloff.
/// `site`'s extent is expected to be a whole multiple of the coarse cell
/// size; a remainder is simply truncated.
proof fn lemma_sorted_in_grid(l: Seq<Rect>, t: Seq<Rect>, p: Seq<int>, grid: Rect)
    requires
        stable_corner_sort(l, t, p),
        leaves_partition(grid, l, 0),
    ensures
        forall|j: int| 0 <= j < t.len() ==> rect_within(#[trigger] t[j], grid) && quadrant_rect(t[j]),
{
    assert forall|j: int| 0 <= j < t.len() implies rect_within(#[trigger] t[j], grid) && quadrant_rect(t[j]) by {
        assert(t[j] == l[p[j]]);
    }
}

/// The coarse cell size and the grid's columns and rows for `site`.
fn grid_dims(site: SiteBounds, cfg: &GenerationConfig) -> (r: (i32, i32, i32))
    ensures
        r.0 == coarse_size(*cfg),
        r.1 == grid_extent(site.spec_width(), *cfg),
        r.2 == grid_extent(site.spec_height(), *cfg),
        r.0 >= 1,
        r.1 >= 1,
        r.2 >= 1,
{
    let cell_size = if cfg.coarse_cell_size_cells >= 1 { cfg.coarse_cell_size_cells } else { 1 };
    let wc = site.width() as i32 / cell_size;
    let cols = if wc >= 1 { wc } else { 1 };
    let hc = site.height() as i32 / cell_size;
    let rows = if hc >= 1 { hc } else { 1 };
    (cell_size, cols, rows)
}

/// The `cols x rows` grid painted with `leaves` in order, leaf `k` with
/// `uses[k]`.
fn paint_all(leaves: &Vec<Rect>, uses: &Vec<LandUse>, cols: i32, rows: i32, cfg: &GenerationConfig) -> (cells: Vec<LandUseCell>)
    requires
        1 <= cols,
        1 <= rows,
        cols * rows <= i32::MAX,
        uses.len() == leaves.len(),
        forall|j: int| 0 <= j < leaves.len() ==> rect_within(#[trigger] leaves@[j], grid_rect(cols as int, rows as int)) && quadrant_rect(leaves@[j]),
    ensures
        cells_painted(cells@, leaves@, uses@, cols as int, rows as int, *cfg),
{
    let total = (cols * rows) as usize;
    let mut cells = vec![LandUseCell { use_: LandUse::Residential, density: 0 }; total];
    assert forall|x: int, y: int| 0 <= x < cols && 0 <= y < rows implies #[trigger] cell_at(cells@, cols as int, x, y)
        == painted(leaves@, uses@, cols as int, rows as int, *cfg, x, y, 0) by {
        lemma_cell_index_bounds(grid_rect(cols as int, rows as int), x, y);
    }
    let n = leaves.len();
    let mut k: usize = 0;
    while k < n
        invariant
            n == leaves.len(),
            n == uses.len(),
            k <= n,
            1 <= cols,
            1 <= rows,
            cols * rows <= i32::MAX,
            cells.len() == cols * rows,
            forall|j: int| 0 <= j < n ==> rect_within(#[trigger] leaves@[j], grid_rect(cols as int, rows as int)) && quadrant_rect(leaves@[j]),
            forall|x: int, y: int|
                0 <= x < cols && 0 <= y < rows ==> #[trigger] cell_at(cells@, cols as int, x, y) == painted(
                    leaves@,
                    uses@,
                    cols as int,
                    rows as int,
                    *cfg,
                    x,
                    y,
                    k as int,
                ),
        decreases n - k,
    {
        let leaf = leaves[k];
        let u = uses[k];
        assert(rect_within(leaves@[k as int], grid_rect(cols as int, rows as int)));
        let ghost before = cells@;
        paint_leaf(&mut cells, leaf, u, cols, rows, cfg);
        proof {
            assert forall|x: int, y: int| 0 <= x < cols && 0 <= y < rows implies #[trigger] cell_at(
                cells@,
                cols as int,
                x,
                y,
            ) == painted(leaves@, uses@, cols as int, rows as int, *cfg, x, y, k + 1) by {
                assert(leaves@[k as int] == leaf);
                assert(cell_at(before, cols as int, x, y) == painted(leaves@, uses@, cols as int, rows as int, *cfg, x, y, k as int));
            }
        }
        k += 1;
    }
    cells
}

/// Whether `site`'s width and height are whole multiples of the coarse
/// cell size.
pub open spec fn site_fits_grid(site: SiteBounds, cfg: GenerationConfig) -> bool {
    site.spec_width() % coarse_size(cfg) == 0 && site.spec_height() % coarse_size(cfg) == 0
}

/// `-w` is a multiple of `c` exactly when `w` is.
proof fn lemma_neg_mod_zero(w: int, c: int)
    requires
        c > 0,
    ensures
        (w % c == 0) == ((-w) % c == 0),
{
    vstd::arithmetic::div_mod::lemma_fundamental_div_mod(w, c);
    vstd::arithmetic::div_mod::lemma_fundamental_div_mod(-w, c);
    if w % c == 0 {
        assert(-w == (-(w / c)) * c) by (nonlinear_arith)
            requires
                w == c * (w / c),
        ;
        vstd::arithmetic::div_mod::lemma_mod_multiples_basic(-(w / c), c);
    }
    if (-w) % c == 0 {
        assert(w == (-((-w) / c)) * c) by (nonlinear_arith)
            requires
                -w == c * ((-w) / c),
        ;
        vstd::arithmetic::div_mod::lemma_mod_multiples_basic(-((-w) / c), c);
    }
}

/// Runs pass 1 on `site`: refuses a site whose extent is not a whole
/// multiple of the coarse cell size with [`GenerationError::InvalidSite`],
/// never truncating it; otherwise builds the map ([`paint_site`]).
#[verifier::spinoff_prover]
pub fn run(city_seed: u64, site: SiteBounds, cfg: &GenerationConfig) -> (r: Result<LandUseMap, GenerationError>)
    requires
        run_ok(site, *cfg),
    ensures
        match r {
            Ok(map) => {
                &&& site_fits_grid(site, *cfg)
                &&& map.spec_site() == site
                &&& map.spec_cell_size() == coarse_size(*cfg)
                &&& map.spec_cols() == grid_extent(site.spec_width(), *cfg)
                &&& map.spec_rows() == grid_extent(site.spec_height(), *cfg)
                &&& land_use_outcome(city_seed, site, *cfg, map.spec_cells())
            },
            Err(e) => !site_fits_grid(site, *cfg) && e == (GenerationError::InvalidSite {
                site,
                coarse_cell_size_cells: cfg.coarse_cell_size_cells,
            }),
        },
{
    let cell: i64 = if cfg.coarse_cell_size_cells >= 1 {
        cfg.coarse_cell_size_cells as i64
    } else {
        1
    };
    let w = site.width();
    let h = site.height();
    let w_abs = if w >= 0 { w } else { -w };
    let h_abs = if h >= 0 { h } else { -h };
    proof {
        lemma_neg_mod_zero(w as int, cell as int);
        lemma_neg_mod_zero(h as int, cell as int);
    }
    if w_abs % cell != 0 || h_abs % cell != 0 {
        return Err(GenerationError::InvalidSite { site, coarse_cell_size_cells: cfg.coarse_cell_size_cells });
    }
    Ok(paint_site(city_seed, site, cfg))
}

/// Pass 1's map of a site: seeds its own stream from `(city_seed,
/// PASS_ID)`, recursively subdivides the coarse grid into leaves, sorts
/// them by north-west corner, draws a land use per leaf and paints each
/// leaf's cells with its use and the centre-to-periphery density falloff.
fn paint_site(city_seed: u64, site: SiteBounds, cfg: &GenerationConfig) -> (map: LandUseMap)
    requires
        run_ok(site, *cfg),
    ensures
        map.spec_site() == site,
        map.spec_cell_size() == coarse_size(*cfg),
        map.spec_cols() == grid_extent(site.spec_width(), *cfg),
        map.spec_rows() == grid_extent(site.spec_height(), *cfg),
        land_use_outcome(city_seed, site, *cfg, map.spec_cells()),
{
    let mut rng = Rng::new(seed_from_ids(city_seed, PASS_ID));
    let (cell_size, cols, rows) = grid_dims(site, cfg);
    let grid = Rect { x0: 0, y0: 0, x1: cols, y1: rows };
    assert(grid == grid_rect(cols as int, rows as int));
    let ghost w0 = rng.words();
    let mut leaves: Vec<Rect> = Vec::new();
    subdivide(grid, cfg, &mut rng, 0, &mut leaves);

    let (sorted, Ghost(perm)) = sort_by_corner(&leaves);
    let ghost w1 = rng.words();
    let uses = draw_uses(&mut rng, sorted.len(), cfg);
    assert(forall|j: int| 0 <= j < sorted.len() ==> rect_within(#[trigger] sorted@[j], grid) && quadrant_rect(sorted@[j])) by {
        lemma_subdivide_partition(grid, *cfg, w0, 0, 0);
        lemma_sorted_in_grid(leaves@, sorted@, perm, grid);
    }
    let cells = paint_all(&sorted, &uses, cols, rows, cfg);
    proof {
        let (l0, lw) = run_leaves(city_seed, site, *cfg);
        assert(l0 == leaves@);
        assert(lw == w1);
        assert(stable_corner_sort(l0, sorted@, perm));
    }
    LandUseMap { site, cell_size, cols, rows, cells }
}

/// Some cell of `cells` carries use `u`.
pub open spec fn use_present(cells: Seq<LandUseCell>, u: LandUse) -> bool {
    exists|i: int| 0 <= i < cells.len() && (#[trigger] cells[i]).use_ == u
}

proof fn lemma_painted_density(
    t: Seq<Rect>,
    uses: Seq<LandUse>,
    cols: int,
    rows: int,
    cfg: GenerationConfig,
    x: int,
    y: int,
    n: int,
    k: int,
)
    requires
        0 <= k < n <= t.len(),
        t[k].spec_contains(x, y),
    ensures
        painted(t, uses, cols, rows, cfg, x, y, n).density == spec_density_at(x, y, cols, rows, cfg) as i32,
    decreases n,
{
    if !t[n - 1].spec_contains(x, y) {
        lemma_painted_density(t, uses, cols, rows, cfg, x, y, n - 1, k);
    }
}

proof fn lemma_painted_unique(
    t: Seq<Rect>,
    uses: Seq<LandUse>,
    cols: int,
    rows: int,
    cfg: GenerationConfig,
    x: int,
    y: int,
    n: int,
    k: int,
)
    requires
        0 <= k < n <= t.len(),
        t[k].spec_contains(x, y),
        forall|j: int| 0 <= j < n && j != k ==> !(#[trigger] t[j]).spec_contains(x, y),
    ensures
        painted(t, uses, cols, rows, cfg, x, y, n) == paint_cell(uses[k], x, y, cols, rows, cfg),
    decreases n,
{
    if n - 1 != k {
        assert(!t[n - 1].spec_contains(x, y));
        lemma_painted_unique(t, uses, cols, rows, cfg, x, y, n - 1, k);
    }
}

/// On every map pass 1 paints, each coarse cell carries the density the
/// centre-to-periphery falloff gives it: the leaves cover the grid, so no
/// cell keeps its placeholder.
pub proof fn lemma_run_density(city_seed: u64, site: SiteBounds, cfg: GenerationConfig, cells: Seq<LandUseCell>)
    requires
        run_ok(site, cfg),
        land_use_outcome(city_seed, site, cfg, cells),
    ensures
        forall|x: int, y: int|
            0 <= x < grid_extent(site.spec_width(), cfg) && 0 <= y < grid_extent(site.spec_height(), cfg)
                ==> (#[trigger] cell_at(cells, grid_extent(site.spec_width(), cfg), x, y)).density
                == spec_density_at(
                x,
                y,
                grid_extent(site.spec_width(), cfg),
                grid_extent(site.spec_height(), cfg),
                cfg,
            ) as i32,
{
    let cols = grid_extent(site.spec_width(), cfg);
    let rows = grid_extent(site.spec_height(), cfg);
    let grid = grid_rect(cols, rows);
    let (l0, w1) = run_leaves(city_seed, site, cfg);
    let uses = spec_draw_uses(w1, l0.len() as int, cfg).0;
    let (t, p) = choose|t: Seq<Rect>, p: Seq<int>|
        #[trigger] stable_corner_sort(l0, t, p) && cells_painted(cells, t, uses, cols, rows, cfg);
    lemma_subdivide_partition(grid, cfg, run_words(city_seed), 0, 0);
    assert(l0 == spec_subdivide(grid, cfg, run_words(city_seed), 0).0);
    assert forall|x: int, y: int| 0 <= x < cols && 0 <= y < rows implies (#[trigger] cell_at(cells, cols, x, y)).density
        == spec_density_at(x, y, cols, rows, cfg) as i32 by {
        assert(grid.spec_contains(x, y));
        let i = choose|i: int| 0 <= i < l0.len() && (#[trigger] l0[i]).spec_contains(x, y);
        assert(p.contains(i));
        let k = choose|k: int| 0 <= k < p.len() && p[k] == i;
        assert(t[k] == l0[p[k]]);
        lemma_painted_density(t, uses, cols, rows, cfg, x, y, t.len() as int, k);
    }
}

/// Whenever pass 1's subdivision yields at least four leaves, each at
/// least one cell on a side, every land use appears on the map it paints.
pub proof fn lemma_run_all_uses(city_seed: u64, site: SiteBounds, cfg: GenerationConfig, cells: Seq<LandUseCell>)
    requires
        run_ok(site, cfg),
        land_use_outcome(city_seed, site, cfg, cells),
        1 <= cfg.land_use_min_leaf_cells,
        cfg.land_use_min_leaf_cells <= grid_extent(site.spec_width(), cfg),
        cfg.land_use_min_leaf_cells <= grid_extent(site.spec_height(), cfg),
        run_leaves(city_seed, site, cfg).0.len() >= 4,
    ensures
        forall|u: LandUse| #[trigger] use_present(cells, u),
{
    let cols = grid_extent(site.spec_width(), cfg);
    let rows = grid_extent(site.spec_height(), cfg);
    let grid = grid_rect(cols, rows);
    let (l0, w1) = run_leaves(city_seed, site, cfg);
    let uses = spec_draw_uses(w1, l0.len() as int, cfg).0;
    let (t, p) = choose|t: Seq<Rect>, p: Seq<int>|
        #[trigger] stable_corner_sort(l0, t, p) && cells_painted(cells, t, uses, cols, rows, cfg);
    let m = cfg.land_use_min_leaf_cells as int;
    lemma_subdivide_partition(grid, cfg, run_words(city_seed), 0, m);
    assert(l0 == spec_subdivide(grid, cfg, run_words(city_seed), 0).0);
    lemma_draw_uses_covers(w1, l0.len() as int, cfg);
    assert forall|u: LandUse| #[trigger] use_present(cells, u) by {
        assert(uses.contains(u));
        let k = choose|k: int| 0 <= k < uses.len() && uses[k] == u;
        let leaf = t[k];
        assert(leaf == l0[p[k]]);
        let (x, y) = (leaf.x0 as int, leaf.y0 as int);
        assert(leaf.spec_contains(x, y));
        assert forall|j: int| 0 <= j < t.len() && j != k implies !(#[trigger] t[j]).spec_contains(x, y) by {
            assert(t[j] == l0[p[j]]);
            assert(p[j] != p[k]);
            if p[j] < p[k] {
                assert(!l0[p[j]].spec_overlaps(l0[p[k]]));
            } else {
                assert(!l0[p[k]].spec_overlaps(l0[p[j]]));
            }
        }
        lemma_painted_unique(t, uses, cols, rows, cfg, x, y, t.len() as int, k);
        assert(0 <= x < cols && 0 <= y < rows);
        lemma_cell_index_bounds(grid, x, y);
        assert(cell_at(cells, cols, x, y).use_ == u);
        assert(cells[y * cols + x].use_ == u);
    }
}

/// The cells of `r`.
pub open spec fn rect_cells(r: Rect) -> Set<(int, int)> {
    Set::new(|c: (int, int)| r.spec_contains(c.0, c.1))
}

proof fn lemma_band_cells_len(x0: int, x1: int, y0: int, h: int)
    requires
        x0 <= x1,
        h >= 0,
    ensures
        Set::new(|c: (int, int)| x0 <= c.0 < x1 && y0 <= c.1 < y0 + h).finite(),
        Set::new(|c: (int, int)| x0 <= c.0 < x1 && y0 <= c.1 < y0 + h).len() == (x1 - x0) * h,
    decreases h,
{
    let s = Set::new(|c: (int, int)| x0 <= c.0 < x1 && y0 <= c.1 < y0 + h);
    if h == 0 {
        assert(s =~= Set::empty());
    } else {
        lemma_band_cells_len(x0, x1, y0, h - 1);
        let prev = Set::new(|c: (int, int)| x0 <= c.0 < x1 && y0 <= c.1 < y0 + h - 1);
        let y = y0 + h - 1;
        let f = |x: int| (x, y);
        vstd::set_lib::lemma_int_range(x0, x1);
        let row = vstd::set_lib::set_int_range(x0, x1).map(f);
        assert(vstd::relations::injective_on(f, vstd::set_lib::set_int_range(x0, x1)));
        vstd::set_lib::lemma_map_size(vstd::set_lib::set_int_range(x0, x1), row, f);
        assert forall|c: (int, int)| s.contains(c) <==> (prev + row).contains(c) by {
            if s.contains(c) && c.1 == y {
                assert(vstd::set_lib::set_int_range(x0, x1).contains(c.0));
                assert(f(c.0) == c);
            }
        }
        assert(s =~= prev + row);
        assert(prev.disjoint(row));
        vstd::set_lib::lemma_set_disjoint_lens(prev, row);
        assert((x1 - x0) * (h - 1) + (x1 - x0) == (x1 - x0) * h) by (nonlinear_arith);
    }
}

/// A rect of `w x h` cells holds `w * h` of them.
pub proof fn lemma_rect_cells_len(r: Rect)
    requires
        r.x0 <= r.x1,
        r.y0 <= r.y1,
    ensures
        rect_cells(r).finite(),
        rect_cells(r).len() == r.spec_width() * r.spec_height(),
{
    lemma_band_cells_len(r.x0 as int, r.x1 as int, r.y0 as int, r.spec_height());
    assert(rect_cells(r) =~= Set::new(|c: (int, int)| r.x0 <= c.0 < r.x1 && r.y0 <= c.1 < r.y0 + r.spec_height()));
}

/// Any two cells of a rect whose every cell passes are joined by a walk
/// inside it: along the first cell's row, then along the second's column.
pub proof fn lemma_rect_walk(g: Rect, pass: spec_fn(int, int) -> bool, r: Rect, a: (int, int), b: (int, int))
    requires
        rect_within(r, g),
        forall|x: int, y: int| r.spec_contains(x, y) ==> #[trigger] pass(x, y),
        r.spec_contains(a.0, a.1),
        r.spec_contains(b.0, b.1),
    ensures
        reachable(g, pass, a, b),
{
    let adx = if b.0 >= a.0 { b.0 - a.0 } else { a.0 - b.0 };
    let ady = if b.1 >= a.1 { b.1 - a.1 } else { a.1 - b.1 };
    let p = Seq::new((adx + ady + 1) as nat, |i: int|
        if i <= adx {
            (if b.0 >= a.0 { a.0 + i } else { a.0 - i }, a.1)
        } else {
            (b.0, if b.1 >= a.1 { a.1 + (i - adx) } else { a.1 - (i - adx) })
        }
    );
    assert forall|i: int| 0 <= i < p.len() implies mpass(g, pass, (#[trigger] p[i]).0, p[i].1) by {
        assert(r.spec_contains(p[i].0, p[i].1));
    }
    assert forall|i: int| 0 <= i < p.len() - 1 implies crate::world::walkability::adj(#[trigger] p[i], p[i + 1]) by {}
    assert(crate::world::walkability::is_walk(g, pass, p));
    assert(p[0] == a);
    assert(p.last() == b);
}

/// Every cell of the `k`-th sorted leaf carries that leaf's drawn use.
proof fn lemma_leaf_cells_use(
    cells: Seq<LandUseCell>,
    l0: Seq<Rect>,
    t: Seq<Rect>,
    perm: Seq<int>,
    uses: Seq<LandUse>,
    cols: int,
    rows: int,
    cfg: GenerationConfig,
    k: int,
    x: int,
    y: int,
)
    requires
        stable_corner_sort(l0, t, perm),
        leaves_partition(grid_rect(cols, rows), l0, 0),
        cells_painted(cells, t, uses, cols, rows, cfg),
        1 <= cols <= i32::MAX,
        1 <= rows <= i32::MAX,
        0 <= k < t.len(),
        t[k].spec_contains(x, y),
    ensures
        0 <= x < cols && 0 <= y < rows,
        cell_at(cells, cols, x, y).use_ == uses[k],
{
    assert(t[k] == l0[perm[k]]);
    assert(rect_within(l0[perm[k]], grid_rect(cols, rows)));
    assert forall|j: int| 0 <= j < t.len() && j != k implies !(#[trigger] t[j]).spec_contains(x, y) by {
        assert(t[j] == l0[perm[j]]);
        assert(perm[j] != perm[k]);
        if perm[j] < perm[k] {
            assert(!l0[perm[j]].spec_overlaps(l0[perm[k]]));
        } else {
            assert(!l0[perm[k]].spec_overlaps(l0[perm[j]]));
        }
    }
    lemma_painted_unique(t, uses, cols, rows, cfg, x, y, t.len() as int, k);
    assert(cell_at(cells, cols, x, y) == painted(t, uses, cols, rows, cfg, x, y, t.len() as int));
}

/// On every map pass 1 paints whose subdivision leaves are at least
/// `land_use_min_leaf_cells` (at least 1) on both axes, every region holds
/// at least [`guaranteed_min_region_cells`] cells: a region contains the
/// whole leaf under any of its cells -- the leaf is one rect of one use --
/// and that leaf alone is at least the minimum squared.
#[verifier::rlimit(30)]
pub proof fn lemma_run_regions_min_size(city_seed: u64, site: SiteBounds, cfg: GenerationConfig, cells: Seq<LandUseCell>, rs: Seq<Region>)
    requires
        run_ok(site, cfg),
        land_use_outcome(city_seed, site, cfg, cells),
        1 <= cfg.land_use_min_leaf_cells,
        cfg.land_use_min_leaf_cells <= grid_extent(site.spec_width(), cfg),
        cfg.land_use_min_leaf_cells <= grid_extent(site.spec_height(), cfg),
        regions_ok(cells, grid_extent(site.spec_width(), cfg), grid_extent(site.spec_height(), cfg), rs),
    ensures
        forall|i: int| 0 <= i < rs.len() ==> (#[trigger] rs[i]).cell_count >= cfg.land_use_min_leaf_cells * cfg.land_use_min_leaf_cells,
{
    let cols = grid_extent(site.spec_width(), cfg);
    let rows = grid_extent(site.spec_height(), cfg);
    let g = grid_rect(cols, rows);
    let (l0, w1) = run_leaves(city_seed, site, cfg);
    let uses = spec_draw_uses(w1, l0.len() as int, cfg).0;
    let (t, perm) = choose|t: Seq<Rect>, p: Seq<int>|
        #[trigger] stable_corner_sort(l0, t, p) && cells_painted(cells, t, uses, cols, rows, cfg);
    let m = cfg.land_use_min_leaf_cells as int;
    lemma_subdivide_partition(g, cfg, run_words(city_seed), 0, 0);
    lemma_subdivide_partition(g, cfg, run_words(city_seed), 0, m);
    assert(l0 == spec_subdivide(g, cfg, run_words(city_seed), 0).0);
    assert(cols * rows <= i32::MAX);
    assert(cols <= i32::MAX && rows <= i32::MAX) by (nonlinear_arith)
        requires
            cols >= 1,
            rows >= 1,
            cols * rows <= i32::MAX,
    ;
    let reps = choose|reps: Seq<(int, int)>| #[trigger] region_reps(cells, cols, rows, rs, reps);
    assert forall|i: int| 0 <= i < rs.len() implies (#[trigger] rs[i]).cell_count >= m * m by {
        lemma_reps_at(cells, cols, rows, rs, reps, i);
        lemma_component_holds_leaf(cells, l0, t, perm, uses, cols, rows, cfg, reps[i], rs[i].use_);
    }
}

proof fn lemma_reps_at(cells: Seq<LandUseCell>, cols: int, rows: int, rs: Seq<Region>, reps: Seq<(int, int)>, i: int)
    requires
        region_reps(cells, cols, rows, rs, reps),
        0 <= i < rs.len(),
    ensures
        grid_rect(cols, rows).spec_contains(reps[i].0, reps[i].1),
        cell_at(cells, cols, reps[i].0, reps[i].1).use_ == rs[i].use_,
        component(grid_rect(cols, rows), use_pass(cells, cols, rs[i].use_), reps[i]).finite(),
        rs[i].cell_count == component(grid_rect(cols, rows), use_pass(cells, cols, rs[i].use_), reps[i]).len(),
{
    reveal(region_reps);
    assert(region_at(cells, cols, rows, rs[i], reps[i]));
}

/// The component of any cell holds the whole leaf under it, so it counts
/// at least that leaf's area.
proof fn lemma_component_holds_leaf(
    cells: Seq<LandUseCell>,
    l0: Seq<Rect>,
    t: Seq<Rect>,
    perm: Seq<int>,
    uses: Seq<LandUse>,
    cols: int,
    rows: int,
    cfg: GenerationConfig,
    rep: (int, int),
    u: LandUse,
)
    requires
        stable_corner_sort(l0, t, perm),
        leaves_partition(grid_rect(cols, rows), l0, 0),
        leaves_partition(grid_rect(cols, rows), l0, cfg.land_use_min_leaf_cells as int),
        1 <= cfg.land_use_min_leaf_cells,
        cells_painted(cells, t, uses, cols, rows, cfg),
        1 <= cols <= i32::MAX,
        1 <= rows <= i32::MAX,
        grid_rect(cols, rows).spec_contains(rep.0, rep.1),
        cell_at(cells, cols, rep.0, rep.1).use_ == u,
        component(grid_rect(cols, rows), use_pass(cells, cols, u), rep).finite(),
    ensures
        component(grid_rect(cols, rows), use_pass(cells, cols, u), rep).len() >= cfg.land_use_min_leaf_cells
            * cfg.land_use_min_leaf_cells,
{
    let g = grid_rect(cols, rows);
    let pass = use_pass(cells, cols, u);
    let m = cfg.land_use_min_leaf_cells as int;
    let j = choose|j: int| 0 <= j < l0.len() && (#[trigger] l0[j]).spec_contains(rep.0, rep.1);
    assert(perm.contains(j));
    let k = choose|k: int| 0 <= k < perm.len() && perm[k] == j;
    let leaf = t[k];
    assert(leaf == l0[perm[k]]);
    lemma_leaf_cells_use(cells, l0, t, perm, uses, cols, rows, cfg, k, rep.0, rep.1);
    assert(uses[k] == u);
    assert forall|x: int, y: int| leaf.spec_contains(x, y) implies #[trigger] pass(x, y) by {
        lemma_leaf_cells_use(cells, l0, t, perm, uses, cols, rows, cfg, k, x, y);
    }
    assert(rect_within(leaf, g));
    let comp = component(g, pass, rep);
    assert(rect_cells(leaf).subset_of(comp)) by {
        assert forall|c: (int, int)| rect_cells(leaf).contains(c) implies comp.contains(c) by {
            lemma_rect_walk(g, pass, leaf, rep, c);
        }
    }
    lemma_rect_cells_len(leaf);
    vstd::set_lib::lemma_len_subset(rect_cells(leaf), comp);
    assert(leaf.spec_width() >= m && leaf.spec_height() >= m);
    assert(leaf.spec_width() * leaf.spec_height() >= m * m) by (nonlinear_arith)
        requires
            leaf.spec_width() >= m,
            leaf.spec_height() >= m,
            m >= 1,
    ;
}

/// The lower bound on a region's size that subdivision guarantees: every
/// leaf is at least `land_use_min_leaf_cells` on both axes, so its area
/// is at least this square.
pub fn guaranteed_min_region_cells(cfg: &GenerationConfig) -> (r: u64)
    ensures
        r == (if cfg.land_use_min_leaf_cells > 0 { cfg.land_use_min_leaf_cells * cfg.land_use_min_leaf_cells } else { 0 }),
{
    let m: u64 = if cfg.land_use_min_leaf_cells > 0 { cfg.land_use_min_leaf_cells as u64 } else { 0 };
    assert(m * m <= 0x8000_0000u64 * 0x8000_0000u64) by (nonlinear_arith)
        requires
            m <= 0x8000_0000u64,
    ;
    m * m
}

/// Every distinct land use present anywhere on `map`, in [`LandUse::ALL`]
/// order.
pub fn uses_present(map: &LandUseMap) -> (r: Vec<LandUse>)
    ensures
        forall|u: LandUse| r@.contains(u) <==> #[trigger] use_present(map.spec_cells(), u),
        forall|i: int, j: int| 0 <= i < j < r.len() ==> use_index(#[trigger] r@[i]) < use_index(#[trigger] r@[j]),
{
    let n = map.cells.len();
    let mut seen = [false, false, false, false];
    let mut i: usize = 0;
    while i < n
        invariant
            n == map.cells.len(),
            i <= n,
            forall|u: LandUse| seen@[use_index(u)] <==> exists|k: int| 0 <= k < i && (#[trigger] map.cells@[k]).use_ == u,
        decreases n - i,
    {
        let u = map.cells[i].use_;
        let ui = land_use_index(u);
        seen[ui] = true;
        proof {
            assert forall|v: LandUse| seen@[use_index(v)] <==> exists|k: int| 0 <= k < i + 1 && (#[trigger] map.cells@[k]).use_ == v by {
                if v == u {
                    assert(map.cells@[i as int].use_ == v);
                }
            }
        }
        i += 1;
    }
    let mut r: Vec<LandUse> = Vec::new();
    let all = LandUse::ALL;
    let mut k: usize = 0;
    while k < 4
        invariant
            k <= 4,
            all@ == seq![LandUse::Residential, LandUse::Commercial, LandUse::Industrial, LandUse::Institutional],
            forall|u: LandUse| r@.contains(u) <==> (use_index(u) < k && seen@[use_index(u)]),
            forall|a: int| 0 <= a < r.len() ==> use_index(#[trigger] r@[a]) < k,
            forall|a: int, b: int| 0 <= a < b < r.len() ==> use_index(#[trigger] r@[a]) < use_index(#[trigger] r@[b]),
        decreases 4 - k,
    {
        let u = all[k];
        assert(use_index(u) == k);
        if seen[k] {
            let ghost before = r@;
            r.push(u);
            proof {
                assert forall|v: LandUse| r@.contains(v) <==> (use_index(v) < k + 1 && seen@[use_index(v)]) by {
                    if v == u {
                        assert(r@[r.len() - 1] == v);
                    }
                    if r@.contains(v) && v != u {
                        let a = choose|a: int| 0 <= a < r.len() && r@[a] == v;
                        assert(a < r.len() - 1);
                        assert(before[a] == v);
                        assert(before.contains(v));
                    }
                    if v != u && before.contains(v) {
                        let a = choose|a: int| 0 <= a < before.len() && before[a] == v;
                        assert(r@[a] == v);
                    }
                }
            }
        } else {
            proof {
                assert forall|v: LandUse| r@.contains(v) <==> (use_index(v) < k + 1 && seen@[use_index(v)]) by {
                    if use_index(v) == k {
                        assert(v == u);
                    }
                }
            }
        }
        k += 1;
    }
    r
}

/// The cells of a map's grid carrying use `u`.
pub open spec fn use_pass(cells: Seq<LandUseCell>, cols: int, u: LandUse) -> spec_fn(int, int) -> bool {
    |x: int, y: int| cell_at(cells, cols, x, y).use_ == u
}

/// A region's bounding rect and size, as a walkability finding.
pub open spec fn finding_of(r: Region) -> Finding {
    Finding { bounds: r.bounds, cell_count: r.cell_count }
}

/// `r`'s north-west corner comes no later than `s`'s: by row, then column.
pub open spec fn region_corner_le(r: Region, s: Region) -> bool {
    r.bounds.y0 < s.bounds.y0 || (r.bounds.y0 == s.bounds.y0 && r.bounds.x0 <= s.bounds.x0)
}

/// `rep` is a cell of `r`'s own use, and `r` bounds and counts exactly the
/// cells of that use 4-connected to it.
pub open spec fn region_at(cells: Seq<LandUseCell>, cols: int, rows: int, r: Region, rep: (int, int)) -> bool {
    &&& grid_rect(cols, rows).spec_contains(rep.0, rep.1)
    &&& cell_at(cells, cols, rep.0, rep.1).use_ == r.use_
    &&& region_matches(grid_rect(cols, rows), use_pass(cells, cols, r.use_), rep, finding_of(r))
}

/// `reps` names one cell of each region: each region is the component of
/// its own cell, no two regions of one use are connected, and every cell
/// of the grid is connected to the cell of a region of its own use.
#[verifier::opaque]
pub open spec fn region_reps(cells: Seq<LandUseCell>, cols: int, rows: int, rs: Seq<Region>, reps: Seq<(int, int)>) -> bool {
    &&& reps.len() == rs.len()
    &&& forall|i: int| 0 <= i < rs.len() ==> #[trigger] region_at(cells, cols, rows, rs[i], reps[i])
    &&& forall|i: int, j: int|
        0 <= i < rs.len() && 0 <= j < rs.len() && i != j && rs[i].use_ == rs[j].use_ ==> !reachable(
            grid_rect(cols, rows),
            use_pass(cells, cols, rs[i].use_),
            #[trigger] reps[i],
            #[trigger] reps[j],
        )
    &&& forall|x: int, y: int|
        grid_rect(cols, rows).spec_contains(x, y) ==> exists|i: int|
            0 <= i < rs.len() && (#[trigger] rs[i]).use_ == cell_at(cells, cols, x, y).use_ && reachable(
                grid_rect(cols, rows),
                use_pass(cells, cols, rs[i].use_),
                reps[i],
                (x, y),
            )
}

/// `rs` reports every 4-connected component of equal land use on the
/// grid, once each, with its use, bounding rect and cell count, sorted by
/// north-west corner.
pub open spec fn regions_ok(cells: Seq<LandUseCell>, cols: int, rows: int, rs: Seq<Region>) -> bool {
    &&& forall|i: int, j: int| 0 <= i < j < rs.len() ==> region_corner_le(#[trigger] rs[i], #[trigger] rs[j])
    &&& exists|reps: Seq<(int, int)>| #[trigger] region_reps(cells, cols, rows, rs, reps)
}

/// The regions found so far (all of the first `done` uses, in
/// [`LandUse::ALL`] order) with their representative cells.
pub open spec fn found_ok(cells: Seq<LandUseCell>, cols: int, rows: int, rs: Seq<Region>, reps: Seq<(int, int)>, done: int) -> bool {
    &&& reps.len() == rs.len()
    &&& forall|i: int| 0 <= i < rs.len() ==> use_index((#[trigger] rs[i]).use_) < done
    &&& forall|i: int| 0 <= i < rs.len() ==> #[trigger] region_at(cells, cols, rows, rs[i], reps[i])
    &&& forall|i: int, j: int|
        0 <= i < rs.len() && 0 <= j < rs.len() && i != j && rs[i].use_ == rs[j].use_ ==> !reachable(
            grid_rect(cols, rows),
            use_pass(cells, cols, rs[i].use_),
            #[trigger] reps[i],
            #[trigger] reps[j],
        )
    &&& forall|x: int, y: int|
        grid_rect(cols, rows).spec_contains(x, y) && use_index(cell_at(cells, cols, x, y).use_) < done ==> exists|i: int|
            0 <= i < rs.len() && (#[trigger] rs[i]).use_ == cell_at(cells, cols, x, y).use_ && reachable(
                grid_rect(cols, rows),
                use_pass(cells, cols, rs[i].use_),
                reps[i],
                (x, y),
            )
}

impl LandUseMap {
    /// Whether each cell carries use `u`, row-major.
    fn use_mask(&self, u: LandUse) -> (mask: Vec<bool>)
        ensures
            mask.len() == self.spec_cols() * self.spec_rows(),
            mask_matches(grid_rect(self.spec_cols(), self.spec_rows()), mask@, use_pass(self.spec_cells(), self.spec_cols(), u)),
    {
        proof {
            use_type_invariant(self);
        }
        let n = self.cells.len();
        let mut mask: Vec<bool> = Vec::new();
        let mut i: usize = 0;
        while i < n
            invariant
                n == self.cells.len(),
                i <= n,
                mask.len() == i,
                forall|k: int| 0 <= k < i ==> mask@[k] == (self.cells@[k].use_ == u),
            decreases n - i,
        {
            mask.push(self.cells[i].use_ == u);
            i += 1;
        }
        proof {
            let g = grid_rect(self.cols as int, self.rows as int);
            assert forall|x: int, y: int|
                #![trigger use_pass(self.cells@, self.cols as int, u)(x, y)]
                g.spec_contains(x, y) implies mask@[spec_cell_index(g, x, y).unwrap()] == use_pass(self.cells@, self.cols as int, u)(x, y) by {
                lemma_cell_index_bounds(g, x, y);
            }
        }
        mask
    }

    /// Every 4-connected component of equal land use, sorted by north-west
    /// corner (deterministic, never iteration order): each with its use,
    /// its bounding rect in coarse cells and its cell count.
    pub fn regions(&self) -> (rs: Vec<Region>)
        ensures
            regions_ok(self.spec_cells(), self.spec_cols(), self.spec_rows(), rs@),
    {
        proof {
            use_type_invariant(self);
        }
        let ghost (cells, cols, rows) = (self.cells@, self.cols as int, self.rows as int);
        let g = Rect { x0: 0, y0: 0, x1: self.cols, y1: self.rows };
        assert(g == grid_rect(cols, rows));
        let mut found: Vec<(Region, (i32, i32))> = Vec::new();
        let ghost mut reps: Seq<(int, int)> = Seq::empty();
        let all = LandUse::ALL;
        let mut ui: usize = 0;
        while ui < 4
            invariant
                ui <= 4,
                cells == self.cells@,
                cols == self.cols,
                rows == self.rows,
                g == grid_rect(cols, rows),
                self.cols >= 1,
                self.rows >= 1,
                self.cols * self.rows <= i32::MAX,
                self.cells.len() == self.cols * self.rows,
                all@ == seq![LandUse::Residential, LandUse::Commercial, LandUse::Industrial, LandUse::Institutional],
                found_ok(cells, cols, rows, found@.map_values(|p: (Region, (i32, i32))| p.0), reps, ui as int),
            decreases 4 - ui,
        {
            let u = all[ui];
            assert(use_index(u) == ui);
            let ghost pass = use_pass(cells, cols, u);
            let mask = self.use_mask(u);
            assert(bits::grid_bounds_ok(g, LABEL_MAX_CELLS as int));
            let (labels, findings, Ghost(starts)) = label_components(g, &mask, Ghost(pass));
            let first = first_cells(&labels, findings.len(), self.cols);
            let ghost base = found@.map_values(|p: (Region, (i32, i32))| p.0);
            let ghost base_reps = reps;
            let mut k: usize = 0;
            while k < findings.len()
                invariant
                    k <= findings.len(),
                    first.len() == findings.len(),
                    cells == self.cells@,
                    cols == self.cols,
                    rows == self.rows,
                    g == grid_rect(cols, rows),
                    pass == use_pass(cells, cols, u),
                    use_index(u) == ui,
                    ui < 4,
                    labelling_ok(g, pass, labels@, starts),
                    findings_ok(g, labels@, findings@),
                    findings.len() == starts.len(),
                    found_ok(cells, cols, rows, base, base_reps, ui as int),
                    found@.len() == base.len() + k,
                    reps.len() == base.len() + k,
                    forall|i: int| 0 <= i < base.len() ==> found@[i].0 == base[i] && reps[i] == base_reps[i],
                    forall|i: int| base.len() <= i < base.len() + k ==> (#[trigger] found@[i]).0 == (Region { use_: u, bounds: findings@[i - base.len()].bounds, cell_count: findings@[i - base.len()].cell_count }) && reps[i] == starts[i - base.len()],
                decreases findings.len() - k,
            {
                let f = findings[k];
                let ghost before = found@;
                found.push((Region { use_: u, bounds: f.bounds, cell_count: f.cell_count }, first[k]));
                proof {
                    let reps_before = reps;
                    reps = reps.push(starts[k as int]);
                    assert(before.len() == base.len() + k);
                    assert(found@ == before.push((Region { use_: u, bounds: f.bounds, cell_count: f.cell_count }, first@[k as int])));
                    assert forall|i: int| base.len() <= i < base.len() + k + 1 implies (#[trigger] found@[i]).0 == (Region { use_: u, bounds: findings@[i - base.len()].bounds, cell_count: findings@[i - base.len()].cell_count }) && reps[i] == starts[i - base.len()] by {
                        if i < base.len() + k {
                            assert(found@[i] == before[i]);
                            assert(reps[i] == reps_before[i]);
                        }
                    }
                }
                k += 1;
            }
            proof {
                let rs = found@.map_values(|p: (Region, (i32, i32))| p.0);
                assert forall|i: int| base.len() <= i < rs.len() implies #[trigger] rs[i] == (Region { use_: u, bounds: findings@[i - base.len()].bounds, cell_count: findings@[i - base.len()].cell_count }) && reps[i] == starts[i - base.len()] by {
                    assert(found@[i].0 == (Region { use_: u, bounds: findings@[i - base.len()].bounds, cell_count: findings@[i - base.len()].cell_count }));
                }
                lemma_found_step(cells, cols, rows, u, labels@, findings@, starts, base, base_reps, rs, reps);
            }
            ui += 1;
        }
        let (sorted, Ghost(perm)) = sort_found(&found);
        let mut rs: Vec<Region> = Vec::new();
        let mut i: usize = 0;
        while i < sorted.len()
            invariant
                i <= sorted.len(),
                rs.len() == i,
                forall|j: int| 0 <= j < i ==> rs@[j] == sorted@[j].0,
            decreases sorted.len() - i,
        {
            rs.push(sorted[i].0);
            i += 1;
        }
        proof {
            lemma_sorted_regions(cells, cols, rows, found@, sorted@, perm, reps, rs@);
        }
        rs
    }
}

proof fn lemma_found_step(
    cells: Seq<LandUseCell>,
    cols: int,
    rows: int,
    u: LandUse,
    labels: Seq<i32>,
    findings: Seq<Finding>,
    starts: Seq<(int, int)>,
    base: Seq<Region>,
    base_reps: Seq<(int, int)>,
    rs: Seq<Region>,
    reps: Seq<(int, int)>,
)
    requires
        labelling_ok(grid_rect(cols, rows), use_pass(cells, cols, u), labels, starts),
        findings_ok(grid_rect(cols, rows), labels, findings),
        findings.len() == starts.len(),
        found_ok(cells, cols, rows, base, base_reps, use_index(u)),
        rs.len() == base.len() + findings.len(),
        reps.len() == rs.len(),
        forall|i: int| 0 <= i < base.len() ==> rs[i] == base[i] && reps[i] == base_reps[i],
        forall|i: int|
            base.len() <= i < rs.len() ==> #[trigger] rs[i] == (Region { use_: u, bounds: findings[i - base.len()].bounds, cell_count: findings[i - base.len()].cell_count })
                && reps[i] == starts[i - base.len()],
    ensures
        found_ok(cells, cols, rows, rs, reps, use_index(u) + 1),
{
    let g = grid_rect(cols, rows);
    let pass = use_pass(cells, cols, u);
    let b = base.len() as int;
    assert forall|i: int| 0 <= i < rs.len() implies use_index((#[trigger] rs[i]).use_) < use_index(u) + 1 by {
        if i < b {
            assert(rs[i] == base[i]);
            assert(use_index(base[i].use_) < use_index(u));
        } else {
            assert(rs[i].use_ == u);
        }
    }
    assert forall|i: int| 0 <= i < rs.len() implies #[trigger] region_at(cells, cols, rows, rs[i], reps[i]) by {
        if i < b {
            assert(rs[i] == base[i] && reps[i] == base_reps[i]);
            assert(region_at(cells, cols, rows, base[i], base_reps[i]));
        } else {
            let j = i - b;
            assert(rs[i] == (Region { use_: u, bounds: findings[j].bounds, cell_count: findings[j].cell_count }) && reps[i] == starts[j]);
            let c = starts[j];
            assert(at(labels, g, starts[j].0, starts[j].1) == j);
            assert(g.spec_contains(c.0, c.1));
            assert(mpass(g, pass, c.0, c.1));
            lemma_component_label(g, pass, labels, starts, c);
            assert(finding_ok(g, labels, findings[j], j));
            assert(finding_of(rs[i]) == findings[j]);
            assert(component(g, pass, c) == cells_labelled(labels, g, j));
        }
    }
    assert forall|i: int, j: int|
        0 <= i < rs.len() && 0 <= j < rs.len() && i != j && rs[i].use_ == rs[j].use_ implies !reachable(
            g,
            use_pass(cells, cols, rs[i].use_),
            #[trigger] reps[i],
            #[trigger] reps[j],
        ) by {
        if i < b && j < b {
            assert(rs[i] == base[i] && rs[j] == base[j] && reps[i] == base_reps[i] && reps[j] == base_reps[j]);
        } else if i >= b && j >= b {
            let (i2, j2) = (i - b, j - b);
            assert(rs[i].use_ == u && reps[i] == starts[i2]);
            assert(rs[j].use_ == u && reps[j] == starts[j2]);
            if reachable(g, pass, reps[i], reps[j]) {
                lemma_reach_label(g, pass, labels, starts, reps[i], reps[j]);
                assert(at(labels, g, starts[i - b].0, starts[i - b].1) == i - b);
                assert(at(labels, g, starts[j - b].0, starts[j - b].1) == j - b);
            }
        } else if i < b {
            assert(rs[i] == base[i]);
            assert(use_index(base[i].use_) < use_index(u));
            assert(rs[j].use_ == u);
        } else {
            assert(rs[j] == base[j]);
            assert(use_index(base[j].use_) < use_index(u));
            assert(rs[i].use_ == u);
        }
    }
    assert forall|x: int, y: int|
        g.spec_contains(x, y) && use_index(cell_at(cells, cols, x, y).use_) < use_index(u) + 1 implies exists|i: int|
            0 <= i < rs.len() && (#[trigger] rs[i]).use_ == cell_at(cells, cols, x, y).use_ && reachable(
                g,
                use_pass(cells, cols, rs[i].use_),
                reps[i],
                (x, y),
            ) by {
        if use_index(cell_at(cells, cols, x, y).use_) < use_index(u) {
            let i = choose|i: int|
                0 <= i < base.len() && (#[trigger] base[i]).use_ == cell_at(cells, cols, x, y).use_ && reachable(
                    g,
                    use_pass(cells, cols, base[i].use_),
                    base_reps[i],
                    (x, y),
                );
            assert(rs[i] == base[i] && reps[i] == base_reps[i]);
        } else {
            assert(cell_at(cells, cols, x, y).use_ == u);
            assert(pass(x, y));
            assert(mpass(g, pass, x, y));
            let k = at(labels, g, x, y) as int;
            assert(0 <= k < starts.len());
            assert(reachable(g, pass, starts[k], (x, y)));
            assert(rs[b + k].use_ == u && reps[b + k] == starts[k]);
        }
    }
}

proof fn lemma_sorted_regions(
    cells: Seq<LandUseCell>,
    cols: int,
    rows: int,
    found: Seq<(Region, (i32, i32))>,
    sorted: Seq<(Region, (i32, i32))>,
    perm: Seq<int>,
    reps: Seq<(int, int)>,
    rs: Seq<Region>,
)
    requires
        found_ok(cells, cols, rows, found.map_values(|p: (Region, (i32, i32))| p.0), reps, 4),
        sorted.len() == found.len(),
        perm.len() == found.len(),
        perm.no_duplicates(),
        forall|k: int| 0 <= k < found.len() ==> 0 <= #[trigger] perm[k] < found.len() && sorted[k] == found[perm[k]],
        forall|i: int| 0 <= i < found.len() ==> #[trigger] perm.contains(i),
        forall|i: int, j: int| 0 <= i < j < found.len() ==> !found_before(#[trigger] sorted[j], #[trigger] sorted[i]),
        rs.len() == sorted.len(),
        forall|j: int| 0 <= j < rs.len() ==> rs[j] == sorted[j].0,
    ensures
        regions_ok(cells, cols, rows, rs),
{
    let fr = found.map_values(|p: (Region, (i32, i32))| p.0);
    let n = rs.len() as int;
    assert forall|i: int, j: int| 0 <= i < j < rs.len() implies region_corner_le(#[trigger] rs[i], #[trigger] rs[j]) by {
        assert(!found_before(sorted[j], sorted[i]));
    }
    let reps2 = Seq::new(n as nat, |k: int| reps[perm[k]]);
    assert forall|k: int| 0 <= k < n implies rs[k] == fr[perm[k]] by {
        assert(sorted[k] == found[perm[k]]);
    }
    assert(region_reps(cells, cols, rows, rs, reps2)) by {
        reveal(region_reps);
        assert forall|i: int| 0 <= i < rs.len() implies #[trigger] region_at(cells, cols, rows, rs[i], reps2[i]) by {
            assert(rs[i] == fr[perm[i]]);
            assert(region_at(cells, cols, rows, fr[perm[i]], reps[perm[i]]));
        }
        assert forall|i: int, j: int|
            0 <= i < rs.len() && 0 <= j < rs.len() && i != j && rs[i].use_ == rs[j].use_ implies !reachable(
                grid_rect(cols, rows),
                use_pass(cells, cols, rs[i].use_),
                #[trigger] reps2[i],
                #[trigger] reps2[j],
            ) by {
            assert(rs[i] == fr[perm[i]] && rs[j] == fr[perm[j]]);
            assert(perm[i] != perm[j]);
            assert(reps2[i] == reps[perm[i]] && reps2[j] == reps[perm[j]]);
        }
        assert forall|x: int, y: int| grid_rect(cols, rows).spec_contains(x, y) implies exists|i: int|
            0 <= i < rs.len() && (#[trigger] rs[i]).use_ == cell_at(cells, cols, x, y).use_ && reachable(
                grid_rect(cols, rows),
                use_pass(cells, cols, rs[i].use_),
                reps2[i],
                (x, y),
            ) by {
            assert(use_index(cell_at(cells, cols, x, y).use_) < 4);
            let i = choose|i: int|
                0 <= i < fr.len() && (#[trigger] fr[i]).use_ == cell_at(cells, cols, x, y).use_ && reachable(
                    grid_rect(cols, rows),
                    use_pass(cells, cols, fr[i].use_),
                    reps[i],
                    (x, y),
                );
            assert(perm.contains(i));
            let k = choose|k: int| 0 <= k < perm.len() && perm[k] == i;
            assert(rs[k] == fr[i] && reps2[k] == reps[i]);
        }
    }
}

/// Each label's first cell in raster order, as `(x, y)` (or `(-1, -1)`
/// for a label no cell carries).
fn first_cells(labels: &Vec<i32>, n: usize, cols: i32) -> (first: Vec<(i32, i32)>)
    requires
        cols >= 1,
        labels.len() <= i32::MAX,
    ensures
        first.len() == n,
{
    let mut first: Vec<(i32, i32)> = Vec::new();
    let mut k: usize = 0;
    while k < n
        invariant
            k <= n,
            first.len() == k,
        decreases n - k,
    {
        first.push((-1, -1));
        k += 1;
    }
    let mut i: usize = 0;
    while i < labels.len()
        invariant
            i <= labels.len(),
            labels.len() <= i32::MAX,
            first.len() == n,
            cols >= 1,
        decreases labels.len() - i,
    {
        let l = labels[i];
        if l >= 0 && (l as usize) < n && first[l as usize].0 < 0 {
            let c = cols as usize;
            first.set(l as usize, ((i % c) as i32, (i / c) as i32));
        }
        i += 1;
    }
    first
}

/// The order regions are reported in: by north-west corner, ties by the
/// raster position of each region's own first cell.
pub open spec fn found_before(a: (Region, (i32, i32)), b: (Region, (i32, i32))) -> bool {
    a.0.bounds.y0 < b.0.bounds.y0 || (a.0.bounds.y0 == b.0.bounds.y0 && (a.0.bounds.x0 < b.0.bounds.x0 || (a.0.bounds.x0
        == b.0.bounds.x0 && (a.1.1 < b.1.1 || (a.1.1 == b.1.1 && a.1.0 < b.1.0)))))
}

fn found_before_exec(a: &(Region, (i32, i32)), b: &(Region, (i32, i32))) -> (r: bool)
    ensures
        r == found_before(*a, *b),
{
    a.0.bounds.y0 < b.0.bounds.y0 || (a.0.bounds.y0 == b.0.bounds.y0 && (a.0.bounds.x0 < b.0.bounds.x0 || (a.0.bounds.x0
        == b.0.bounds.x0 && (a.1.1 < b.1.1 || (a.1.1 == b.1.1 && a.1.0 < b.1.0)))))
}

/// `s` sorted by [`found_before`] (an insertion sort), entry `k` of the
/// result being entry `p[k]` of `s`.
fn sort_found(s: &Vec<(Region, (i32, i32))>) -> (r: (Vec<(Region, (i32, i32))>, Ghost<Seq<int>>))
    ensures
        r.0.len() == s.len(),
        r.1@.len() == s.len(),
        r.1@.no_duplicates(),
        forall|k: int| 0 <= k < s.len() ==> 0 <= #[trigger] r.1@[k] < s.len() && r.0@[k] == s@[r.1@[k]],
        forall|i: int| 0 <= i < s.len() ==> #[trigger] r.1@.contains(i),
        forall|i: int, j: int| 0 <= i < j < s.len() ==> !found_before(#[trigger] r.0@[j], #[trigger] r.0@[i]),
{
    let mut t: Vec<(Region, (i32, i32))> = Vec::new();
    let ghost mut p: Seq<int> = Seq::empty();
    let n = s.len();
    let mut k: usize = 0;
    while k < n
        invariant
            n == s.len(),
            k <= n,
            t.len() == k,
            p.len() == k,
            p.no_duplicates(),
            forall|q: int| 0 <= q < k ==> 0 <= #[trigger] p[q] < k && t@[q] == s@[p[q]],
            forall|i: int| 0 <= i < k ==> #[trigger] p.contains(i),
            forall|i: int, j: int| 0 <= i < j < k ==> !found_before(#[trigger] t@[j], #[trigger] t@[i]),
        decreases n - k,
    {
        let e = s[k];
        let mut pos: usize = k;
        while pos > 0 && found_before_exec(&e, &t[pos - 1])
            invariant
                t.len() == k,
                pos <= k,
                forall|q: int| pos <= q < k ==> found_before(e, #[trigger] t@[q]),
            decreases pos,
        {
            pos -= 1;
        }
        proof {
            assert forall|q: int| 0 <= q < pos implies !found_before(e, #[trigger] t@[q]) by {
                assert(!found_before(e, t@[pos - 1]));
                if q < pos - 1 {
                    assert(!found_before(t@[pos - 1], t@[q]));
                }
            }
        }
        let ghost old_t = t@;
        let ghost old_p = p;
        t.insert(pos, e);
        proof {
            p = old_p.insert(pos as int, k as int);
            assert forall|q: int| 0 <= q < k + 1 implies 0 <= #[trigger] p[q] < k + 1 && t@[q] == s@[p[q]] by {
                if q < pos {
                    assert(p[q] == old_p[q]);
                } else if q > pos {
                    assert(p[q] == old_p[q - 1]);
                }
            }
            assert forall|i: int| 0 <= i < k + 1 implies #[trigger] p.contains(i) by {
                if i == k {
                    assert(p[pos as int] == k);
                } else {
                    assert(old_p.contains(i));
                    let q = choose|q: int| 0 <= q < old_p.len() && old_p[q] == i;
                    if q < pos {
                        assert(p[q] == i);
                    } else {
                        assert(p[q + 1] == i);
                    }
                }
            }
            assert(p.no_duplicates()) by {
                assert forall|a: int, b: int| 0 <= a < p.len() && 0 <= b < p.len() && a != b implies p[a] != p[b] by {
                    if a != pos && b != pos {
                        let oa = if a < pos { a } else { a - 1 };
                        let ob = if b < pos { b } else { b - 1 };
                        assert(p[a] == old_p[oa] && p[b] == old_p[ob]);
                    } else if a == pos {
                        let ob = if b < pos { b } else { b - 1 };
                        assert(p[b] == old_p[ob]);
                    } else {
                        let oa = if a < pos { a } else { a - 1 };
                        assert(p[a] == old_p[oa]);
                    }
                }
            }
            assert forall|i: int, j: int| 0 <= i < j < k + 1 implies !found_before(#[trigger] t@[j], #[trigger] t@[i]) by {
                let oi = if i < pos { i } else { i - 1 };
                let oj = if j < pos { j } else { j - 1 };
                if i != pos && j != pos {
                    assert(t@[i] == old_t[oi] && t@[j] == old_t[oj]);
                } else if i == pos {
                    assert(t@[j] == old_t[oj]);
                } else {
                    assert(t@[i] == old_t[oi]);
                }
            }
        }
        k += 1;
    }
    (t, Ghost(p))
}


/// A use's own configured share, in percent.
pub open spec fn share_of(cfg: GenerationConfig, u: LandUse) -> int {
    match u {
        LandUse::Residential => cfg.share_residential_pct as int,
        LandUse::Commercial => cfg.share_commercial_pct as int,
        LandUse::Industrial => cfg.share_industrial_pct as int,
        LandUse::Institutional => cfg.share_institutional_pct as int,
    }
}

/// How many of the rolls `0 .. n` pick use `u`.
pub open spec fn rolls_picking(cfg: GenerationConfig, u: LandUse, n: int) -> int
    decreases n,
{
    if n <= 0 {
        0
    } else {
        rolls_picking(cfg, u, n - 1) + if spec_pick(cfg, n - 1) == u {
            1int
        } else {
            0int
        }
    }
}

/// The shares of the uses before `u`, in declaration order.
spec fn shares_before(cfg: GenerationConfig, u: LandUse) -> int {
    match u {
        LandUse::Residential => 0,
        LandUse::Commercial => cfg.share_residential_pct as int,
        LandUse::Industrial => cfg.share_residential_pct + cfg.share_commercial_pct,
        LandUse::Institutional => cfg.share_residential_pct + cfg.share_commercial_pct + cfg.share_industrial_pct,
    }
}

proof fn lemma_rolls_picking_prefix(cfg: GenerationConfig, u: LandUse, n: int)
    requires
        cfg.share_residential_pct >= 0,
        cfg.share_commercial_pct >= 0,
        cfg.share_industrial_pct >= 0,
        cfg.share_institutional_pct >= 0,
        0 <= n <= share_total(cfg),
    ensures
        rolls_picking(cfg, u, n) == if n <= shares_before(cfg, u) {
            0
        } else if n >= shares_before(cfg, u) + share_of(cfg, u) {
            share_of(cfg, u)
        } else {
            n - shares_before(cfg, u)
        },
    decreases n,
{
    if n > 0 {
        lemma_rolls_picking_prefix(cfg, u, n - 1);
    }
}

/// Law: over the rolls `0 .. share_total` a weighted draw can make, each
/// use is picked exactly as many times as its own configured share: a
/// use's band of rolls is as wide as its share, never another use's.
pub proof fn lemma_draw_gives_each_use_its_share(cfg: GenerationConfig, u: LandUse)
    requires
        cfg.share_residential_pct >= 0,
        cfg.share_commercial_pct >= 0,
        cfg.share_industrial_pct >= 0,
        cfg.share_institutional_pct >= 0,
    ensures
        rolls_picking(cfg, u, share_total(cfg)) == share_of(cfg, u),
{
    lemma_rolls_picking_prefix(cfg, u, share_total(cfg));
}

} // verus!
