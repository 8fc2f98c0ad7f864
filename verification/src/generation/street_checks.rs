//! The street network's measuring checks: staggered junctions along one
//! street, block size by density band, and network-against-Manhattan
//! detours. Each reads a [`StreetNetwork`] through its public accessors
//! only.

use vstd::prelude::*;
use super::streets::{
    Axis, Block, StreetEdge, StreetNetwork, ends_at, is_path, joins, linked, connected, node_lt, node_index, unmarked,
    lemma_unmarked_bounds, lemma_unmarked_mark, DetourSample,
};
use super::land_use::LandUseMap;
use super::{GenerationConfig, fits_i32, trunc_div};
use crate::world::collision::Rect;

verus! {

/// The widest `width_cells` among the first `k` edges of `axis` that end
/// at `n` (`i32::MIN` when there is none).
pub open spec fn widest_at(edges: Seq<StreetEdge>, n: (i32, i32), axis: Axis, k: int) -> i32
    decreases k,
{
    if k <= 0 {
        i32::MIN
    } else {
        let prev = widest_at(edges, n, axis, k - 1);
        let e = edges[k - 1];
        if ends_at(e, n) && e.axis == axis && e.width_cells > prev {
            e.width_cells
        } else {
            prev
        }
    }
}

/// Whether some edge of `axis` ends at `n`.
pub open spec fn has_axis(edges: Seq<StreetEdge>, n: (i32, i32), axis: Axis) -> bool {
    exists|k: int| 0 <= k < edges.len() && #[trigger] ends_at(edges[k], n) && edges[k].axis == axis
}

/// A crossing recorded on one street line: `(1, x, y, w)` on the vertical
/// line `x` at `y`, or `(0, y, x, w)` on the horizontal line `y` at `x`,
/// where `w` is the widest street crossing that line there.
pub type Crossing = (u8, i32, i32, i32);

/// The two crossings node `n` records: only where a vertical and a
/// horizontal street both end at it, one on each of the two lines.
pub open spec fn crossing_at(edges: Seq<StreetEdge>, n: (i32, i32), t: Crossing) -> bool {
    &&& has_axis(edges, n, Axis::Vertical)
    &&& has_axis(edges, n, Axis::Horizontal)
    &&& (t == (1u8, n.0, n.1, widest_at(edges, n, Axis::Horizontal, edges.len() as int)) || t == (
        0u8,
        n.1,
        n.0,
        widest_at(edges, n, Axis::Vertical, edges.len() as int),
    ))
}

/// Whether `t` is recorded by some node of `net` off the site boundary.
pub open spec fn is_crossing(net: StreetNetwork, t: Crossing) -> bool {
    exists|i: int|
        0 <= i < net.spec_nodes().len() && !net.spec_on_boundary(net.spec_nodes()[i]) && #[trigger] crossing_at(
            net.spec_edges(),
            net.spec_nodes()[i],
            t,
        )
}

/// Lexicographic order on crossings.
pub open spec fn crossing_lt(a: Crossing, b: Crossing) -> bool {
    a.0 < b.0 || (a.0 == b.0 && (a.1 < b.1 || (a.1 == b.1 && (a.2 < b.2 || (a.2 == b.2 && a.3 < b.3)))))
}

/// `a` and `b` are consecutive crossings of one line, at two different
/// positions, whose net gap between carriageways is under `min_gap`.
pub open spec fn close_pair(net: StreetNetwork, a: Crossing, b: Crossing, min_gap: i32) -> bool {
    &&& is_crossing(net, a)
    &&& is_crossing(net, b)
    &&& a.0 == b.0 && a.1 == b.1
    &&& crossing_lt(a, b)
    &&& !(exists|c: Crossing| #[trigger] is_crossing(net, c) && crossing_lt(a, c) && crossing_lt(c, b))
    &&& a.2 != b.2
    &&& (b.2 - trunc_div(b.3 as int, 2)) - (a.2 + trunc_div(a.3 as int, 2)) < min_gap
}

/// The reported pair of node positions for two crossings of one line.
pub open spec fn pair_nodes(a: Crossing, b: Crossing) -> ((i32, i32), (i32, i32)) {
    if a.0 == 1 {
        ((a.1, a.2), (a.1, b.2))
    } else {
        ((a.2, a.1), (b.2, a.1))
    }
}

/// The order findings come out in: horizontal lines first, then by the
/// line's coordinate, then by the first crossing's position.
pub open spec fn finding_key(f: ((i32, i32), (i32, i32))) -> (u8, i32, i32) {
    if f.0.0 == f.1.0 {
        (1u8, f.0.0, f.0.1)
    } else {
        (0u8, f.0.1, f.0.0)
    }
}

/// A crossing's line and position.
pub open spec fn key3(c: Crossing) -> (u8, i32, i32) {
    (c.0, c.1, c.2)
}

pub open spec fn key_lt(a: (u8, i32, i32), b: (u8, i32, i32)) -> bool {
    a.0 < b.0 || (a.0 == b.0 && (a.1 < b.1 || (a.1 == b.1 && a.2 < b.2)))
}

/// Whether some edge of `axis` ends at `n`, and the widest of them.
fn widest_incident(edges: &[StreetEdge], n: (i32, i32), axis: Axis) -> (r: (bool, i32))
    ensures
        r.0 == has_axis(edges@, n, axis),
        r.1 == widest_at(edges@, n, axis, edges.len() as int),
{
    let mut found = false;
    let mut widest: i32 = i32::MIN;
    let mut k: usize = 0;
    while k < edges.len()
        invariant
            k <= edges.len(),
            found <==> exists|j: int| 0 <= j < k && #[trigger] ends_at(edges@[j], n) && edges@[j].axis == axis,
            widest == widest_at(edges@, n, axis, k as int),
        decreases edges.len() - k,
    {
        let e = edges[k];
        let (sx, sy) = e.start();
        let (ex, ey) = e.end();
        let at = (sx == n.0 && sy == n.1) || (ex == n.0 && ey == n.1);
        if at && e.axis == axis {
            found = true;
            if e.width_cells > widest {
                widest = e.width_cells;
            }
        }
        proof {
            assert(at == ends_at(edges@[k as int], n));
            if found {
                if !(at && e.axis == axis) {
                    let j = choose|j: int| 0 <= j < k && #[trigger] ends_at(edges@[j], n) && edges@[j].axis == axis;
                    assert(0 <= j < k + 1);
                }
            }
        }
        k += 1;
    }
    (found, widest)
}

fn crossing_lt_exec(a: Crossing, b: Crossing) -> (r: bool)
    ensures
        r == crossing_lt(a, b),
{
    a.0 < b.0 || (a.0 == b.0 && (a.1 < b.1 || (a.1 == b.1 && (a.2 < b.2 || (a.2 == b.2 && a.3 < b.3)))))
}

/// Adds `t` to a vector strictly increasing in [`crossing_lt`], keeping
/// it so.
fn insert_crossing(v: &mut Vec<Crossing>, t: Crossing)
    requires
        forall|i: int, j: int| 0 <= i < j < old(v).len() ==> crossing_lt(old(v)@[i], old(v)@[j]),
    ensures
        forall|i: int, j: int| 0 <= i < j < final(v).len() ==> crossing_lt(final(v)@[i], final(v)@[j]),
        forall|q: Crossing| #[trigger] final(v)@.contains(q) <==> (old(v)@.contains(q) || q == t),
{
    let mut k: usize = 0;
    while k < v.len() && crossing_lt_exec(v[k], t)
        invariant
            k <= v.len(),
            forall|j: int| 0 <= j < k ==> crossing_lt(v@[j], t),
        decreases v.len() - k,
    {
        k += 1;
    }
    if k < v.len() && v[k].0 == t.0 && v[k].1 == t.1 && v[k].2 == t.2 && v[k].3 == t.3 {
        assert(v@[k as int] == t);
        return;
    }
    let ghost o = v@;
    proof {
        if k < o.len() {
            assert(crossing_lt(t, o[k as int]));
            assert forall|j: int| k <= j < o.len() implies crossing_lt(t, #[trigger] o[j]) by {
                if j > k {
                    assert(crossing_lt(o[k as int], o[j]));
                }
            }
        }
    }
    v.insert(k, t);
    proof {
        assert forall|j: int| 0 <= j < v.len() implies #[trigger] v@[j] == if j < k {
            o[j]
        } else if j == k {
            t
        } else {
            o[j - 1]
        } by {}
        assert forall|i: int, j: int| 0 <= i < j < v.len() implies crossing_lt(v@[i], v@[j]) by {
            if j < k {
            } else if j == k {
            } else if i < k {
                assert(crossing_lt(o[i], o[j - 1]));
            } else if i == k {
            } else {
                assert(crossing_lt(o[i - 1], o[j - 1]));
            }
        }
        assert forall|q: Crossing| #[trigger] v@.contains(q) <==> (o.contains(q) || q == t) by {
            if o.contains(q) {
                let j = choose|j: int| 0 <= j < o.len() && o[j] == q;
                if j < k {
                    assert(v@[j] == q);
                } else {
                    assert(v@[j + 1] == q);
                }
            }
            if q == t {
                assert(v@[k as int] == q);
            }
            if v@.contains(q) {
                let j = choose|j: int| 0 <= j < v.len() && v@[j] == q;
                if j < k {
                    assert(o[j] == q);
                } else if j > k {
                    assert(o[j - 1] == q);
                }
            }
        }
    }
}

/// Every crossing of `net`, strictly increasing.
fn crossings(net: &StreetNetwork) -> (v: Vec<Crossing>)
    ensures
        forall|i: int, j: int| 0 <= i < j < v.len() ==> crossing_lt(v@[i], v@[j]),
        forall|t: Crossing| #[trigger] v@.contains(t) <==> is_crossing(*net, t),
{
    let nodes = net.nodes();
    let edges = net.edges();
    let mut v: Vec<Crossing> = Vec::new();
    let mut i: usize = 0;
    while i < nodes.len()
        invariant
            i <= nodes.len(),
            nodes@ == net.spec_nodes(),
            edges@ == net.spec_edges(),
            forall|a: int, b: int| 0 <= a < b < v.len() ==> crossing_lt(v@[a], v@[b]),
            forall|t: Crossing|
                #[trigger] v@.contains(t) <==> exists|a: int|
                    0 <= a < i && !net.spec_on_boundary(nodes@[a]) && #[trigger] crossing_at(edges@, nodes@[a], t),
        decreases nodes.len() - i,
    {
        let n = nodes[i];
        let ghost before = v@;
        if !net.is_on_boundary(n) {
            let (has_v, widest_v) = widest_incident(edges, n, Axis::Vertical);
            let (has_h, widest_h) = widest_incident(edges, n, Axis::Horizontal);
            if has_v && has_h {
                insert_crossing(&mut v, (1u8, n.0, n.1, widest_h));
                insert_crossing(&mut v, (0u8, n.1, n.0, widest_v));
            }
        }
        proof {
            assert forall|t: Crossing|
                #[trigger] v@.contains(t) <==> exists|a: int|
                    0 <= a < i + 1 && !net.spec_on_boundary(nodes@[a]) && #[trigger] crossing_at(edges@, nodes@[a], t) by {
                if v@.contains(t) && !before.contains(t) {
                    assert(crossing_at(edges@, nodes@[i as int], t));
                }
                if exists|a: int|
                    0 <= a < i + 1 && !net.spec_on_boundary(nodes@[a]) && #[trigger] crossing_at(edges@, nodes@[a], t) {
                    let a = choose|a: int|
                        0 <= a < i + 1 && !net.spec_on_boundary(nodes@[a]) && #[trigger] crossing_at(edges@, nodes@[a], t);
                    if a < i {
                        assert(before.contains(t));
                    }
                }
            }
        }
        i += 1;
    }
    v
}

proof fn lemma_crossing_kind(net: StreetNetwork, t: Crossing)
    requires
        is_crossing(net, t),
    ensures
        t.0 == 0 || t.0 == 1,
{
    let i = choose|i: int|
        0 <= i < net.spec_nodes().len() && !net.spec_on_boundary(net.spec_nodes()[i]) && #[trigger] crossing_at(
            net.spec_edges(),
            net.spec_nodes()[i],
            t,
        );
}

/// In a strictly increasing sequence, neighbours have nothing of the
/// sequence between them, and anything not between two members at
/// distance one is not in it.
proof fn lemma_sorted_consecutive(v: Seq<Crossing>, i: int)
    requires
        forall|a: int, b: int| 0 <= a < b < v.len() ==> crossing_lt(v[a], v[b]),
        0 <= i < v.len() - 1,
    ensures
        !(exists|c: Crossing| v.contains(c) && crossing_lt(v[i], c) && crossing_lt(c, v[i + 1])),
{
    if exists|c: Crossing| v.contains(c) && crossing_lt(v[i], c) && crossing_lt(c, v[i + 1]) {
        let c = choose|c: Crossing| v.contains(c) && crossing_lt(v[i], c) && crossing_lt(c, v[i + 1]);
        let j = choose|j: int| 0 <= j < v.len() && v[j] == c;
        if j <= i {
            if j < i {
                assert(crossing_lt(v[j], v[i]));
            }
        } else if j >= i + 1 {
            if j > i + 1 {
                assert(crossing_lt(v[i + 1], v[j]));
            }
        }
    }
}

/// Two members of a strictly increasing sequence with nothing of it
/// between them are neighbours.
proof fn lemma_gapless_is_consecutive(v: Seq<Crossing>, a: int, b: int)
    requires
        forall|x: int, y: int| 0 <= x < y < v.len() ==> crossing_lt(v[x], v[y]),
        0 <= a < v.len(),
        0 <= b < v.len(),
        crossing_lt(v[a], v[b]),
        !(exists|c: Crossing| v.contains(c) && crossing_lt(v[a], c) && crossing_lt(c, v[b])),
    ensures
        b == a + 1,
{
    if b <= a {
        if b < a {
            assert(crossing_lt(v[b], v[a]));
        }
    } else if b > a + 1 {
        assert(v.contains(v[a + 1]));
        assert(crossing_lt(v[a], v[a + 1]));
        assert(crossing_lt(v[a + 1], v[b]));
    }
}


/// Every point of the land-use map's own site has a coarse cell.
pub open spec fn covers_site(lu: LandUseMap) -> bool {
    &&& lu.spec_site().spec_is_valid()
    &&& forall|x: int, y: int| lu.spec_site().spec_contains(x, y) ==> (#[trigger] lu.spec_at_world(x, y)) is Some
}

pub open spec fn clamp_int(v: int, lo: int, hi: int) -> int {
    if v < lo {
        lo
    } else if v > hi {
        hi
    } else {
        v
    }
}

/// The point a block's density is read at: its centre (halves rounded
/// toward zero), clamped into the site.
pub open spec fn sample_point(site: Rect, b: Rect) -> (int, int) {
    (
        clamp_int(trunc_div(b.x0 + b.x1, 2), site.x0 as int, site.x1 - 1),
        clamp_int(trunc_div(b.y0 + b.y1, 2), site.y0 as int, site.y1 - 1),
    )
}

/// The density of the coarse cell under a block's sample point.
pub open spec fn block_density(lu: LandUseMap, b: Rect) -> int {
    let p = sample_point(lu.spec_site(), b);
    lu.spec_at_world(p.0, p.1).unwrap().density as int
}

pub open spec fn density_band_span(cfg: GenerationConfig) -> int {
    if cfg.density_max - cfg.density_min >= 1 {
        cfg.density_max - cfg.density_min
    } else {
        1
    }
}

/// The top of the low (periphery) band: the bottom third of
/// `density_min..density_max`.
pub open spec fn low_band_max(cfg: GenerationConfig) -> int {
    cfg.density_min + density_band_span(cfg) / 3
}

/// The bottom of the high (core) band: the top third.
pub open spec fn high_band_min(cfg: GenerationConfig) -> int {
    cfg.density_min + density_band_span(cfg) - density_band_span(cfg) / 3
}

pub open spec fn area(b: Block) -> int {
    b.bounds.spec_width() * b.bounds.spec_height()
}

pub open spec fn abs_of(v: int) -> int {
    if v < 0 {
        -v
    } else {
        v
    }
}

/// The sum of the absolute areas of the first `k` blocks.
pub open spec fn area_magnitude(blocks: Seq<Block>, k: int) -> int
    decreases k,
{
    if k <= 0 {
        0
    } else {
        area_magnitude(blocks, k - 1) + abs_of(area(blocks[k - 1]))
    }
}

/// Over the first `k` blocks: the area total and count of those in the
/// low band, then of those in the high band.
pub open spec fn band_totals(lu: LandUseMap, cfg: GenerationConfig, blocks: Seq<Block>, k: int) -> (int, int, int, int)
    decreases k,
{
    if k <= 0 {
        (0, 0, 0, 0)
    } else {
        let t = band_totals(lu, cfg, blocks, k - 1);
        let b = blocks[k - 1];
        let d = block_density(lu, b.bounds);
        if d <= low_band_max(cfg) {
            (t.0 + area(b), t.1 + 1, t.2, t.3)
        } else if d >= high_band_min(cfg) {
            (t.0, t.1, t.2 + area(b), t.3 + 1)
        } else {
            t
        }
    }
}

/// The mean block area of the low band and of the high band, or `None`
/// when either is empty.
pub open spec fn spec_mean_by_band(lu: LandUseMap, cfg: GenerationConfig, blocks: Seq<Block>) -> Option<(i64, i64)> {
    let t = band_totals(lu, cfg, blocks, blocks.len() as int);
    if t.1 == 0 || t.3 == 0 {
        None
    } else {
        Some((trunc_div(t.0, t.1) as i64, trunc_div(t.2, t.3) as i64))
    }
}

proof fn lemma_band_totals_bounded(lu: LandUseMap, cfg: GenerationConfig, blocks: Seq<Block>, k: int)
    requires
        0 <= k <= blocks.len(),
    ensures
        abs_of(band_totals(lu, cfg, blocks, k).0) <= area_magnitude(blocks, k),
        abs_of(band_totals(lu, cfg, blocks, k).2) <= area_magnitude(blocks, k),
        0 <= band_totals(lu, cfg, blocks, k).1 <= k,
        0 <= band_totals(lu, cfg, blocks, k).3 <= k,
        0 <= area_magnitude(blocks, k),
    decreases k,
{
    if k > 0 {
        lemma_band_totals_bounded(lu, cfg, blocks, k - 1);
    }
}

proof fn lemma_magnitude_monotone(blocks: Seq<Block>, k: int, m: int)
    requires
        0 <= k <= m <= blocks.len(),
    ensures
        area_magnitude(blocks, k) <= area_magnitude(blocks, m),
    decreases m - k,
{
    if k < m {
        lemma_magnitude_monotone(blocks, k, m - 1);
    }
}

fn abs_i64(v: i64) -> (r: i64)
    requires
        v > i64::MIN,
    ensures
        r == abs_of(v as int),
{
    if v < 0 {
        -v
    } else {
        v
    }
}

fn clamp_i64(v: i64, lo: i64, hi: i64) -> (r: i64)
    requires
        lo <= hi,
    ensures
        r == clamp_int(v as int, lo as int, hi as int),
{
    if v < lo {
        lo
    } else if v > hi {
        hi
    } else {
        v
    }
}

/// The largest network the shortest-path search takes: every distance it
/// holds then fits an `i64`.
pub const ROUTED_NODES_MAX: usize = 0x4000_0000;

/// The Manhattan distance between two points.
pub open spec fn step_len(a: (i32, i32), b: (i32, i32)) -> int {
    abs_of(a.0 - b.0) + abs_of(a.1 - b.1)
}

/// The length of walking `p`: the sum of its steps.
pub open spec fn path_len(p: Seq<(i32, i32)>) -> int
    decreases p.len(),
{
    if p.len() <= 1 {
        0
    } else {
        path_len(p.drop_last()) + step_len(p[p.len() - 2], p[p.len() - 1])
    }
}

/// `p` walks along edges from `a` to `b`.
pub open spec fn route(edges: Seq<StreetEdge>, p: Seq<(i32, i32)>, a: (i32, i32), b: (i32, i32)) -> bool {
    is_path(edges, p) && p[0] == a && p.last() == b
}

/// `d` is the length of a shortest walk along edges from `a` to `b`.
pub open spec fn is_shortest(edges: Seq<StreetEdge>, a: (i32, i32), b: (i32, i32), d: int) -> bool {
    &&& exists|p: Seq<(i32, i32)>| #[trigger] route(edges, p, a, b) && path_len(p) == d
    &&& forall|p: Seq<(i32, i32)>| #[trigger] route(edges, p, a, b) ==> path_len(p) >= d
}

/// The network distance from `a` to `b`: the length of a shortest walk
/// along edges (meaningful where `b` is reachable from `a`).
pub open spec fn network_distance(edges: Seq<StreetEdge>, a: (i32, i32), b: (i32, i32)) -> int {
    choose|d: int| is_shortest(edges, a, b, d)
}

/// Every known node has a walk from `src` of its recorded length.
pub open spec fn realizable(edges: Seq<StreetEdge>, nodes: Seq<(i32, i32)>, src: (i32, i32), known: Seq<bool>, dist: Seq<i64>) -> bool {
    forall|i: int|
        0 <= i < nodes.len() && #[trigger] known[i] ==> exists|p: Seq<(i32, i32)>|
            #[trigger] route(edges, p, src, nodes[i]) && path_len(p) == dist[i]
}

/// No walk from `src` to a finished node is shorter than its recorded
/// length.
pub open spec fn optimal(edges: Seq<StreetEdge>, nodes: Seq<(i32, i32)>, src: (i32, i32), done: Seq<bool>, dist: Seq<i64>) -> bool {
    forall|i: int, p: Seq<(i32, i32)>|
        0 <= i < nodes.len() && #[trigger] done[i] && #[trigger] route(edges, p, src, nodes[i]) ==> path_len(p) >= dist[i]
}

/// Every edge among the first `upto` leaving node `i` leads to a known
/// node no further than through `i`.
pub open spec fn relaxed(
    edges: Seq<StreetEdge>,
    nodes: Seq<(i32, i32)>,
    known: Seq<bool>,
    dist: Seq<i64>,
    i: int,
    upto: int,
) -> bool {
    forall|j: int, k: int|
        0 <= j < nodes.len() && 0 <= k < upto && #[trigger] joins(edges[k], nodes[i], nodes[j]) ==> known[j] && dist[j]
            <= dist[i] + step_len(nodes[i], nodes[j])
}

/// Nodes strictly increasing, every edge running low to high between two
/// of them.
pub open spec fn graph_shape(edges: Seq<StreetEdge>, nodes: Seq<(i32, i32)>) -> bool {
    &&& forall|i: int, j: int| 0 <= i < j < nodes.len() ==> node_lt(nodes[i], nodes[j])
    &&& forall|k: int| 0 <= k < edges.len() ==> (#[trigger] edges[k]).from < edges[k].to
    &&& forall|k: int|
        0 <= k < edges.len() ==> nodes.contains((#[trigger] edges[k]).spec_start()) && nodes.contains(edges[k].spec_end())
}

proof fn lemma_index_unique(nodes: Seq<(i32, i32)>, i: int, j: int)
    requires
        forall|a: int, b: int| 0 <= a < b < nodes.len() ==> node_lt(nodes[a], nodes[b]),
        0 <= i < nodes.len(),
        0 <= j < nodes.len(),
        nodes[i] == nodes[j],
    ensures
        i == j,
{
    if i < j {
        assert(node_lt(nodes[i], nodes[j]));
    } else if j < i {
        assert(node_lt(nodes[j], nodes[i]));
    }
}

proof fn lemma_path_len_nonneg(p: Seq<(i32, i32)>)
    ensures
        path_len(p) >= 0,
    decreases p.len(),
{
    if p.len() > 1 {
        lemma_path_len_nonneg(p.drop_last());
    }
}

/// A prefix of a walk is no longer than the walk.
proof fn lemma_prefix_len(p: Seq<(i32, i32)>, j: int)
    requires
        1 <= j <= p.len(),
    ensures
        path_len(p.take(j)) <= path_len(p),
    decreases p.len() - j,
{
    if j < p.len() {
        lemma_prefix_len(p, j + 1);
        assert(p.take(j + 1).drop_last() == p.take(j));
    } else {
        assert(p.take(j) == p);
    }
}

/// Walking one more edge from `b` to `c` extends a walk to `b` by the
/// Manhattan length of that step.
proof fn lemma_route_step(edges: Seq<StreetEdge>, p: Seq<(i32, i32)>, a: (i32, i32), b: (i32, i32), c: (i32, i32), k: int)
    requires
        route(edges, p, a, b),
        0 <= k < edges.len(),
        joins(edges[k], b, c),
    ensures
        route(edges, p.push(c), a, c),
        path_len(p.push(c)) == path_len(p) + step_len(b, c),
{
    let q = p.push(c);
    assert forall|i: int| 0 <= i < q.len() - 1 implies #[trigger] linked(edges, q[i], q[i + 1]) by {
        if i < p.len() - 1 {
            assert(q[i] == p[i] && q[i + 1] == p[i + 1]);
            assert(linked(edges, p[i], p[i + 1]));
        } else {
            assert(q[i] == b && q[i + 1] == c);
        }
    }
    assert(q.drop_last() == p);
}

/// Every node along a walk from a node of the network is a node of it.
proof fn lemma_path_in_nodes(edges: Seq<StreetEdge>, nodes: Seq<(i32, i32)>, p: Seq<(i32, i32)>, t: int)
    requires
        graph_shape(edges, nodes),
        is_path(edges, p),
        nodes.contains(p[0]),
        0 <= t < p.len(),
    ensures
        nodes.contains(p[t]),
    decreases t,
{
    if t > 0 {
        assert(linked(edges, p[t - 1], p[t - 1 + 1]));
        let k = choose|k: int| 0 <= k < edges.len() && #[trigger] joins(edges[k], p[t - 1], p[t]);
        assert(nodes.contains(edges[k].spec_start()) && nodes.contains(edges[k].spec_end()));
    }
}

proof fn lemma_all_unmarked(m: Seq<bool>, k: int)
    requires
        0 <= k <= m.len(),
        forall|i: int| 0 <= i < m.len() ==> !m[i],
    ensures
        unmarked(m, k) == k,
    decreases k,
{
    if k > 0 {
        lemma_all_unmarked(m, k - 1);
    }
}

/// Whether the node at `v` is finished.
pub open spec fn done_at(nodes: Seq<(i32, i32)>, done: Seq<bool>, v: (i32, i32)) -> bool {
    exists|i: int| 0 <= i < nodes.len() && nodes[i] == v && #[trigger] done[i]
}

/// Along a walk from `src` whose first `t + 1` nodes are all finished, the
/// recorded length of the `t`-th is at most the walk's length so far.
proof fn lemma_walk_bound(
    edges: Seq<StreetEdge>,
    nodes: Seq<(i32, i32)>,
    done: Seq<bool>,
    known: Seq<bool>,
    dist: Seq<i64>,
    s: int,
    p: Seq<(i32, i32)>,
    t: int,
    i: int,
)
    requires
        graph_shape(edges, nodes),
        done.len() == nodes.len() && known.len() == nodes.len() && dist.len() == nodes.len(),
        0 <= s < nodes.len(),
        dist[s] == 0,
        is_path(edges, p),
        p[0] == nodes[s],
        0 <= t < p.len(),
        forall|u: int| 0 <= u <= t ==> done_at(nodes, done, #[trigger] p[u]),
        forall|a: int| 0 <= a < nodes.len() && #[trigger] done[a] ==> relaxed(edges, nodes, known, dist, a, edges.len() as int),
        0 <= i < nodes.len(),
        nodes[i] == p[t],
    ensures
        dist[i] <= path_len(p.take(t + 1)),
    decreases t,
{
    if t == 0 {
        lemma_index_unique(nodes, i, s);
        assert(p.take(1).len() == 1);
    } else {
        assert(done_at(nodes, done, p[t - 1]));
        let a = choose|a: int| 0 <= a < nodes.len() && nodes[a] == p[t - 1] && #[trigger] done[a];
        lemma_walk_bound(edges, nodes, done, known, dist, s, p, t - 1, a);
        assert(linked(edges, p[t - 1], p[t - 1 + 1]));
        let k = choose|k: int| 0 <= k < edges.len() && #[trigger] joins(edges[k], p[t - 1], p[t]);
        assert(relaxed(edges, nodes, known, dist, a, edges.len() as int));
        assert(joins(edges[k], nodes[a], nodes[i]));
        assert(p.take(t + 1).drop_last() == p.take(t));
        assert(p.take(t + 1)[t - 1] == p[t - 1] && p.take(t + 1)[t] == p[t]);
    }
}

/// Along a walk whose last node is unfinished, some node is the first
/// unfinished one.
proof fn lemma_first_unfinished(nodes: Seq<(i32, i32)>, done: Seq<bool>, p: Seq<(i32, i32)>, t: int)
    requires
        0 <= t < p.len(),
        !done_at(nodes, done, p[t]),
    ensures
        exists|u: int| 0 <= u <= t && !done_at(nodes, done, #[trigger] p[u]) && forall|w: int| 0 <= w < u ==> done_at(nodes, done, #[trigger] p[w]),
    decreases t,
{
    if forall|w: int| 0 <= w < t ==> done_at(nodes, done, #[trigger] p[w]) {
        assert(0 <= t <= t && !done_at(nodes, done, p[t]));
    } else {
        let w = choose|w: int| 0 <= w < t && !done_at(nodes, done, #[trigger] p[w]);
        lemma_first_unfinished(nodes, done, p, w);
    }
}

/// Finishing the unfinished known node of least recorded length keeps
/// every recorded length of a finished node optimal.
proof fn lemma_settle_optimal(
    edges: Seq<StreetEdge>,
    nodes: Seq<(i32, i32)>,
    done: Seq<bool>,
    known: Seq<bool>,
    dist: Seq<i64>,
    s: int,
    x: int,
)
    requires
        graph_shape(edges, nodes),
        done.len() == nodes.len() && known.len() == nodes.len() && dist.len() == nodes.len(),
        0 <= s < nodes.len(),
        known[s],
        dist[s] == 0,
        0 <= x < nodes.len(),
        known[x] && !done[x],
        forall|j: int| 0 <= j < nodes.len() && #[trigger] known[j] && !done[j] ==> dist[x] <= dist[j],
        forall|a: int| 0 <= a < nodes.len() && #[trigger] done[a] ==> relaxed(edges, nodes, known, dist, a, edges.len() as int),
    ensures
        forall|p: Seq<(i32, i32)>| #[trigger] route(edges, p, nodes[s], nodes[x]) ==> path_len(p) >= dist[x],
{
    assert forall|p: Seq<(i32, i32)>| #[trigger] route(edges, p, nodes[s], nodes[x]) implies path_len(p) >= dist[x] by {
        let last = p.len() - 1;
        assert(!done_at(nodes, done, p[last])) by {
            if done_at(nodes, done, p[last]) {
                let a = choose|a: int| 0 <= a < nodes.len() && nodes[a] == p[last] && #[trigger] done[a];
                lemma_index_unique(nodes, a, x);
            }
        }
        lemma_first_unfinished(nodes, done, p, last);
        let u = choose|u: int| 0 <= u <= last && !done_at(nodes, done, #[trigger] p[u]) && forall|w: int| 0 <= w < u ==> done_at(nodes, done, #[trigger] p[w]);
        assert(nodes.contains(nodes[s]));
        lemma_path_in_nodes(edges, nodes, p, u);
        let iu = choose|iu: int| 0 <= iu < nodes.len() && nodes[iu] == p[u];
        assert(!done[iu]);
        lemma_prefix_len(p, u + 1);
        if u == 0 {
            lemma_index_unique(nodes, iu, s);
            lemma_path_len_nonneg(p);
        } else {
            let a = choose|a: int| 0 <= a < nodes.len() && nodes[a] == p[u - 1] && #[trigger] done[a];
            assert(forall|w: int| 0 <= w <= u - 1 ==> done_at(nodes, done, #[trigger] p[w]));
            lemma_walk_bound(edges, nodes, done, known, dist, s, p, u - 1, a);
            assert(linked(edges, p[u - 1], p[u - 1 + 1]));
            let k = choose|k: int| 0 <= k < edges.len() && #[trigger] joins(edges[k], p[u - 1], p[u]);
            assert(relaxed(edges, nodes, known, dist, a, edges.len() as int));
            assert(joins(edges[k], nodes[a], nodes[iu]));
            assert(p.take(u + 1).drop_last() == p.take(u));
            assert(p.take(u + 1)[u - 1] == p[u - 1] && p.take(u + 1)[u] == p[u]);
        }
    }
}

/// When no known node is left unfinished, every node reachable from `src`
/// is finished.
proof fn lemma_reach_finished(
    edges: Seq<StreetEdge>,
    nodes: Seq<(i32, i32)>,
    done: Seq<bool>,
    known: Seq<bool>,
    dist: Seq<i64>,
    s: int,
    p: Seq<(i32, i32)>,
    t: int,
)
    requires
        graph_shape(edges, nodes),
        done.len() == nodes.len() && known.len() == nodes.len() && dist.len() == nodes.len(),
        0 <= s < nodes.len(),
        done[s],
        is_path(edges, p),
        p[0] == nodes[s],
        0 <= t < p.len(),
        forall|j: int| 0 <= j < nodes.len() && #[trigger] known[j] ==> done[j],
        forall|a: int| 0 <= a < nodes.len() && #[trigger] done[a] ==> relaxed(edges, nodes, known, dist, a, edges.len() as int),
    ensures
        done_at(nodes, done, p[t]),
    decreases t,
{
    if t == 0 {
        assert(done_at(nodes, done, nodes[s]));
    } else {
        lemma_reach_finished(edges, nodes, done, known, dist, s, p, t - 1);
        let a = choose|a: int| 0 <= a < nodes.len() && nodes[a] == p[t - 1] && #[trigger] done[a];
        assert(linked(edges, p[t - 1], p[t - 1 + 1]));
        let k = choose|k: int| 0 <= k < edges.len() && #[trigger] joins(edges[k], p[t - 1], p[t]);
        assert(nodes.contains(edges[k].spec_start()) && nodes.contains(edges[k].spec_end()));
        assert(nodes.contains(p[t]));
        let j = choose|j: int| 0 <= j < nodes.len() && nodes[j] == p[t];
        assert(relaxed(edges, nodes, known, dist, a, edges.len() as int));
        assert(joins(edges[k], nodes[a], nodes[j]));
        assert(done[j]);
    }
}

/// Two shortest lengths between the same two nodes agree.
proof fn lemma_shortest_unique(edges: Seq<StreetEdge>, a: (i32, i32), b: (i32, i32), d: int)
    requires
        is_shortest(edges, a, b, d),
    ensures
        network_distance(edges, a, b) == d,
{
    let e = network_distance(edges, a, b);
    assert(is_shortest(edges, a, b, e));
    let p = choose|p: Seq<(i32, i32)>| #[trigger] route(edges, p, a, b) && path_len(p) == d;
    let q = choose|q: Seq<(i32, i32)>| #[trigger] route(edges, q, a, b) && path_len(q) == e;
}

/// No walk is shorter than the Manhattan distance between its ends: the
/// network distance is never below the straight grid distance, so a detour
/// ratio is never under 100 and an overshoot never negative.
pub proof fn lemma_walk_at_least_manhattan(p: Seq<(i32, i32)>)
    requires
        p.len() >= 1,
    ensures
        path_len(p) >= step_len(p[0], p.last()),
    decreases p.len(),
{
    if p.len() > 1 {
        let q = p.drop_last();
        lemma_walk_at_least_manhattan(q);
        assert(q[0] == p[0] && q.last() == p[p.len() - 2]);
    }
}

/// A shortest network distance between two nodes is at least their
/// Manhattan distance.
pub proof fn lemma_shortest_at_least_manhattan(edges: Seq<StreetEdge>, a: (i32, i32), b: (i32, i32), d: int)
    requires
        is_shortest(edges, a, b, d),
    ensures
        d >= step_len(a, b),
{
    let p = choose|p: Seq<(i32, i32)>| #[trigger] route(edges, p, a, b) && path_len(p) == d;
    lemma_walk_at_least_manhattan(p);
}

/// The sampled nodes from index `from` on: every `step`-th.
pub open spec fn sampled_from(nodes: Seq<(i32, i32)>, step: int, from: int) -> Seq<(i32, i32)>
    decreases nodes.len() - from,
    when step >= 1 && from >= 0
{
    if from >= nodes.len() {
        Seq::empty()
    } else {
        seq![nodes[from]] + if from + step >= nodes.len() {
            Seq::empty()
        } else {
            sampled_from(nodes, step, from + step)
        }
    }
}

/// The sampling stride for at most about `max_nodes` nodes out of `n`:
/// `n / max(max_nodes, 1)`, at least 1.
pub open spec fn sample_step(n: int, max_nodes: int) -> int {
    let m = if max_nodes >= 1 {
        max_nodes
    } else {
        1
    };
    if n / m >= 1 {
        n / m
    } else {
        1
    }
}

/// The sample for the pair `a`, `b`, when they are apart and `b` is
/// reachable from `a`.
pub open spec fn pair_sample(edges: Seq<StreetEdge>, a: (i32, i32), b: (i32, i32)) -> Seq<DetourSample> {
    if step_len(a, b) == 0 || !connected(edges, a, b) {
        Seq::empty()
    } else {
        seq![DetourSample { a, b, network: network_distance(edges, a, b) as i64, manhattan: step_len(a, b) as i64 }]
    }
}

/// The samples pairing `s[i]` with `s[i + 1..j]`, in order.
pub open spec fn row_samples(edges: Seq<StreetEdge>, s: Seq<(i32, i32)>, i: int, j: int) -> Seq<DetourSample>
    decreases j - i,
{
    if j <= i + 1 {
        Seq::empty()
    } else {
        row_samples(edges, s, i, j - 1) + pair_sample(edges, s[i], s[j - 1])
    }
}

/// The samples of the first `i` rows, in order.
pub open spec fn samples_upto(edges: Seq<StreetEdge>, s: Seq<(i32, i32)>, i: int) -> Seq<DetourSample>
    decreases i,
{
    if i <= 0 {
        Seq::empty()
    } else {
        samples_upto(edges, s, i - 1) + row_samples(edges, s, i - 1, s.len() as int)
    }
}

/// Every pair of sampled nodes, in sample order.
pub open spec fn spec_all_pair_samples(net: StreetNetwork, max_nodes: int) -> Seq<DetourSample> {
    let s = sampled_from(net.spec_nodes(), sample_step(net.spec_nodes().len() as int, max_nodes), 0);
    samples_upto(net.spec_edges(), s, s.len() as int)
}

/// A sample holds the shortest network distance between its ends, their
/// positive Manhattan distance, and the first is at least the second.
pub open spec fn sample_measured(edges: Seq<StreetEdge>, x: DetourSample) -> bool {
    &&& is_shortest(edges, x.a, x.b, x.network as int)
    &&& x.manhattan == step_len(x.a, x.b)
    &&& 0 < x.manhattan <= x.network
}

/// The samples whose two ends are not both on the site boundary, in order.
pub open spec fn off_boundary(net: StreetNetwork, v: Seq<DetourSample>) -> Seq<DetourSample>
    decreases v.len(),
{
    if v.len() == 0 {
        Seq::empty()
    } else {
        let rest = off_boundary(net, v.drop_last());
        let x = v.last();
        if net.spec_on_boundary(x.a) && net.spec_on_boundary(x.b) {
            rest
        } else {
            rest.push(x)
        }
    }
}

impl StreetNetwork {
    /// Every pair of neighbouring crossings on one street line whose net
    /// gap -- between the two crossing streets' own near carriageway
    /// edges, `(pos2 - width2 / 2) - (pos1 + width1 / 2)` -- is under
    /// `min_gap` and which are not at one position: the "staggered
    /// junction" defect. A crossing is a node off the site boundary where a
    /// vertical and a horizontal street both end; it sits on both lines,
    /// with the widest street crossing that line there as its width. Lines
    /// are taken horizontal first, each by coordinate, and pairs along a
    /// line by position.
    pub fn close_same_street_junction_pairs(&self, min_gap: i32) -> (r: Vec<((i32, i32), (i32, i32))>)
        ensures
            forall|f: ((i32, i32), (i32, i32))| #[trigger] r@.contains(f) <==> exists|a: Crossing, b: Crossing|
                #[trigger] close_pair(*self, a, b, min_gap) && f == pair_nodes(a, b),
            forall|i: int, j: int| 0 <= i < j < r.len() ==> key_lt(finding_key(r@[i]), finding_key(r@[j])),
    {
        let cs = crossings(self);
        let mut out: Vec<((i32, i32), (i32, i32))> = Vec::new();
        if cs.len() < 2 {
            proof {
                assert forall|f: ((i32, i32), (i32, i32))| #[trigger] out@.contains(f) <==> exists|a: Crossing, b: Crossing|
                    #[trigger] close_pair(*self, a, b, min_gap) && f == pair_nodes(a, b) by {
                    if exists|a: Crossing, b: Crossing| #[trigger] close_pair(*self, a, b, min_gap) && f == pair_nodes(a, b) {
                        let (a, b) = choose|a: Crossing, b: Crossing| #[trigger] close_pair(*self, a, b, min_gap) && f == pair_nodes(a, b);
                        assert(cs@.contains(a) && cs@.contains(b));
                        let x = choose|x: int| 0 <= x < cs.len() && cs@[x] == a;
                        let y = choose|y: int| 0 <= y < cs.len() && cs@[y] == b;
                        assert(x != y);
                    }
                }
            }
            return out;
        }
        let mut i: usize = 0;
        while i + 1 < cs.len()
            invariant
                cs.len() >= 2,
                i + 1 <= cs.len(),
                forall|a: int, b: int| 0 <= a < b < cs.len() ==> crossing_lt(cs@[a], cs@[b]),
                forall|t: Crossing| #[trigger] cs@.contains(t) <==> is_crossing(*self, t),
                forall|f: ((i32, i32), (i32, i32))| #[trigger] out@.contains(f) <==> exists|x: int|
                    0 <= x < i && #[trigger] close_pair(*self, cs@[x], cs@[x + 1], min_gap) && f == pair_nodes(cs@[x], cs@[x + 1]),
                forall|a: int, b: int| 0 <= a < b < out.len() ==> key_lt(finding_key(out@[a]), finding_key(out@[b])),
                forall|a: int| 0 <= a < out.len() ==> key_lt(finding_key(#[trigger] out@[a]), key3(cs@[i as int])),
            decreases cs.len() - i,
        {
            let a = cs[i];
            let b = cs[i + 1];
            let ghost before = out@;
            if a.0 == b.0 && a.1 == b.1 && a.2 != b.2 {
                let hb = b.3 / 2;
                let ha = a.3 / 2;
                assert(hb == trunc_div(b.3 as int, 2));
                assert(ha == trunc_div(a.3 as int, 2));
                let gap: i64 = (b.2 as i64 - hb as i64) - (a.2 as i64 + ha as i64);
                if gap < min_gap as i64 {
                    let f = if a.0 == 1 {
                        ((a.1, a.2), (a.1, b.2))
                    } else {
                        ((a.2, a.1), (b.2, a.1))
                    };
                    out.push(f);
                }
            }
            proof {
                lemma_sorted_consecutive(cs@, i as int);
                assert(cs@.contains(a) && cs@.contains(b));
                lemma_crossing_kind(*self, a);
                assert(crossing_lt(a, b));
                assert(!(exists|c: Crossing| #[trigger] is_crossing(*self, c) && crossing_lt(a, c) && crossing_lt(c, b))) by {
                    if exists|c: Crossing| #[trigger] is_crossing(*self, c) && crossing_lt(a, c) && crossing_lt(c, b) {
                        let c = choose|c: Crossing| #[trigger] is_crossing(*self, c) && crossing_lt(a, c) && crossing_lt(c, b);
                        assert(cs@.contains(c));
                    }
                }
                let pushed = close_pair(*self, cs@[i as int], cs@[i + 1], min_gap);
                if pushed {
                    assert(out@ == before.push(pair_nodes(a, b)));
                } else {
                    assert(out@ == before);
                }
                assert forall|f: ((i32, i32), (i32, i32))| #[trigger] out@.contains(f) <==> exists|x: int|
                    0 <= x < i + 1 && #[trigger] close_pair(*self, cs@[x], cs@[x + 1], min_gap) && f == pair_nodes(cs@[x], cs@[x + 1]) by {
                    if out@.contains(f) {
                        if before.contains(f) {
                            let x = choose|x: int|
                                0 <= x < i && #[trigger] close_pair(*self, cs@[x], cs@[x + 1], min_gap) && f == pair_nodes(cs@[x], cs@[x + 1]);
                            assert(0 <= x < i + 1);
                        } else {
                            assert(pushed);
                            assert(f == pair_nodes(cs@[i as int], cs@[i + 1]));
                        }
                    }
                    if exists|x: int|
                        0 <= x < i + 1 && #[trigger] close_pair(*self, cs@[x], cs@[x + 1], min_gap) && f == pair_nodes(cs@[x], cs@[x + 1]) {
                        let x = choose|x: int|
                            0 <= x < i + 1 && #[trigger] close_pair(*self, cs@[x], cs@[x + 1], min_gap) && f == pair_nodes(cs@[x], cs@[x + 1]);
                        if x < i {
                            assert(before.contains(f));
                            let j = choose|j: int| 0 <= j < before.len() && before[j] == f;
                            assert(out@[j] == f);
                        } else {
                            assert(pushed);
                            assert(out@[before.len() as int] == f);
                        }
                    }
                }
                if i + 2 < cs.len() {
                    assert(crossing_lt(cs@[i + 1], cs@[i + 2]));
                }
            }
            i += 1;
        }
        proof {
            assert forall|f: ((i32, i32), (i32, i32))| #[trigger] out@.contains(f) <==> exists|a: Crossing, b: Crossing|
                #[trigger] close_pair(*self, a, b, min_gap) && f == pair_nodes(a, b) by {
                if exists|a: Crossing, b: Crossing| #[trigger] close_pair(*self, a, b, min_gap) && f == pair_nodes(a, b) {
                    let (a, b) = choose|a: Crossing, b: Crossing| #[trigger] close_pair(*self, a, b, min_gap) && f == pair_nodes(a, b);
                    assert(cs@.contains(a) && cs@.contains(b));
                    let x = choose|x: int| 0 <= x < cs.len() && cs@[x] == a;
                    let y = choose|y: int| 0 <= y < cs.len() && cs@[y] == b;
                    assert(!(exists|c: Crossing| cs@.contains(c) && crossing_lt(cs@[x], c) && crossing_lt(c, cs@[y]))) by {
                        if exists|c: Crossing| cs@.contains(c) && crossing_lt(cs@[x], c) && crossing_lt(c, cs@[y]) {
                            let c = choose|c: Crossing| cs@.contains(c) && crossing_lt(cs@[x], c) && crossing_lt(c, cs@[y]);
                            assert(is_crossing(*self, c));
                        }
                    }
                    lemma_gapless_is_consecutive(cs@, x, y);
                    assert(close_pair(*self, cs@[x], cs@[x + 1], min_gap));
                }
            }
        }
        out
    }

    /// Mean block area in the low density band (periphery) against the
    /// high one (core): a block's density is read at its centre, clamped
    /// into the site; the low band is up to `density_min + span / 3` and
    /// the high band from `density_min + span - span / 3`, where `span` is
    /// `density_max - density_min` (at least 1); blocks between count
    /// toward neither. `None` if either band is empty. Every point of the
    /// site must have a coarse cell.
    pub fn mean_area_by_density_band(&self, land_use: &LandUseMap, cfg: &GenerationConfig) -> (r: Option<(i64, i64)>)
        requires
            covers_site(*land_use),
            fits_i32(cfg.density_max - cfg.density_min),
            forall|i: int| 0 <= i < self.spec_blocks().len() ==> fits_i32(#[trigger] self.spec_blocks()[i].bounds.x0 + self.spec_blocks()[i].bounds.x1)
                && fits_i32(self.spec_blocks()[i].bounds.y0 + self.spec_blocks()[i].bounds.y1),
            area_magnitude(self.spec_blocks(), self.spec_blocks().len() as int) <= i64::MAX,
            self.spec_blocks().len() <= i64::MAX,
        ensures
            r == spec_mean_by_band(*land_use, *cfg, self.spec_blocks()),
    {
        let blocks = self.blocks();
        let span: i64 = if cfg.density_max as i64 - cfg.density_min as i64 >= 1 {
            cfg.density_max as i64 - cfg.density_min as i64
        } else {
            1
        };
        let low_max: i64 = cfg.density_min as i64 + span / 3;
        let high_min: i64 = cfg.density_min as i64 + span - span / 3;
        let site = land_use.site();
        let (mut low_sum, mut low_count, mut high_sum, mut high_count) = (0i64, 0i64, 0i64, 0i64);
        let mut k: usize = 0;
        while k < blocks.len()
            invariant
                k <= blocks.len(),
                blocks@ == self.spec_blocks(),
                site == land_use.spec_site(),
                covers_site(*land_use),
                low_max == low_band_max(*cfg),
                high_min == high_band_min(*cfg),
                forall|i: int| 0 <= i < blocks.len() ==> fits_i32(#[trigger] blocks@[i].bounds.x0 + blocks@[i].bounds.x1)
                    && fits_i32(blocks@[i].bounds.y0 + blocks@[i].bounds.y1),
                area_magnitude(blocks@, blocks.len() as int) <= i64::MAX,
                blocks.len() <= i64::MAX,
                (low_sum as int, low_count as int, high_sum as int, high_count as int) == band_totals(*land_use, *cfg, blocks@, k as int),
            decreases blocks.len() - k,
        {
            let b = blocks[k].bounds;
            assert(fits_i32(blocks@[k as int].bounds.x0 + blocks@[k as int].bounds.x1));
            assert(fits_i32(blocks@[k as int].bounds.y0 + blocks@[k as int].bounds.y1));
            let mx = clamp_i64((b.x0 + b.x1) as i64 / 2, site.x0 as i64, site.x1 as i64 - 1);
            let my = clamp_i64((b.y0 + b.y1) as i64 / 2, site.y0 as i64, site.y1 as i64 - 1);
            let cell = land_use.at_world(mx as i32, my as i32);
            proof {
                assert(site.spec_contains(mx as int, my as int));
                assert(land_use.spec_at_world(mx as int, my as int) is Some);
                lemma_band_totals_bounded(*land_use, *cfg, blocks@, k as int + 1);
                lemma_band_totals_bounded(*land_use, *cfg, blocks@, k as int);
                lemma_magnitude_monotone(blocks@, k as int + 1, blocks.len() as int);
            }
            let d = match cell {
                Some(c) => c.density as i64,
                None => 0,
            };
            let w = b.width();
            let h = b.height();
            proof {
                assert(abs_of(area(blocks@[k as int])) <= i64::MAX);
                assert(w * h == area(blocks@[k as int]));
            }
            let a = w * h;
            if d <= low_max {
                low_sum = low_sum + a;
                low_count = low_count + 1;
            } else if d >= high_min {
                high_sum = high_sum + a;
                high_count = high_count + 1;
            }
            k += 1;
        }
        proof {
            lemma_band_totals_bounded(*land_use, *cfg, blocks@, blocks.len() as int);
        }
        if low_count == 0 || high_count == 0 {
            return None;
        }
        Some((low_sum / low_count, high_sum / high_count))
    }

    /// Shortest network distances from `nodes[start]` to every node, by
    /// node index: `None` where no walk along edges leads there. A walk's
    /// length is the sum of its edges' lengths.
    fn dijkstra_from(&self, start: usize) -> (r: Vec<Option<i64>>)
        requires
            start < self.spec_nodes().len(),
            self.spec_nodes().len() <= ROUTED_NODES_MAX,
        ensures
            r.len() == self.spec_nodes().len(),
            forall|i: int|
                0 <= i < r.len() ==> ((#[trigger] r@[i] is Some) <==> connected(
                    self.spec_edges(),
                    self.spec_nodes()[start as int],
                    self.spec_nodes()[i],
                )),
            forall|i: int|
                0 <= i < r.len() && (#[trigger] r@[i] is Some) ==> is_shortest(
                    self.spec_edges(),
                    self.spec_nodes()[start as int],
                    self.spec_nodes()[i],
                    r@[i].unwrap() as int,
                ),
    {
        let nodes = self.nodes();
        let edges = self.edges();
        let n = nodes.len();
        let m = edges.len();
        let ghost src = nodes@[start as int];
        let mut dist: Vec<i64> = Vec::new();
        let mut known: Vec<bool> = Vec::new();
        let mut done: Vec<bool> = Vec::new();
        let mut z: usize = 0;
        while z < n
            invariant
                z <= n,
                dist.len() == z,
                known.len() == z,
                done.len() == z,
                forall|i: int| 0 <= i < z ==> !(#[trigger] known@[i]) && !done@[i] && dist@[i] == 0,
            decreases n - z,
        {
            dist.push(0);
            known.push(false);
            done.push(false);
            z += 1;
        }
        proof {
            assert(!known@[start as int] && dist@[start as int] == 0);
            assert forall|i: int| 0 <= i < done.len() implies !done@[i] by {
                assert(!known@[i]);
            }
        }
        known.set(start, true);
        proof {
            let p0 = seq![src];
            assert(route(edges@, p0, src, nodes@[start as int]));
            assert(path_len(p0) == 0);
            assert(realizable(edges@, nodes@, src, known@, dist@)) by {
                assert forall|i: int| 0 <= i < nodes.len() && #[trigger] known@[i] implies exists|p: Seq<(i32, i32)>|
                    #[trigger] route(edges@, p, src, nodes@[i]) && path_len(p) == dist@[i] by {
                    assert(i == start);
                    assert(route(edges@, p0, src, nodes@[i]));
                }
            }
            lemma_unmarked_bounds(done@, n as int);
            assert(unmarked(done@, n as int) == n) by {
                lemma_all_unmarked(done@, n as int);
            }
        }
        loop
            invariant
                n == nodes.len(),
                m == edges.len(),
                nodes@ == self.spec_nodes(),
                edges@ == self.spec_edges(),
                graph_shape(edges@, nodes@),
                n <= ROUTED_NODES_MAX,
                start < n,
                dist.len() == n,
                known.len() == n,
                done.len() == n,
                src == nodes@[start as int],
                known@[start as int],
                dist@[start as int] == 0,
                forall|i: int| 0 <= i < n && #[trigger] done@[i] ==> known@[i],
                realizable(edges@, nodes@, src, known@, dist@),
                optimal(edges@, nodes@, src, done@, dist@),
                forall|a: int| 0 <= a < n && #[trigger] done@[a] ==> relaxed(edges@, nodes@, known@, dist@, a, m as int),
                0 <= unmarked(done@, n as int) <= n,
                forall|i: int| 0 <= i < n && #[trigger] known@[i] ==> 0 <= dist@[i] <= (n - unmarked(done@, n as int)) * 0x1_0000_0000,
            ensures
                forall|j: int| 0 <= j < n && #[trigger] known@[j] ==> done@[j],
            decreases unmarked(done@, n as int),
        {
            let mut best: usize = n;
            let mut i: usize = 0;
            while i < n
                invariant
                    n == dist.len(),
                    n == known.len(),
                    n == done.len(),
                    i <= n,
                    best == n || (best < n && known@[best as int] && !done@[best as int]),
                    forall|j: int| 0 <= j < i && #[trigger] known@[j] && !done@[j] ==> best < n && dist@[best as int] <= dist@[j],
                decreases n - i,
            {
                if known[i] && !done[i] && (best == n || dist[i] < dist[best]) {
                    best = i;
                }
                i += 1;
            }
            if best == n {
                break;
            }
            let x = best;
            let ghost cnt0 = n - unmarked(done@, n as int);
            proof {
                lemma_settle_optimal(edges@, nodes@, done@, known@, dist@, start as int, x as int);
                lemma_unmarked_mark(done@, x as int, n as int);
            }
            done.set(x, true);
            proof {
                lemma_unmarked_bounds(done@, n as int);
                assert(optimal(edges@, nodes@, src, done@, dist@));
            }
            let dx = dist[x];
            let xv = nodes[x];
            let mut k: usize = 0;
            while k < m
                invariant
                    n == nodes.len(),
                    m == edges.len(),
                    nodes@ == self.spec_nodes(),
                    edges@ == self.spec_edges(),
                    graph_shape(edges@, nodes@),
                    n <= ROUTED_NODES_MAX,
                    start < n,
                    x < n,
                    dist.len() == n,
                    known.len() == n,
                    done.len() == n,
                    src == nodes@[start as int],
                    xv == nodes@[x as int],
                    known@[start as int],
                    dist@[start as int] == 0,
                    done@[x as int],
                    dist@[x as int] == dx,
                    k <= m,
                    forall|i: int| 0 <= i < n && #[trigger] done@[i] ==> known@[i],
                    realizable(edges@, nodes@, src, known@, dist@),
                    optimal(edges@, nodes@, src, done@, dist@),
                    forall|a: int| 0 <= a < n && #[trigger] done@[a] && a != x ==> relaxed(edges@, nodes@, known@, dist@, a, m as int),
                    relaxed(edges@, nodes@, known@, dist@, x as int, k as int),
                    0 <= unmarked(done@, n as int) < n,
                    0 <= dx <= (n - unmarked(done@, n as int) - 1) * 0x1_0000_0000,
                    forall|i: int| 0 <= i < n && #[trigger] known@[i] ==> 0 <= dist@[i] <= (n - unmarked(done@, n as int)) * 0x1_0000_0000,
                decreases m - k,
            {
                let e = edges[k];
                let (sx, sy) = e.start();
                let (ex, ey) = e.end();
                let at_start = sx == xv.0 && sy == xv.1;
                let at_end = ex == xv.0 && ey == xv.1;
                if at_start || at_end {
                    let other = if at_start {
                        (ex, ey)
                    } else {
                        (sx, sy)
                    };
                    proof {
                        assert(joins(edges@[k as int], xv, other));
                        assert(nodes@.contains(edges@[k as int].spec_start()) && nodes@.contains(edges@[k as int].spec_end()));
                    }
                    match node_index(nodes, other) {
                        Some(w) => {
                            let len = e.length();
                            assert(len == step_len(xv, other));
                            let nd = dx + len;
                            let ghost before_known = known@;
                            let ghost before_dist = dist@;
                            if !known[w] || nd < dist[w] {
                                proof {
                                    let p = choose|p: Seq<(i32, i32)>| #[trigger] route(edges@, p, src, nodes@[x as int]) && path_len(p) == dist@[x as int];
                                    lemma_route_step(edges@, p, src, xv, other, k as int);
                                    if done@[w as int] {
                                        assert(route(edges@, p.push(other), src, nodes@[w as int]));
                                    }
                                    assert(!done@[w as int]);
                                }
                                dist.set(w, nd);
                                known.set(w, true);
                                proof {
                                    let p = choose|p: Seq<(i32, i32)>| #[trigger] route(edges@, p, src, nodes@[x as int]) && path_len(p) == before_dist[x as int];
                                    lemma_route_step(edges@, p, src, xv, other, k as int);
                                    assert forall|i: int| 0 <= i < nodes.len() && #[trigger] known@[i] implies exists|q: Seq<(i32, i32)>|
                                        #[trigger] route(edges@, q, src, nodes@[i]) && path_len(q) == dist@[i] by {
                                        if i == w {
                                            assert(route(edges@, p.push(other), src, nodes@[i]));
                                        } else {
                                            assert(before_known[i]);
                                        }
                                    }
                                    assert forall|a: int| 0 <= a < n && #[trigger] done@[a] && a != x implies relaxed(edges@, nodes@, known@, dist@, a, m as int) by {
                                        assert(relaxed(edges@, nodes@, before_known, before_dist, a, m as int));
                                        assert(a != w);
                                    }
                                }
                            }
                            proof {
                                assert forall|j: int, kk: int|
                                    0 <= j < nodes.len() && 0 <= kk < k + 1 && #[trigger] joins(edges@[kk], nodes@[x as int], nodes@[j]) implies known@[j] && dist@[j]
                                        <= dist@[x as int] + step_len(nodes@[x as int], nodes@[j]) by {
                                    if kk == k {
                                        assert(nodes@[j] == other);
                                        lemma_index_unique(nodes@, j, w as int);
                                    }
                                }
                            }
                        },
                        None => {
                            assert(false);
                        },
                    }
                } else {
                    proof {
                        assert forall|j: int, kk: int|
                            0 <= j < nodes.len() && 0 <= kk < k + 1 && #[trigger] joins(edges@[kk], nodes@[x as int], nodes@[j]) implies known@[j] && dist@[j]
                                <= dist@[x as int] + step_len(nodes@[x as int], nodes@[j]) by {
                            if kk == k {
                                assert(false);
                            }
                        }
                    }
                }
                k += 1;
            }
        }
        let mut out: Vec<Option<i64>> = Vec::new();
        let mut i: usize = 0;
        while i < n
            invariant
                i <= n,
                n == nodes.len(),
                nodes@ == self.spec_nodes(),
                edges@ == self.spec_edges(),
                graph_shape(edges@, nodes@),
                start < n,
                dist.len() == n,
                known.len() == n,
                done.len() == n,
                src == nodes@[start as int],
                known@[start as int],
                dist@[start as int] == 0,
                forall|j: int| 0 <= j < n && #[trigger] known@[j] ==> done@[j],
                forall|j: int| 0 <= j < n && #[trigger] done@[j] ==> known@[j],
                realizable(edges@, nodes@, src, known@, dist@),
                optimal(edges@, nodes@, src, done@, dist@),
                forall|a: int| 0 <= a < n && #[trigger] done@[a] ==> relaxed(edges@, nodes@, known@, dist@, a, edges.len() as int),
                out.len() == i,
                forall|j: int| 0 <= j < i ==> (#[trigger] out@[j] is Some <==> known@[j]),
                forall|j: int| 0 <= j < i && (#[trigger] out@[j] is Some) ==> out@[j].unwrap() == dist@[j],
            decreases n - i,
        {
            if known[i] {
                out.push(Some(dist[i]));
            } else {
                out.push(None);
            }
            i += 1;
        }
        proof {
            assert forall|i: int| 0 <= i < out.len() implies ((#[trigger] out@[i] is Some) <==> connected(edges@, src, nodes@[i])) by {
                if known@[i] {
                    let p = choose|p: Seq<(i32, i32)>| #[trigger] route(edges@, p, src, nodes@[i]) && path_len(p) == dist@[i];
                    assert(is_path(edges@, p) && p[0] == src && p.last() == nodes@[i]);
                }
                if connected(edges@, src, nodes@[i]) {
                    let p = choose|p: Seq<(i32, i32)>| #[trigger] is_path(edges@, p) && p[0] == src && p.last() == nodes@[i];
                    lemma_reach_finished(edges@, nodes@, done@, known@, dist@, start as int, p, p.len() - 1);
                    let a = choose|a: int| 0 <= a < nodes.len() && nodes@[a] == p[p.len() - 1] && #[trigger] done@[a];
                    lemma_index_unique(nodes@, a, i);
                }
            }
            assert forall|i: int| 0 <= i < out.len() && (#[trigger] out@[i] is Some) implies is_shortest(edges@, src, nodes@[i], out@[i].unwrap() as int) by {
                assert(known@[i] && done@[i]);
                let p = choose|p: Seq<(i32, i32)>| #[trigger] route(edges@, p, src, nodes@[i]) && path_len(p) == dist@[i];
                assert(route(edges@, p, src, nodes@[i]) && path_len(p) == out@[i].unwrap() as int);
            }
        }
        out
    }

    /// Over up to about `max_nodes` evenly spaced nodes (every `step`-th
    /// from the first, `step = max(n / max(max_nodes, 1), 1)`), one sample
    /// per pair, in sample order, of two apart nodes the second of which is
    /// reachable from the first: their shortest network distance and their
    /// Manhattan distance. Never a random sample: the same network always
    /// yields the same pairs.
    pub fn all_pair_samples(&self, max_nodes: usize) -> (r: Vec<DetourSample>)
        requires
            self.spec_nodes().len() <= ROUTED_NODES_MAX,
        ensures
            r@ == spec_all_pair_samples(*self, max_nodes as int),
            forall|k: int| 0 <= k < r.len() ==> #[trigger] sample_measured(self.spec_edges(), r@[k]),
    {
        let nodes = self.nodes();
        let edges = self.edges();
        let n = nodes.len();
        if n == 0 {
            proof {
                let st = sample_step(0, max_nodes as int);
                assert(sampled_from(nodes@, st, 0) == Seq::<(i32, i32)>::empty());
            }
            return Vec::new();
        }
        let m = if max_nodes >= 1 {
            max_nodes
        } else {
            1
        };
        let step = if n / m >= 1 {
            n / m
        } else {
            1
        };
        let ghost st = step as int;
        assert(st == sample_step(n as int, max_nodes as int));
        let mut sample: Vec<(i32, i32)> = Vec::new();
        let mut sample_at: Vec<usize> = Vec::new();
        let mut idx: usize = 0;
        while idx < n
            invariant
                n == nodes.len(),
                step >= 1,
                st == step,
                sample.len() == sample_at.len(),
                forall|a: int| 0 <= a < sample.len() ==> (#[trigger] sample_at@[a]) < n && nodes@[sample_at@[a] as int] == sample@[a],
                sample@ + sampled_from(nodes@, st, idx as int) == sampled_from(nodes@, st, 0),
            decreases n - idx,
        {
            let ghost before = sample@;
            sample.push(nodes[idx]);
            sample_at.push(idx);
            let ghost rest = if idx + st >= n {
                Seq::<(i32, i32)>::empty()
            } else {
                sampled_from(nodes@, st, idx + st)
            };
            proof {
                assert(sampled_from(nodes@, st, idx as int) == seq![nodes@[idx as int]] + rest);
                assert(sample@ == before + seq![nodes@[idx as int]]);
                assert(sample@ + rest == before + (seq![nodes@[idx as int]] + rest));
            }
            if n - idx <= step {
                idx = n;
                proof {
                    assert(sampled_from(nodes@, st, idx as int) == Seq::<(i32, i32)>::empty());
                    assert(rest == Seq::<(i32, i32)>::empty());
                }
            } else {
                idx = idx + step;
            }
        }
        let ghost s = sample@;
        assert(s == sampled_from(nodes@, st, 0)) by {
            assert(sampled_from(nodes@, st, idx as int) == Seq::<(i32, i32)>::empty());
        }
        let mut out: Vec<DetourSample> = Vec::new();
        let mut i: usize = 0;
        while i < sample.len()
            invariant
                n == nodes.len(),
                nodes@ == self.spec_nodes(),
                edges@ == self.spec_edges(),
                n <= ROUTED_NODES_MAX,
                sample@ == s,
                sample.len() == sample_at.len(),
                forall|a: int| 0 <= a < sample.len() ==> (#[trigger] sample_at@[a]) < n && nodes@[sample_at@[a] as int] == sample@[a],
                i <= sample.len(),
                out@ == samples_upto(edges@, s, i as int),
                forall|k: int| 0 <= k < out.len() ==> #[trigger] sample_measured(edges@, out@[k]),
            decreases sample.len() - i,
        {
            let a = sample[i];
            let dist = self.dijkstra_from(sample_at[i]);
            let mut j: usize = i + 1;
            proof {
                assert(row_samples(edges@, s, i as int, j as int) == Seq::<DetourSample>::empty());
                assert(out@ == samples_upto(edges@, s, i as int) + row_samples(edges@, s, i as int, j as int));
            }
            while j < sample.len()
                invariant
                    n == nodes.len(),
                    nodes@ == self.spec_nodes(),
                    edges@ == self.spec_edges(),
                    sample@ == s,
                    sample.len() == sample_at.len(),
                    forall|c: int| 0 <= c < sample.len() ==> (#[trigger] sample_at@[c]) < n && nodes@[sample_at@[c] as int] == sample@[c],
                    i < sample.len(),
                    a == s[i as int],
                    i + 1 <= j <= sample.len(),
                    dist.len() == n,
                    forall|c: int|
                        0 <= c < n ==> ((#[trigger] dist@[c] is Some) <==> connected(edges@, a, nodes@[c])),
                    forall|c: int|
                        0 <= c < n && (#[trigger] dist@[c] is Some) ==> is_shortest(edges@, a, nodes@[c], dist@[c].unwrap() as int),
                    out@ == samples_upto(edges@, s, i as int) + row_samples(edges@, s, i as int, j as int),
                    forall|k: int| 0 <= k < out.len() ==> #[trigger] sample_measured(edges@, out@[k]),
                decreases sample.len() - j,
            {
                let b = sample[j];
                let manhattan: i64 = abs_i64(a.0 as i64 - b.0 as i64) + abs_i64(a.1 as i64 - b.1 as i64);
                let ghost prev = out@;
                proof {
                    assert(nodes@[sample_at@[j as int] as int] == b);
                }
                if manhattan != 0 {
                    match dist[sample_at[j]] {
                        Some(network) => {
                            proof {
                                lemma_shortest_unique(edges@, a, b, network as int);
                                lemma_shortest_at_least_manhattan(edges@, a, b, network as int);
                            }
                            out.push(DetourSample { a, b, network, manhattan });
                            proof {
                                assert(sample_measured(edges@, out@[out.len() - 1]));
                            }
                        },
                        None => {},
                    }
                }
                proof {
                    assert(row_samples(edges@, s, i as int, j + 1) == row_samples(edges@, s, i as int, j as int) + pair_sample(edges@, s[i as int], s[j as int]));
                    if manhattan != 0 && dist@[sample_at@[j as int] as int] is Some {
                        assert(out@ == prev.push(DetourSample { a, b, network: network_distance(edges@, a, b) as i64, manhattan: step_len(a, b) as i64 }));
                        assert(out@ == prev + pair_sample(edges@, a, b));
                    } else {
                        assert(pair_sample(edges@, a, b) == Seq::<DetourSample>::empty());
                        assert(out@ == prev + pair_sample(edges@, a, b));
                    }
                }
                j += 1;
            }
            proof {
                assert(samples_upto(edges@, s, i + 1) == samples_upto(edges@, s, i as int) + row_samples(edges@, s, i as int, s.len() as int));
            }
            i += 1;
        }
        out
    }

    /// [`Self::all_pair_samples`] without the pairs whose two ends both sit
    /// on the site boundary: two exits of the city are never joined along
    /// its edge, so such a pair measures nothing about getting across it.
    pub fn detour_samples(&self, max_nodes: usize) -> (r: Vec<DetourSample>)
        requires
            self.spec_nodes().len() <= ROUTED_NODES_MAX,
        ensures
            r@ == off_boundary(*self, spec_all_pair_samples(*self, max_nodes as int)),
            forall|k: int| 0 <= k < r.len() ==> #[trigger] sample_measured(self.spec_edges(), r@[k]),
    {
        let all = self.all_pair_samples(max_nodes);
        let mut out: Vec<DetourSample> = Vec::new();
        let mut i: usize = 0;
        while i < all.len()
            invariant
                i <= all.len(),
                out@ == off_boundary(*self, all@.take(i as int)),
                forall|k: int| 0 <= k < all.len() ==> #[trigger] sample_measured(self.spec_edges(), all@[k]),
                forall|k: int| 0 <= k < out.len() ==> #[trigger] sample_measured(self.spec_edges(), out@[k]),
            decreases all.len() - i,
        {
            let x = all[i];
            proof {
                assert(all@.take(i + 1).drop_last() == all@.take(i as int));
                assert(all@.take(i + 1).last() == x);
            }
            if !(self.is_on_boundary(x.a) && self.is_on_boundary(x.b)) {
                out.push(x);
                proof {
                    assert(sample_measured(self.spec_edges(), all@[i as int]));
                }
            }
            i += 1;
        }
        assert(all@.take(all.len() as int) == all@);
        out
    }
}

} // verus!
