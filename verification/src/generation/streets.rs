//! Pass 2: the street network. Axis-aligned by construction: a
//! [`StreetEdge`] is `{axis, coord, from, to, class}`, so a diagonal is
//! unrepresentable in the type. This module holds the network's own
//! types, the planar-graph construction every checker stands on, and the
//! network's own structural checks (connectivity, dead ends, junction mix,
//! block variety, staggered junctions, detours).

use vstd::prelude::*;
use super::{GenerationConfig, PASS_STREETS, SiteBounds, trunc_div, fits_i32};
use crate::rng::{Rng, xoshiro_advance, xoshiro_output};
use super::land_use::{LandUse, LandUseCell, LandUseMap, lemma_fall_bounds, jitter_span};
use super::block_use::{floor_div, window_hi, window_lo};
use super::street_checks::{clamp_int, covers_site};
use crate::world::collision::Rect;
use std::collections::BTreeMap;

verus! {

/// This pass's own stream id.
pub const PASS_ID: u64 = PASS_STREETS;

#[derive(Debug, Clone, Copy, PartialEq, Eq, PartialOrd, Ord, Hash, Structural)]
pub enum Axis {
    Vertical,
    Horizontal,
}

#[derive(Debug, Clone, Copy, PartialEq, Eq, PartialOrd, Ord, Hash, Structural)]
pub enum StreetClass {
    Arterial,
    Street,
    Lane,
}

/// One axis-aligned street segment: `coord` is the fixed axis (x for
/// [`Axis::Vertical`], y for [`Axis::Horizontal`]), `from`/`to` the range
/// along the perpendicular axis. `width_cells` is baked in from `class`
/// at generation time, so a consumer never needs the config again to know
/// a segment's own footprint.
#[derive(Debug, Clone, Copy, PartialEq, Eq, PartialOrd, Ord, Structural)]
pub struct StreetEdge {
    pub axis: Axis,
    pub coord: i32,
    pub from: i32,
    pub to: i32,
    pub class: StreetClass,
    pub width_cells: i32,
}

impl StreetEdge {
    pub open spec fn spec_start(self) -> (i32, i32) {
        match self.axis {
            Axis::Vertical => (self.coord, self.from),
            Axis::Horizontal => (self.from, self.coord),
        }
    }

    pub open spec fn spec_end(self) -> (i32, i32) {
        match self.axis {
            Axis::Vertical => (self.coord, self.to),
            Axis::Horizontal => (self.to, self.coord),
        }
    }

    /// The world-cell rect this segment's own carriageway and pavement
    /// occupy: `width_cells / 2` (rounded toward zero) either side of the
    /// centreline.
    pub open spec fn spec_rect(self) -> Rect {
        let half = trunc_div(self.width_cells as int, 2);
        match self.axis {
            Axis::Vertical => Rect {
                x0: (self.coord - half) as i32,
                y0: self.from,
                x1: (self.coord + half) as i32,
                y1: self.to,
            },
            Axis::Horizontal => Rect {
                x0: self.from,
                y0: (self.coord - half) as i32,
                x1: self.to,
                y1: (self.coord + half) as i32,
            },
        }
    }

    pub fn start(&self) -> (r: (i32, i32))
        ensures
            r == self.spec_start(),
    {
        match self.axis {
            Axis::Vertical => (self.coord, self.from),
            Axis::Horizontal => (self.from, self.coord),
        }
    }

    pub fn end(&self) -> (r: (i32, i32))
        ensures
            r == self.spec_end(),
    {
        match self.axis {
            Axis::Vertical => (self.coord, self.to),
            Axis::Horizontal => (self.to, self.coord),
        }
    }

    pub fn length(&self) -> (r: i64)
        ensures
            r == self.to - self.from,
    {
        self.to as i64 - self.from as i64
    }

    pub fn rect(&self) -> (r: Rect)
        requires
            fits_i32(self.coord - trunc_div(self.width_cells as int, 2)),
            fits_i32(self.coord + trunc_div(self.width_cells as int, 2)),
        ensures
            r == self.spec_rect(),
    {
        let half = self.width_cells / 2;
        match self.axis {
            Axis::Vertical => Rect { x0: self.coord - half, y0: self.from, x1: self.coord + half, y1: self.to },
            Axis::Horizontal => Rect { x0: self.from, y0: self.coord - half, x1: self.to, y1: self.coord + half },
        }
    }
}

/// One side of a block.
#[derive(Debug, Clone, Copy, PartialEq, Eq, PartialOrd, Ord, Hash, Structural)]
pub enum Side {
    North,
    East,
    South,
    West,
}

/// Which of a block's four sides abut a street.
#[derive(Debug, Clone, Copy, PartialEq, Eq, Structural)]
pub struct Sides {
    pub north: bool,
    pub east: bool,
    pub south: bool,
    pub west: bool,
}

impl Sides {
    pub open spec fn spec_get(self, side: Side) -> bool {
        match side {
            Side::North => self.north,
            Side::East => self.east,
            Side::South => self.south,
            Side::West => self.west,
        }
    }

    /// Whether `side` abuts a street.
    pub fn get(&self, side: Side) -> (b: bool)
        ensures
            b == self.spec_get(side),
    {
        match side {
            Side::North => self.north,
            Side::East => self.east,
            Side::South => self.south,
            Side::West => self.west,
        }
    }

    /// Whether any side abuts a street.
    pub fn any(&self) -> (b: bool)
        ensures
            b == (self.north || self.east || self.south || self.west),
    {
        self.north || self.east || self.south || self.west
    }
}

/// Which sides of a block abut a street: every side not lying on the
/// site's own boundary. Every block is bounded by streets except where
/// it meets the edge of the site.
pub open spec fn spec_block_sides(block: Rect, site: SiteBounds) -> Sides {
    Sides { north: block.y0 != site.y0, east: block.x1 != site.x1, south: block.y1 != site.y1, west: block.x0 != site.x0 }
}

pub fn block_sides(block: Rect, site: SiteBounds) -> (s: Sides)
    ensures
        s == spec_block_sides(block, site),
        s.north == (block.y0 != site.y0),
        s.south == (block.y1 != site.y1),
        s.west == (block.x0 != site.x0),
        s.east == (block.x1 != site.x1),
{
    Sides { north: block.y0 != site.y0, east: block.x1 != site.x1, south: block.y1 != site.y1, west: block.x0 != site.x0 }
}

/// One finished block: a leaf rect, already inset from every surrounding
/// street's own half-width.
#[derive(Debug, Clone, Copy, PartialEq, Eq, PartialOrd, Ord, Structural)]
pub struct Block {
    pub bounds: Rect,
}

/// `o` (perpendicular to `s`) meets `s`: its line falls within `s`'s
/// range and `s`'s line within its own.
pub open spec fn meets(s: StreetEdge, o: StreetEdge) -> bool {
    s.from <= o.coord <= s.to && o.from <= s.coord <= o.to
}

/// `p` is a breakpoint of segment `s` among `segs`: one of its own ends,
/// where a perpendicular segment meets it, or where a collinear segment on
/// the same line starts or ends within its range.
pub open spec fn is_break(segs: Seq<StreetEdge>, s: StreetEdge, p: int) -> bool {
    ||| p == s.from
    ||| p == s.to
    ||| exists|k: int| 0 <= k < segs.len() && #[trigger] breaks_at(s, segs[k], p)
}

/// What segment `o` contributes to `s`'s breakpoints at `p`.
pub open spec fn breaks_at(s: StreetEdge, o: StreetEdge, p: int) -> bool {
    ||| (o.axis != s.axis && meets(s, o) && p == o.coord)
    ||| (o.axis == s.axis && o.coord == s.coord && s.from <= p <= s.to && (p == o.from || p == o.to))
}

/// The piece of `s` from `a` to `b`.
pub open spec fn piece(s: StreetEdge, a: int, b: int) -> StreetEdge {
    StreetEdge { from: a as i32, to: b as i32, ..s }
}

/// `e` is one of the pieces [`build_graph`] cuts `s` into: between two
/// consecutive breakpoints of `s`.
pub open spec fn piece_of(segs: Seq<StreetEdge>, s: StreetEdge, e: StreetEdge) -> bool {
    &&& e == piece(s, e.from as int, e.to as int)
    &&& e.from < e.to
    &&& is_break(segs, s, e.from as int)
    &&& is_break(segs, s, e.to as int)
    &&& forall|p: int| e.from < p < e.to ==> !#[trigger] is_break(segs, s, p)
}

/// `e` is a piece of some segment among `segs`.
pub open spec fn graph_edge(segs: Seq<StreetEdge>, e: StreetEdge) -> bool {
    exists|k: int| 0 <= k < segs.len() && #[trigger] piece_of(segs, segs[k], e)
}

/// `n` is an end of some piece among `segs`.
pub open spec fn graph_node(segs: Seq<StreetEdge>, n: (i32, i32)) -> bool {
    exists|e: StreetEdge| #[trigger] graph_edge(segs, e) && ends_at(e, n)
}

/// `n` is one of `e`'s two ends.
pub open spec fn ends_at(e: StreetEdge, n: (i32, i32)) -> bool {
    e.spec_start() == n || e.spec_end() == n
}

/// The order [`build_graph`] sorts edges by: axis (vertical first), line,
/// then range.
pub open spec fn edge_key_le(a: StreetEdge, b: StreetEdge) -> bool {
    let ka: int = if a.axis == Axis::Vertical { 0 } else { 1 };
    let kb: int = if b.axis == Axis::Vertical { 0 } else { 1 };
    ka < kb || (ka == kb && (a.coord < b.coord || (a.coord == b.coord && (a.from < b.from || (a.from == b.from
        && a.to <= b.to)))))
}

/// Nodes are ordered by x, then y.
pub open spec fn node_lt(a: (i32, i32), b: (i32, i32)) -> bool {
    a.0 < b.0 || (a.0 == b.0 && a.1 < b.1)
}

fn edge_key_le_exec(a: &StreetEdge, b: &StreetEdge) -> (r: bool)
    ensures
        r == edge_key_le(*a, *b),
{
    let ka: u8 = match a.axis {
        Axis::Vertical => 0,
        Axis::Horizontal => 1,
    };
    let kb: u8 = match b.axis {
        Axis::Vertical => 0,
        Axis::Horizontal => 1,
    };
    ka < kb || (ka == kb && (a.coord < b.coord || (a.coord == b.coord && (a.from < b.from || (a.from == b.from
        && a.to <= b.to)))))
}

/// Adds `p` to a strictly increasing vector, keeping it so.
fn insert_unique_i32(v: &mut Vec<i32>, p: i32)
    requires
        forall|i: int, j: int| 0 <= i < j < old(v).len() ==> old(v)@[i] < old(v)@[j],
    ensures
        forall|i: int, j: int| 0 <= i < j < final(v).len() ==> final(v)@[i] < final(v)@[j],
        forall|q: i32| #[trigger] final(v)@.contains(q) <==> (old(v)@.contains(q) || q == p),
{
    let mut k: usize = 0;
    while k < v.len() && v[k] < p
        invariant
            k <= v.len(),
            forall|j: int| 0 <= j < k ==> v@[j] < p,
        decreases v.len() - k,
    {
        k += 1;
    }
    if k < v.len() && v[k] == p {
        return;
    }
    let ghost o = v@;
    v.insert(k, p);
    proof {
        assert forall|j: int| 0 <= j < v.len() implies #[trigger] v@[j] == if j < k {
            o[j]
        } else if j == k {
            p
        } else {
            o[j - 1]
        } by {}
        assert forall|q: i32| #[trigger] v@.contains(q) <==> (o.contains(q) || q == p) by {
            if o.contains(q) {
                let j = choose|j: int| 0 <= j < o.len() && o[j] == q;
                if j < k {
                    assert(v@[j] == q);
                } else {
                    assert(v@[j + 1] == q);
                }
            }
            if q == p {
                assert(v@[k as int] == q);
            }
            if v@.contains(q) {
                let j = choose|j: int| 0 <= j < v.len() && v@[j] == q;
                if j < k {
                    assert(o[j] == q);
                } else if j > k {
                    assert(o[j - 1] == q);
                }
            }
        }
    }
}

/// Adds `n` to a vector strictly increasing in [`node_lt`], keeping it so.
fn insert_unique_node(v: &mut Vec<(i32, i32)>, n: (i32, i32))
    requires
        forall|i: int, j: int| 0 <= i < j < old(v).len() ==> node_lt(old(v)@[i], old(v)@[j]),
    ensures
        forall|i: int, j: int| 0 <= i < j < final(v).len() ==> node_lt(final(v)@[i], final(v)@[j]),
        forall|q: (i32, i32)| #[trigger] final(v)@.contains(q) <==> (old(v)@.contains(q) || q == n),
{
    let mut k: usize = 0;
    while k < v.len() && (v[k].0 < n.0 || (v[k].0 == n.0 && v[k].1 < n.1))
        invariant
            k <= v.len(),
            forall|j: int| 0 <= j < k ==> node_lt(v@[j], n),
        decreases v.len() - k,
    {
        k += 1;
    }
    if k < v.len() && v[k].0 == n.0 && v[k].1 == n.1 {
        assert(v@[k as int] == n);
        return;
    }
    let ghost o = v@;
    proof {
        if k < o.len() {
            assert(node_lt(n, o[k as int]));
            assert forall|j: int| k <= j < o.len() implies node_lt(n, #[trigger] o[j]) by {
                if j > k {
                    assert(node_lt(o[k as int], o[j]));
                }
            }
        }
    }
    v.insert(k, n);
    proof {
        assert forall|j: int| 0 <= j < v.len() implies #[trigger] v@[j] == if j < k {
            o[j]
        } else if j == k {
            n
        } else {
            o[j - 1]
        } by {}
        assert forall|i: int, j: int| 0 <= i < j < v.len() implies node_lt(v@[i], v@[j]) by {
            if j < k {
            } else if j == k {
            } else if i < k {
                assert(node_lt(o[i], o[j - 1]));
            } else if i == k {
            } else {
                assert(node_lt(o[i - 1], o[j - 1]));
            }
        }
        assert forall|q: (i32, i32)| #[trigger] v@.contains(q) <==> (o.contains(q) || q == n) by {
            if o.contains(q) {
                let j = choose|j: int| 0 <= j < o.len() && o[j] == q;
                if j < k {
                    assert(v@[j] == q);
                } else {
                    assert(v@[j + 1] == q);
                }
            }
            if q == n {
                assert(v@[k as int] == q);
            }
            if v@.contains(q) {
                let j = choose|j: int| 0 <= j < v.len() && v@[j] == q;
                if j < k {
                    assert(o[j] == q);
                } else if j > k {
                    assert(o[j - 1] == q);
                }
            }
        }
    }
}

/// The breakpoints of `s` among `segs`, strictly increasing.
fn breakpoints(segs: &[StreetEdge], s: StreetEdge) -> (bp: Vec<i32>)
    ensures
        forall|i: int, j: int| 0 <= i < j < bp.len() ==> bp@[i] < bp@[j],
        forall|q: i32| #[trigger] bp@.contains(q) <==> is_break(segs@, s, q as int),
{
    let mut bp: Vec<i32> = Vec::new();
    insert_unique_i32(&mut bp, s.from);
    insert_unique_i32(&mut bp, s.to);
    let n = segs.len();
    let mut k: usize = 0;
    while k < n
        invariant
            n == segs.len(),
            k <= n,
            forall|i: int, j: int| 0 <= i < j < bp.len() ==> bp@[i] < bp@[j],
            forall|q: i32|
                #[trigger] bp@.contains(q) <==> (q == s.from || q == s.to || exists|j: int| 0 <= j < k && #[trigger] breaks_at(s, segs@[j], q as int)),
        decreases n - k,
    {
        let o = segs[k];
        let ghost before = bp@;
        let crosses = o.from <= s.coord && s.coord <= o.to && s.from <= o.coord && o.coord <= s.to;
        if o.axis != s.axis {
            if crosses {
                insert_unique_i32(&mut bp, o.coord);
            }
        } else if o.coord == s.coord {
            if s.from <= o.from && o.from <= s.to {
                insert_unique_i32(&mut bp, o.from);
            }
            let ghost mid = bp@;
            if s.from <= o.to && o.to <= s.to {
                insert_unique_i32(&mut bp, o.to);
            }
        }
        proof {
            assert forall|q: i32|
                #[trigger] bp@.contains(q) <==> (q == s.from || q == s.to || exists|j: int| 0 <= j < k + 1 && #[trigger] breaks_at(s, segs@[j], q as int)) by {
                if breaks_at(s, segs@[k as int], q as int) {
                    assert(bp@.contains(q));
                }
                if exists|j: int| 0 <= j < k && #[trigger] breaks_at(s, segs@[j], q as int) {
                    assert(before.contains(q));
                }
                if bp@.contains(q) && !before.contains(q) {
                    assert(breaks_at(s, segs@[k as int], q as int));
                }
            }
        }
        k += 1;
    }
    proof {
        assert forall|q: i32| #[trigger] bp@.contains(q) <==> is_break(segs@, s, q as int) by {
            if is_break(segs@, s, q as int) && q != s.from && q != s.to {
                let j = choose|j: int| 0 <= j < segs@.len() && #[trigger] breaks_at(s, segs@[j], q as int);
                assert(breaks_at(s, segs@[j], q as int));
            }
        }
    }
    bp
}

/// Every breakpoint is an `i32` value.
proof fn lemma_break_fits(segs: Seq<StreetEdge>, s: StreetEdge, p: int)
    requires
        is_break(segs, s, p),
    ensures
        i32::MIN <= p <= i32::MAX,
{
    if p != s.from && p != s.to {
        let k = choose|k: int| 0 <= k < segs.len() && #[trigger] breaks_at(s, segs[k], p);
        assert(breaks_at(s, segs[k], p));
    }
}

/// Over a strictly increasing list of all of `s`'s breakpoints, the
/// pieces of `s` are exactly the spans between consecutive entries.
proof fn lemma_pieces_consecutive(segs: Seq<StreetEdge>, s: StreetEdge, bp: Seq<i32>, e: StreetEdge)
    requires
        forall|i: int, j: int| 0 <= i < j < bp.len() ==> bp[i] < bp[j],
        forall|q: i32| #[trigger] bp.contains(q) <==> is_break(segs, s, q as int),
    ensures
        piece_of(segs, s, e) <==> exists|i: int| 0 <= i < bp.len() - 1 && e == #[trigger] piece(s, bp[i] as int, bp[i + 1] as int),
{
    if piece_of(segs, s, e) {
        assert(bp.contains(e.from));
        assert(bp.contains(e.to));
        let i = choose|i: int| 0 <= i < bp.len() && bp[i] == e.from;
        let j = choose|j: int| 0 <= j < bp.len() && bp[j] == e.to;
        if j != i + 1 {
            assert(i < j);
            assert(bp.contains(bp[i + 1]));
            assert(is_break(segs, s, bp[i + 1] as int));
            assert(false);
        }
        assert(e == piece(s, bp[i] as int, bp[i + 1] as int));
    }
    if exists|i: int| 0 <= i < bp.len() - 1 && e == #[trigger] piece(s, bp[i] as int, bp[i + 1] as int) {
        let i = choose|i: int| 0 <= i < bp.len() - 1 && e == #[trigger] piece(s, bp[i] as int, bp[i + 1] as int);
        assert(bp.contains(bp[i]));
        assert(bp.contains(bp[i + 1]));
        assert forall|p: int| e.from < p < e.to implies !#[trigger] is_break(segs, s, p) by {
            if is_break(segs, s, p) {
                lemma_break_fits(segs, s, p);
                assert(bp.contains(p as i32));
                let j = choose|j: int| 0 <= j < bp.len() && bp[j] == p as i32;
                if j <= i {
                    if j < i {
                        assert(bp[j] < bp[i]);
                    }
                } else if j >= i + 1 {
                    if j > i + 1 {
                        assert(bp[i + 1] < bp[j]);
                    }
                }
            }
        }
    }
}

/// Appends the pieces of `s` (cut at its breakpoints `bp`) to `edges`,
/// and their ends to `nodes`.
fn push_pieces(
    segs: &[StreetEdge],
    s: StreetEdge,
    bp: &Vec<i32>,
    edges: &mut Vec<StreetEdge>,
    nodes: &mut Vec<(i32, i32)>,
)
    requires
        forall|i: int, j: int| 0 <= i < j < bp.len() ==> bp@[i] < bp@[j],
        forall|q: i32| #[trigger] bp@.contains(q) <==> is_break(segs@, s, q as int),
        forall|i: int, j: int| 0 <= i < j < old(nodes).len() ==> node_lt(old(nodes)@[i], old(nodes)@[j]),
        forall|n: (i32, i32)| #[trigger] old(nodes)@.contains(n) <==> exists|i: int|
            0 <= i < old(edges).len() && #[trigger] ends_at(old(edges)@[i], n),
    ensures
        forall|i: int, j: int| 0 <= i < j < final(nodes).len() ==> node_lt(final(nodes)@[i], final(nodes)@[j]),
        forall|n: (i32, i32)| #[trigger] final(nodes)@.contains(n) <==> exists|i: int|
            0 <= i < final(edges).len() && #[trigger] ends_at(final(edges)@[i], n),
        forall|e: StreetEdge| #[trigger] final(edges)@.contains(e) <==> (old(edges)@.contains(e) || piece_of(segs@, s, e)),
{
    let ghost e0 = edges@;
    let n = bp.len();
    let mut i: usize = 1;
    while i < n
        invariant
            n == bp.len(),
            1 <= i <= n || n == 0,
            forall|a: int, b: int| 0 <= a < b < bp.len() ==> bp@[a] < bp@[b],
            forall|a: int, b: int| 0 <= a < b < nodes.len() ==> node_lt(nodes@[a], nodes@[b]),
            forall|m: (i32, i32)| #[trigger] nodes@.contains(m) <==> exists|k: int|
                0 <= k < edges.len() && #[trigger] ends_at(edges@[k], m),
            forall|e: StreetEdge| #[trigger] edges@.contains(e) <==> (e0.contains(e) || exists|k: int|
                0 <= k < i - 1 && e == #[trigger] piece(s, bp@[k] as int, bp@[k + 1] as int)),
        decreases n - i,
    {
        let e = StreetEdge { from: bp[i - 1], to: bp[i], ..s };
        assert(e == piece(s, bp@[i - 1] as int, bp@[i as int] as int));
        let ghost eb = edges@;
        let ghost nb = nodes@;
        edges.push(e);
        insert_unique_node(nodes, e.start());
        let ghost nm = nodes@;
        insert_unique_node(nodes, e.end());
        proof {
            assert(edges@ == eb.push(e));
            let last = edges.len() - 1;
            assert(edges@[last] == e);
            assert(ends_at(edges@[last], e.spec_start()));
            assert(ends_at(edges@[last], e.spec_end()));
            assert forall|m: (i32, i32)| #[trigger] nodes@.contains(m) <==> exists|k: int|
                0 <= k < edges.len() && #[trigger] ends_at(edges@[k], m) by {
                if nodes@.contains(m) {
                    if nb.contains(m) {
                        let k = choose|k: int| 0 <= k < eb.len() && #[trigger] ends_at(eb[k], m);
                        assert(edges@[k] == eb[k]);
                        assert(ends_at(edges@[k], m));
                    } else {
                        assert(m == e.spec_start() || m == e.spec_end());
                    }
                }
                if exists|k: int| 0 <= k < edges.len() && #[trigger] ends_at(edges@[k], m) {
                    let k = choose|k: int| 0 <= k < edges.len() && #[trigger] ends_at(edges@[k], m);
                    if k < eb.len() {
                        assert(edges@[k] == eb[k]);
                        assert(ends_at(eb[k], m));
                        assert(nb.contains(m));
                        assert(nm.contains(m));
                    } else {
                        assert(k == last);
                        assert(m == e.spec_start() || m == e.spec_end());
                        assert(nm.contains(e.spec_start()));
                    }
                }
            }
            assert forall|f: StreetEdge| #[trigger] edges@.contains(f) <==> (e0.contains(f) || exists|k: int|
                0 <= k < i && f == #[trigger] piece(s, bp@[k] as int, bp@[k + 1] as int)) by {
                if edges@.contains(f) && f != e {
                    let k = choose|k: int| 0 <= k < edges.len() && edges@[k] == f;
                    assert(k < eb.len());
                    assert(eb[k] == f);
                    assert(eb.contains(f));
                }
                if f == e {
                    assert(edges@[last] == f);
                    assert(f == piece(s, bp@[i - 1] as int, bp@[(i - 1) + 1] as int));
                }
                if exists|k: int| 0 <= k < i && f == #[trigger] piece(s, bp@[k] as int, bp@[k + 1] as int) {
                    let k = choose|k: int| 0 <= k < i && f == #[trigger] piece(s, bp@[k] as int, bp@[k + 1] as int);
                    if k < i - 1 {
                        assert(eb.contains(f));
                    } else {
                        assert(f == e);
                    }
                }
                if e0.contains(f) || exists|k: int| 0 <= k < i - 1 && f == #[trigger] piece(s, bp@[k] as int, bp@[k + 1] as int) {
                    assert(eb.contains(f));
                    let k = choose|k: int| 0 <= k < eb.len() && eb[k] == f;
                    assert(edges@[k] == f);
                }
            }
        }
        i += 1;
    }
    proof {
        assert forall|f: StreetEdge| #[trigger] edges@.contains(f) <==> (e0.contains(f) || piece_of(segs@, s, f)) by {
            lemma_pieces_consecutive(segs@, s, bp@, f);
            if n == 0 {
                assert(bp@.contains(s.from)) by {
                    assert(is_break(segs@, s, s.from as int));
                }
            }
        }
    }
}

/// Turns a flat list of (possibly parent-spanning) segments into a proper
/// planar graph: every point where a perpendicular segment meets, or a
/// collinear segment starts or ends on, a segment becomes a node, cutting
/// the segment into consecutive edges there. The nodes come back sorted
/// (by x, then y) and unique; the edges sorted by axis (vertical first),
/// line and range, with consecutive exact duplicates removed.
pub fn build_graph(segments: &[StreetEdge]) -> (r: (Vec<(i32, i32)>, Vec<StreetEdge>))
    ensures
        forall|i: int, j: int| 0 <= i < j < r.0.len() ==> node_lt(r.0@[i], r.0@[j]),
        forall|n: (i32, i32)| #[trigger] r.0@.contains(n) <==> graph_node(segments@, n),
        forall|e: StreetEdge| #[trigger] r.1@.contains(e) <==> graph_edge(segments@, e),
        forall|i: int, j: int| 0 <= i < j < r.1.len() ==> edge_key_le(#[trigger] r.1@[i], #[trigger] r.1@[j]),
        forall|i: int| 0 <= i < r.1.len() - 1 ==> #[trigger] r.1@[i] != r.1@[i + 1],
{
    let mut raw: Vec<StreetEdge> = Vec::new();
    let mut nodes: Vec<(i32, i32)> = Vec::new();
    let n = segments.len();
    let mut pass: u8 = 0;
    while pass < 2
        invariant
            n == segments.len(),
            pass <= 2,
            forall|a: int, b: int| 0 <= a < b < nodes.len() ==> node_lt(nodes@[a], nodes@[b]),
            forall|m: (i32, i32)| #[trigger] nodes@.contains(m) <==> exists|k: int|
                0 <= k < raw.len() && #[trigger] ends_at(raw@[k], m),
            forall|e: StreetEdge| #[trigger] raw@.contains(e) <==> exists|j: int|
                0 <= j < n && (pass >= 2 || (pass == 1 && segments@[j].axis == Axis::Vertical)) && #[trigger] piece_of(segments@, segments@[j], e),
        decreases 2 - pass,
    {
        let axis = if pass == 0 { Axis::Vertical } else { Axis::Horizontal };
        let mut k: usize = 0;
        while k < n
            invariant
                n == segments.len(),
                pass < 2,
                k <= n,
                axis == (if pass == 0 { Axis::Vertical } else { Axis::Horizontal }),
                forall|a: int, b: int| 0 <= a < b < nodes.len() ==> node_lt(nodes@[a], nodes@[b]),
                forall|m: (i32, i32)| #[trigger] nodes@.contains(m) <==> exists|i: int|
                    0 <= i < raw.len() && #[trigger] ends_at(raw@[i], m),
                forall|e: StreetEdge| #[trigger] raw@.contains(e) <==> exists|j: int|
                    0 <= j < n && ((pass == 1 && segments@[j].axis == Axis::Vertical) || (j < k && segments@[j].axis == axis))
                        && #[trigger] piece_of(segments@, segments@[j], e),
            decreases n - k,
        {
            let s = segments[k];
            if s.axis == axis {
                let bp = breakpoints(segments, s);
                let ghost rb = raw@;
                push_pieces(segments, s, &bp, &mut raw, &mut nodes);
                proof {
                    assert forall|e: StreetEdge| #[trigger] raw@.contains(e) <==> exists|j: int|
                        0 <= j < n && ((pass == 1 && segments@[j].axis == Axis::Vertical) || (j < k + 1 && segments@[j].axis == axis))
                            && #[trigger] piece_of(segments@, segments@[j], e) by {
                        if piece_of(segments@, segments@[k as int], e) {
                            assert(raw@.contains(e));
                        }
                    }
                }
            } else {
                proof {
                    assert forall|e: StreetEdge| #[trigger] raw@.contains(e) <==> exists|j: int|
                        0 <= j < n && ((pass == 1 && segments@[j].axis == Axis::Vertical) || (j < k + 1 && segments@[j].axis == axis))
                            && #[trigger] piece_of(segments@, segments@[j], e) by {
                        if exists|j: int|
                            0 <= j < n && ((pass == 1 && segments@[j].axis == Axis::Vertical) || (j < k + 1 && segments@[j].axis == axis))
                                && #[trigger] piece_of(segments@, segments@[j], e) {
                            let j = choose|j: int|
                                0 <= j < n && ((pass == 1 && segments@[j].axis == Axis::Vertical) || (j < k + 1 && segments@[j].axis == axis))
                                    && #[trigger] piece_of(segments@, segments@[j], e);
                            assert(j != k || (pass == 1 && segments@[j].axis == Axis::Vertical));
                        }
                    }
                }
            }
            k += 1;
        }
        proof {
            assert forall|e: StreetEdge| #[trigger] raw@.contains(e) <==> exists|j: int|
                0 <= j < n && (pass + 1 >= 2 || (pass + 1 == 1 && segments@[j].axis == Axis::Vertical)) && #[trigger] piece_of(segments@, segments@[j], e) by {
                if exists|j: int| 0 <= j < n && (pass + 1 >= 2 || (pass + 1 == 1 && segments@[j].axis == Axis::Vertical)) && #[trigger] piece_of(segments@, segments@[j], e) {
                    let j = choose|j: int| 0 <= j < n && (pass + 1 >= 2 || (pass + 1 == 1 && segments@[j].axis == Axis::Vertical)) && #[trigger] piece_of(segments@, segments@[j], e);
                    assert(segments@[j].axis == Axis::Vertical || segments@[j].axis == Axis::Horizontal);
                }
            }
        }
        pass += 1;
    }
    let sorted = sort_edges(&raw);
    let edges = dedup_edges(&sorted);
    proof {
        assert forall|m: (i32, i32)| #[trigger] nodes@.contains(m) <==> graph_node(segments@, m) by {
            if nodes@.contains(m) {
                let k = choose|k: int| 0 <= k < raw.len() && #[trigger] ends_at(raw@[k], m);
                assert(raw@.contains(raw@[k]));
                assert(graph_edge(segments@, raw@[k]) && ends_at(raw@[k], m));
                assert(graph_edge(segments@, raw@[k]));
            }
            if graph_node(segments@, m) {
                let e = choose|e: StreetEdge| #[trigger] graph_edge(segments@, e) && ends_at(e, m);
                assert(raw@.contains(e));
                let k = choose|k: int| 0 <= k < raw.len() && raw@[k] == e;
                assert(ends_at(raw@[k], m));
            }
        }
    }
    (nodes, edges)
}

/// `s` sorted by [`edge_key_le`], keeping entries with equal keys in their
/// order in `s` (an insertion sort).
fn sort_edges(s: &Vec<StreetEdge>) -> (t: Vec<StreetEdge>)
    ensures
        forall|e: StreetEdge| #[trigger] t@.contains(e) <==> s@.contains(e),
        forall|i: int, j: int| 0 <= i < j < t.len() ==> edge_key_le(#[trigger] t@[i], #[trigger] t@[j]),
{
    let mut t: Vec<StreetEdge> = Vec::new();
    let n = s.len();
    let mut k: usize = 0;
    while k < n
        invariant
            n == s.len(),
            k <= n,
            forall|e: StreetEdge| #[trigger] t@.contains(e) <==> exists|q: int| 0 <= q < k && s@[q] == e,
            forall|i: int, j: int| 0 <= i < j < t.len() ==> edge_key_le(#[trigger] t@[i], #[trigger] t@[j]),
        decreases n - k,
    {
        let e = s[k];
        let mut pos: usize = t.len();
        while pos > 0 && !edge_key_le_exec(&t[pos - 1], &e)
            invariant
                pos <= t.len(),
                forall|q: int| pos <= q < t.len() ==> !edge_key_le(#[trigger] t@[q], e),
            decreases pos,
        {
            pos -= 1;
        }
        let ghost o = t@;
        proof {
            assert forall|q: int| 0 <= q < pos implies edge_key_le(#[trigger] o[q], e) by {
                assert(edge_key_le(o[pos - 1], e));
                if q < pos - 1 {
                    assert(edge_key_le(o[q], o[pos - 1]));
                }
            }
        }
        t.insert(pos, e);
        proof {
            assert forall|j: int| 0 <= j < t.len() implies #[trigger] t@[j] == if j < pos {
                o[j]
            } else if j == pos {
                e
            } else {
                o[j - 1]
            } by {}
            assert forall|i: int, j: int| 0 <= i < j < t.len() implies edge_key_le(#[trigger] t@[i], #[trigger] t@[j]) by {
                if j < pos {
                } else if j == pos {
                } else if i < pos {
                    assert(edge_key_le(o[i], o[j - 1]));
                } else if i == pos {
                } else {
                    assert(edge_key_le(o[i - 1], o[j - 1]));
                }
            }
            assert forall|f: StreetEdge| #[trigger] t@.contains(f) <==> exists|q: int| 0 <= q < k + 1 && s@[q] == f by {
                if t@.contains(f) {
                    let j = choose|j: int| 0 <= j < t.len() && t@[j] == f;
                    if j < pos {
                        assert(o.contains(f));
                    } else if j > pos {
                        assert(o[j - 1] == f);
                        assert(o.contains(f));
                    }
                }
                if exists|q: int| 0 <= q < k + 1 && s@[q] == f {
                    let q = choose|q: int| 0 <= q < k + 1 && s@[q] == f;
                    if q == k {
                        assert(t@[pos as int] == f);
                    } else {
                        assert(o.contains(f));
                        let j = choose|j: int| 0 <= j < o.len() && o[j] == f;
                        if j < pos {
                            assert(t@[j] == f);
                        } else {
                            assert(t@[j + 1] == f);
                        }
                    }
                }
            }
        }
        k += 1;
    }
    proof {
        assert forall|e: StreetEdge| #[trigger] t@.contains(e) <==> s@.contains(e) by {
            if s@.contains(e) {
                let q = choose|q: int| 0 <= q < s.len() && s@[q] == e;
            }
        }
    }
    t
}

/// `s` with each run of equal consecutive entries kept once.
fn dedup_edges(s: &Vec<StreetEdge>) -> (t: Vec<StreetEdge>)
    requires
        forall|i: int, j: int| 0 <= i < j < s.len() ==> edge_key_le(#[trigger] s@[i], #[trigger] s@[j]),
    ensures
        forall|e: StreetEdge| #[trigger] t@.contains(e) <==> s@.contains(e),
        forall|i: int, j: int| 0 <= i < j < t.len() ==> edge_key_le(#[trigger] t@[i], #[trigger] t@[j]),
        forall|i: int| 0 <= i < t.len() - 1 ==> #[trigger] t@[i] != t@[i + 1],
{
    let mut t: Vec<StreetEdge> = Vec::new();
    let ghost mut src: Seq<int> = Seq::empty();
    let n = s.len();
    let mut k: usize = 0;
    while k < n
        invariant
            n == s.len(),
            k <= n,
            forall|i: int, j: int| 0 <= i < j < s.len() ==> edge_key_le(#[trigger] s@[i], #[trigger] s@[j]),
            src.len() == t.len(),
            forall|i: int| 0 <= i < t.len() ==> 0 <= #[trigger] src[i] < k && t@[i] == s@[src[i]],
            forall|i: int, j: int| 0 <= i < j < t.len() ==> src[i] < src[j],
            k > 0 ==> t.len() > 0 && t@[t.len() - 1] == s@[k - 1],
            forall|e: StreetEdge| #[trigger] t@.contains(e) <==> exists|q: int| 0 <= q < k && s@[q] == e,
            forall|i: int| 0 <= i < t.len() - 1 ==> #[trigger] t@[i] != t@[i + 1],
        decreases n - k,
    {
        let e = s[k];
        if t.len() == 0 || t[t.len() - 1] != e {
            let ghost o = t@;
            t.push(e);
            proof {
                src = src.push(k as int);
                assert forall|f: StreetEdge| #[trigger] t@.contains(f) <==> exists|q: int| 0 <= q < k + 1 && s@[q] == f by {
                    if t@.contains(f) {
                        let j = choose|j: int| 0 <= j < t.len() && t@[j] == f;
                        if j < o.len() {
                            assert(o.contains(f));
                        }
                    }
                    if exists|q: int| 0 <= q < k + 1 && s@[q] == f {
                        let q = choose|q: int| 0 <= q < k + 1 && s@[q] == f;
                        if q == k {
                            assert(t@[t.len() - 1] == f);
                        } else {
                            assert(o.contains(f));
                            let j = choose|j: int| 0 <= j < o.len() && o[j] == f;
                            assert(t@[j] == f);
                        }
                    }
                }
                assert forall|i: int| 0 <= i < t.len() - 1 implies #[trigger] t@[i] != t@[i + 1] by {
                    if i < t.len() - 2 {
                        assert(t@[i] == o[i] && t@[i + 1] == o[i + 1]);
                    }
                }
            }
        } else {
            proof {
                assert forall|f: StreetEdge| #[trigger] t@.contains(f) <==> exists|q: int| 0 <= q < k + 1 && s@[q] == f by {
                    if exists|q: int| 0 <= q < k + 1 && s@[q] == f {
                        let q = choose|q: int| 0 <= q < k + 1 && s@[q] == f;
                        if q == k {
                            assert(t@[t.len() - 1] == f);
                        }
                    }
                }
            }
        }
        k += 1;
    }
    proof {
        assert forall|i: int, j: int| 0 <= i < j < t.len() implies edge_key_le(#[trigger] t@[i], #[trigger] t@[j]) by {
            assert(src[i] < src[j]);
        }
        assert forall|e: StreetEdge| #[trigger] t@.contains(e) <==> s@.contains(e) by {
            if s@.contains(e) {
                let q = choose|q: int| 0 <= q < s.len() && s@[q] == e;
            }
        }
    }
    t
}

/// The indices of the edges among the first `k` of `edges` with an end
/// at `n`, in order.
pub open spec fn incident_upto(edges: Seq<StreetEdge>, n: (i32, i32), k: int) -> Seq<usize>
    decreases k,
{
    if k <= 0 {
        Seq::empty()
    } else if ends_at(edges[k - 1], n) {
        incident_upto(edges, n, k - 1).push((k - 1) as usize)
    } else {
        incident_upto(edges, n, k - 1)
    }
}

/// The number of edges with an end at `n`.
pub open spec fn spec_degree(edges: Seq<StreetEdge>, n: (i32, i32)) -> int {
    incident_upto(edges, n, edges.len() as int).len() as int
}

/// The number of the first `k` of `nodes` whose degree is `d`.
pub open spec fn count_degree(nodes: Seq<(i32, i32)>, edges: Seq<StreetEdge>, d: int, k: int) -> int
    decreases k,
{
    if k <= 0 {
        0
    } else {
        count_degree(nodes, edges, d, k - 1) + if spec_degree(edges, nodes[k - 1]) == d { 1int } else { 0 }
    }
}

/// A street class's position in declaration order.
pub open spec fn class_rank(c: StreetClass) -> int {
    match c {
        StreetClass::Arterial => 0,
        StreetClass::Street => 1,
        StreetClass::Lane => 2,
    }
}

/// Adds `p` to a strictly increasing vector, keeping it so.
fn insert_unique_i64(v: &mut Vec<i64>, p: i64)
    requires
        forall|i: int, j: int| 0 <= i < j < old(v).len() ==> old(v)@[i] < old(v)@[j],
    ensures
        forall|i: int, j: int| 0 <= i < j < final(v).len() ==> final(v)@[i] < final(v)@[j],
        forall|q: i64| #[trigger] final(v)@.contains(q) <==> (old(v)@.contains(q) || q == p),
{
    let mut k: usize = 0;
    while k < v.len() && v[k] < p
        invariant
            k <= v.len(),
            forall|j: int| 0 <= j < k ==> v@[j] < p,
        decreases v.len() - k,
    {
        k += 1;
    }
    if k < v.len() && v[k] == p {
        return;
    }
    let ghost o = v@;
    v.insert(k, p);
    proof {
        assert forall|j: int| 0 <= j < v.len() implies #[trigger] v@[j] == if j < k {
            o[j]
        } else if j == k {
            p
        } else {
            o[j - 1]
        } by {}
        assert forall|q: i64| #[trigger] v@.contains(q) <==> (o.contains(q) || q == p) by {
            if o.contains(q) {
                let j = choose|j: int| 0 <= j < o.len() && o[j] == q;
                if j < k {
                    assert(v@[j] == q);
                } else {
                    assert(v@[j + 1] == q);
                }
            }
            if q == p {
                assert(v@[k as int] == q);
            }
            if v@.contains(q) {
                let j = choose|j: int| 0 <= j < v.len() && v@[j] == q;
                if j < k {
                    assert(o[j] == q);
                } else if j > k {
                    assert(o[j - 1] == q);
                }
            }
        }
    }
}

/// A strictly increasing list holding exactly the members of `set` has
/// as many entries as the set.
proof fn lemma_distinct_count(v: Seq<i64>, set: Set<int>)
    requires
        forall|i: int, j: int| 0 <= i < j < v.len() ==> v[i] < v[j],
        forall|q: i64| #[trigger] v.contains(q) <==> set.contains(q as int),
        forall|x: int| #[trigger] set.contains(x) ==> i64::MIN <= x <= i64::MAX,
    ensures
        set.finite(),
        v.len() == set.len(),
{
    let m = v.map_values(|q: i64| q as int);
    assert(m.no_duplicates()) by {
        assert forall|i: int, j: int| 0 <= i < m.len() && 0 <= j < m.len() && i != j implies m[i] != m[j] by {
            if i < j {
                assert(v[i] < v[j]);
            } else {
                assert(v[j] < v[i]);
            }
        }
    }
    m.unique_seq_to_set();
    assert(m.to_set() =~= set) by {
        assert forall|x: int| m.to_set().contains(x) <==> set.contains(x) by {
            if set.contains(x) {
                assert(v.contains(x as i64));
                let i = choose|i: int| 0 <= i < v.len() && v[i] == x as i64;
                assert(m[i] == x);
            }
            if m.to_set().contains(x) {
                assert(m.contains(x));
                let i = choose|i: int| 0 <= i < m.len() && m[i] == x;
                assert(v.contains(v[i]));
            }
        }
    }
}

/// `e` joins `a` and `b`, in either direction.
pub open spec fn joins(e: StreetEdge, a: (i32, i32), b: (i32, i32)) -> bool {
    (e.spec_start() == a && e.spec_end() == b) || (e.spec_end() == a && e.spec_start() == b)
}

/// Some edge joins `a` and `b`.
pub open spec fn linked(edges: Seq<StreetEdge>, a: (i32, i32), b: (i32, i32)) -> bool {
    exists|k: int| 0 <= k < edges.len() && #[trigger] joins(edges[k], a, b)
}

/// `p` walks along edges, node to node.
pub open spec fn is_path(edges: Seq<StreetEdge>, p: Seq<(i32, i32)>) -> bool {
    &&& p.len() >= 1
    &&& forall|i: int| 0 <= i < p.len() - 1 ==> #[trigger] linked(edges, p[i], p[i + 1])
}

/// Some walk along edges leads from `a` to `b`.
pub open spec fn connected(edges: Seq<StreetEdge>, a: (i32, i32), b: (i32, i32)) -> bool {
    exists|p: Seq<(i32, i32)>| #[trigger] is_path(edges, p) && p[0] == a && p.last() == b
}

proof fn lemma_connected_refl(edges: Seq<StreetEdge>, a: (i32, i32))
    ensures
        connected(edges, a, a),
{
    let p = seq![a];
    assert(is_path(edges, p));
}

proof fn lemma_connected_step(edges: Seq<StreetEdge>, a: (i32, i32), b: (i32, i32), c: (i32, i32), k: int)
    requires
        connected(edges, a, b),
        0 <= k < edges.len(),
        joins(edges[k], b, c),
    ensures
        connected(edges, a, c),
{
    let p = choose|p: Seq<(i32, i32)>| #[trigger] is_path(edges, p) && p[0] == a && p.last() == b;
    let q = p.push(c);
    assert forall|i: int| 0 <= i < q.len() - 1 implies #[trigger] linked(edges, q[i], q[i + 1]) by {
        if i < p.len() - 1 {
            assert(q[i] == p[i] && q[i + 1] == p[i + 1]);
            assert(linked(edges, p[i], p[i + 1]));
        } else {
            assert(q[i] == b && q[i + 1] == c);
            assert(joins(edges[k], b, c));
        }
    }
    assert(is_path(edges, q));
}

/// The number of unmarked entries among the first `k`.
pub open spec fn unmarked(m: Seq<bool>, k: int) -> int
    decreases k,
{
    if k <= 0 {
        0
    } else {
        unmarked(m, k - 1) + if m[k - 1] { 0int } else { 1 }
    }
}

pub(crate) proof fn lemma_unmarked_bounds(m: Seq<bool>, k: int)
    requires
        0 <= k <= m.len(),
    ensures
        0 <= unmarked(m, k) <= k,
    decreases k,
{
    if k > 0 {
        lemma_unmarked_bounds(m, k - 1);
    }
}

pub(crate) proof fn lemma_unmarked_mark(m: Seq<bool>, i: int, k: int)
    requires
        0 <= i < m.len(),
        0 <= k <= m.len(),
        !m[i],
    ensures
        unmarked(m.update(i, true), k) == unmarked(m, k) - if i < k { 1int } else { 0 },
    decreases k,
{
    if k > 0 {
        lemma_unmarked_mark(m, i, k - 1);
    }
}

/// Pass 2's own output: sorted nodes (intersections), sorted edges and the
/// block rects left between them. `adjacency[i]` lists, in order, the
/// edges incident to `nodes[i]`, built once at construction so every graph
/// query routes through it rather than rescanning every edge.
#[derive(Debug)]
pub struct StreetNetwork {
    site: SiteBounds,
    nodes: Vec<(i32, i32)>,
    edges: Vec<StreetEdge>,
    blocks: Vec<Block>,
    adjacency: Vec<Vec<usize>>,
}

/// The adjacency lists of `nodes` over `edges`.
fn build_adjacency(nodes: &Vec<(i32, i32)>, edges: &Vec<StreetEdge>) -> (adj: Vec<Vec<usize>>)
    ensures
        adj.len() == nodes.len(),
        forall|i: int| 0 <= i < nodes.len() ==> (#[trigger] adj@[i])@ == incident_upto(edges@, nodes@[i], edges.len() as int),
{
    let mut adj: Vec<Vec<usize>> = Vec::new();
    let m = edges.len();
    let mut i: usize = 0;
    while i < nodes.len()
        invariant
            i <= nodes.len(),
            m == edges.len(),
            adj.len() == i,
            forall|a: int| 0 <= a < i ==> (#[trigger] adj@[a])@ == incident_upto(edges@, nodes@[a], m as int),
        decreases nodes.len() - i,
    {
        let n = nodes[i];
        let mut list: Vec<usize> = Vec::new();
        let mut k: usize = 0;
        while k < m
            invariant
                m == edges.len(),
                k <= m,
                list@ == incident_upto(edges@, n, k as int),
            decreases m - k,
        {
            let e = edges[k];
            let (sx, sy) = e.start();
            let (ex, ey) = e.end();
            if (sx == n.0 && sy == n.1) || (ex == n.0 && ey == n.1) {
                list.push(k);
            }
            k += 1;
        }
        adj.push(list);
        i += 1;
    }
    adj
}

/// Where `n` sits in the strictly increasing `nodes`, if anywhere.
pub(crate) fn node_index(nodes: &[(i32, i32)], n: (i32, i32)) -> (r: Option<usize>)
    requires
        forall|i: int, j: int| 0 <= i < j < nodes.len() ==> node_lt(nodes@[i], nodes@[j]),
    ensures
        match r {
            Some(i) => i < nodes.len() && nodes@[i as int] == n,
            None => !nodes@.contains(n),
        },
{
    let mut lo: usize = 0;
    let mut hi: usize = nodes.len();
    while lo < hi
        invariant
            lo <= hi <= nodes.len(),
            forall|i: int, j: int| 0 <= i < j < nodes.len() ==> node_lt(nodes@[i], nodes@[j]),
            forall|i: int| 0 <= i < lo ==> node_lt(#[trigger] nodes@[i], n),
            forall|i: int| hi <= i < nodes.len() ==> node_lt(n, #[trigger] nodes@[i]),
        decreases hi - lo,
    {
        let mid = lo + (hi - lo) / 2;
        let m = nodes[mid];
        if m.0 == n.0 && m.1 == n.1 {
            return Some(mid);
        } else if m.0 < n.0 || (m.0 == n.0 && m.1 < n.1) {
            proof {
                assert forall|i: int| 0 <= i < mid + 1 implies node_lt(#[trigger] nodes@[i], n) by {
                    if i < mid {
                        assert(node_lt(nodes@[i], nodes@[mid as int]));
                    }
                }
            }
            lo = mid + 1;
        } else {
            proof {
                assert forall|i: int| mid <= i < nodes.len() implies node_lt(n, #[trigger] nodes@[i]) by {
                    if i > mid {
                        assert(node_lt(nodes@[mid as int], nodes@[i]));
                    }
                }
            }
            hi = mid;
        }
    }
    proof {
        if nodes@.contains(n) {
            let i = choose|i: int| 0 <= i < nodes.len() && nodes@[i] == n;
            assert(i < lo || i >= hi);
        }
    }
    None
}

proof fn lemma_incident_member(edges: Seq<StreetEdge>, n: (i32, i32), k: int, b: int)
    requires
        0 <= k <= edges.len() <= usize::MAX,
        0 <= b < incident_upto(edges, n, k).len(),
    ensures
        0 <= incident_upto(edges, n, k)[b] < k,
        ends_at(edges[incident_upto(edges, n, k)[b] as int], n),
    decreases k,
{
    if k > 0 {
        let prev = incident_upto(edges, n, k - 1);
        if ends_at(edges[k - 1], n) {
            if b < prev.len() {
                lemma_incident_member(edges, n, k - 1, b);
                assert(incident_upto(edges, n, k)[b] == prev[b]);
            } else {
                assert(incident_upto(edges, n, k)[b] == (k - 1) as usize);
            }
        } else {
            lemma_incident_member(edges, n, k - 1, b);
        }
    }
}

proof fn lemma_incident_complete(edges: Seq<StreetEdge>, n: (i32, i32), k: int, j: int)
    requires
        0 <= j < k <= edges.len() <= usize::MAX,
        ends_at(edges[j], n),
    ensures
        exists|b: int| 0 <= b < incident_upto(edges, n, k).len() && #[trigger] incident_upto(edges, n, k)[b] == j as usize,
    decreases k,
{
    if j < k - 1 {
        lemma_incident_complete(edges, n, k - 1, j);
        let b = choose|b: int| 0 <= b < incident_upto(edges, n, k - 1).len() && #[trigger] incident_upto(edges, n, k - 1)[b] == j as usize;
        if ends_at(edges[k - 1], n) {
            assert(incident_upto(edges, n, k) == incident_upto(edges, n, k - 1).push((k - 1) as usize));
            assert(incident_upto(edges, n, k)[b] == j as usize);
        } else {
            assert(incident_upto(edges, n, k) == incident_upto(edges, n, k - 1));
            assert(incident_upto(edges, n, k)[b] == j as usize);
        }
    } else {
        assert(incident_upto(edges, n, k) == incident_upto(edges, n, k - 1).push((k - 1) as usize));
        let b = incident_upto(edges, n, k).len() - 1;
        assert(incident_upto(edges, n, k)[b] == j as usize);
    }
}

/// Every node along a path from a marked node stays marked, when the marks
/// are closed under edges.
proof fn lemma_path_marked(
    edges: Seq<StreetEdge>,
    nodes: Seq<(i32, i32)>,
    marks: Seq<bool>,
    p: Seq<(i32, i32)>,
    start: int,
    t: int,
)
    requires
        is_path(edges, p),
        0 <= start < nodes.len() == marks.len(),
        p[0] == nodes[start],
        marks[start],
        0 <= t < p.len(),
        forall|k: int| 0 <= k < edges.len() ==> nodes.contains((#[trigger] edges[k]).spec_start()) && nodes.contains(edges[k].spec_end()),
        forall|i: int, j: int, k: int|
            0 <= i < nodes.len() && 0 <= j < nodes.len() && 0 <= k < edges.len() && #[trigger] marks[i] && #[trigger] joins(edges[k], nodes[i], nodes[j]) ==> marks[j],
    ensures
        exists|j: int| 0 <= j < nodes.len() && nodes[j] == p[t] && marks[j],
    decreases t,
{
    if t == 0 {
        assert(nodes[start] == p[0]);
    } else {
        lemma_path_marked(edges, nodes, marks, p, start, t - 1);
        let i = choose|i: int| 0 <= i < nodes.len() && nodes[i] == p[t - 1] && marks[i];
        let u = t - 1;
        assert(linked(edges, p[u], p[u + 1]));
        assert(p[u + 1] == p[t]);
        let k = choose|k: int| 0 <= k < edges.len() && #[trigger] joins(edges[k], p[t - 1], p[t]);
        assert(nodes.contains(p[t])) by {
            assert(nodes.contains(edges[k].spec_start()) && nodes.contains(edges[k].spec_end()));
        }
        let j = choose|j: int| 0 <= j < nodes.len() && nodes[j] == p[t];
        assert(joins(edges[k], nodes[i], nodes[j]));
    }
}

proof fn lemma_incident_empty(edges: Seq<StreetEdge>, n: (i32, i32), k: int)
    requires
        0 <= k <= edges.len(),
        forall|j: int| 0 <= j < k ==> !#[trigger] ends_at(edges[j], n),
    ensures
        incident_upto(edges, n, k).len() == 0,
    decreases k,
{
    if k > 0 {
        lemma_incident_empty(edges, n, k - 1);
    }
}

impl StreetNetwork {
    #[verifier::type_invariant]
    spec fn graph_ok(self) -> bool {
        &&& forall|i: int, j: int| 0 <= i < j < self.nodes.len() ==> node_lt(self.nodes@[i], self.nodes@[j])
        &&& forall|k: int|
            0 <= k < self.edges.len() ==> self.nodes@.contains((#[trigger] self.edges@[k]).spec_start()) && self.nodes@.contains(
                self.edges@[k].spec_end(),
            )
        &&& forall|k: int| 0 <= k < self.edges.len() ==> (#[trigger] self.edges@[k]).from < self.edges@[k].to
        &&& self.adjacency.len() == self.nodes.len()
        &&& forall|i: int|
            0 <= i < self.nodes.len() ==> (#[trigger] self.adjacency@[i])@ == incident_upto(
                self.edges@,
                self.nodes@[i],
                self.edges.len() as int,
            )
    }

    pub closed spec fn spec_site(self) -> SiteBounds {
        self.site
    }

    pub closed spec fn spec_nodes(self) -> Seq<(i32, i32)> {
        self.nodes@
    }

    pub closed spec fn spec_edges(self) -> Seq<StreetEdge> {
        self.edges@
    }

    pub closed spec fn spec_blocks(self) -> Seq<Block> {
        self.blocks@
    }

    /// Whether `node` lies on the site's own boundary lines.
    pub open spec fn spec_on_boundary(self, node: (i32, i32)) -> bool {
        node.0 == self.spec_site().x0 || node.0 == self.spec_site().x1 || node.1 == self.spec_site().y0 || node.1
            == self.spec_site().y1
    }

    /// Builds a network from raw parts: the segments go through
    /// [`build_graph`], so a hand-built fixture (a maze, a uniform grid, a
    /// disconnected pair) can pin a checker's own behaviour without running
    /// the generator.
    pub fn test_fixture(site: SiteBounds, edges: Vec<StreetEdge>, blocks: Vec<Block>) -> (net: Self)
        ensures
            net.spec_site() == site,
            net.spec_blocks() == blocks@,
            forall|i: int, j: int| 0 <= i < j < net.spec_nodes().len() ==> node_lt(net.spec_nodes()[i], net.spec_nodes()[j]),
            forall|n: (i32, i32)| #[trigger] net.spec_nodes().contains(n) <==> graph_node(edges@, n),
            forall|e: StreetEdge| #[trigger] net.spec_edges().contains(e) <==> graph_edge(edges@, e),
            forall|i: int, j: int|
                0 <= i < j < net.spec_edges().len() ==> edge_key_le(#[trigger] net.spec_edges()[i], #[trigger] net.spec_edges()[j]),
            forall|i: int| 0 <= i < net.spec_edges().len() - 1 ==> #[trigger] net.spec_edges()[i] != net.spec_edges()[i + 1],
    {
        let (nodes, graph_edges) = build_graph(edges.as_slice());
        proof {
            assert forall|k: int| 0 <= k < graph_edges.len() implies nodes@.contains((#[trigger] graph_edges@[k]).spec_start())
                && nodes@.contains(graph_edges@[k].spec_end()) by {
                let e = graph_edges@[k];
                assert(graph_edges@.contains(e));
                assert(graph_edge(edges@, e));
                assert(ends_at(e, e.spec_start()) && ends_at(e, e.spec_end()));
                assert(graph_node(edges@, e.spec_start()));
                assert(graph_node(edges@, e.spec_end()));
            }
            assert forall|k: int| 0 <= k < graph_edges.len() implies (#[trigger] graph_edges@[k]).from < graph_edges@[k].to by {
                let e = graph_edges@[k];
                assert(graph_edges@.contains(e));
                assert(graph_edge(edges@, e));
                let j = choose|j: int| 0 <= j < edges@.len() && #[trigger] piece_of(edges@, edges@[j], e);
            }
        }
        let adjacency = build_adjacency(&nodes, &graph_edges);
        StreetNetwork { site, nodes, edges: graph_edges, blocks, adjacency }
    }

    pub fn site(&self) -> (r: SiteBounds)
        ensures
            r == self.spec_site(),
    {
        self.site
    }

    /// The nodes, strictly increasing by x then y.
    pub fn nodes(&self) -> (r: &[(i32, i32)])
        ensures
            r@ == self.spec_nodes(),
            forall|i: int, j: int| 0 <= i < j < r.len() ==> node_lt(r@[i], r@[j]),
    {
        proof {
            use_type_invariant(self);
        }
        self.nodes.as_slice()
    }

    /// The edges, each running from a lower to a higher coordinate between
    /// two of the nodes.
    pub fn edges(&self) -> (r: &[StreetEdge])
        ensures
            r@ == self.spec_edges(),
            forall|k: int| 0 <= k < r.len() ==> (#[trigger] r@[k]).from < r@[k].to,
            forall|k: int|
                0 <= k < r.len() ==> self.spec_nodes().contains((#[trigger] r@[k]).spec_start()) && self.spec_nodes().contains(
                    r@[k].spec_end(),
                ),
    {
        proof {
            use_type_invariant(self);
        }
        self.edges.as_slice()
    }

    pub fn blocks(&self) -> (r: &[Block])
        ensures
            r@ == self.spec_blocks(),
    {
        self.blocks.as_slice()
    }

    pub fn is_on_boundary(&self, node: (i32, i32)) -> (b: bool)
        ensures
            b == self.spec_on_boundary(node),
    {
        node.0 == self.site.x0 || node.0 == self.site.x1 || node.1 == self.site.y0 || node.1 == self.site.y1
    }

    /// The number of edges incident to `node`, via the adjacency index
    /// built at construction. A node this network never names has degree
    /// 0.
    pub fn degree(&self, node: (i32, i32)) -> (d: usize)
        ensures
            d == spec_degree(self.spec_edges(), node),
    {
        proof {
            use_type_invariant(self);
        }
        match node_index(self.nodes.as_slice(), node) {
            Some(i) => self.adjacency[i].len(),
            None => {
                proof {
                    assert forall|j: int| 0 <= j < self.edges.len() implies !#[trigger] ends_at(self.edges@[j], node) by {
                        assert(self.nodes@.contains(self.edges@[j].spec_start()));
                        assert(self.nodes@.contains(self.edges@[j].spec_end()));
                    }
                    lemma_incident_empty(self.edges@, node, self.edges.len() as int);
                }
                0
            },
        }
    }

    /// Every node of degree 1 that is not on the site boundary (a boundary
    /// node's own single edge is the edge of the drawn world, never a real
    /// dead end), in node order.
    pub fn dead_end_nodes(&self) -> (r: Vec<(i32, i32)>)
        ensures
            forall|i: int, j: int| 0 <= i < j < r.len() ==> node_lt(r@[i], r@[j]),
            forall|n: (i32, i32)| #[trigger] r@.contains(n) <==> (self.spec_nodes().contains(n) && spec_degree(
                self.spec_edges(),
                n,
            ) == 1 && !self.spec_on_boundary(n)),
    {
        proof {
            use_type_invariant(self);
        }
        let mut r: Vec<(i32, i32)> = Vec::new();
        let ghost mut src: Seq<int> = Seq::empty();
        let mut i: usize = 0;
        while i < self.nodes.len()
            invariant
                i <= self.nodes.len(),
                forall|a: int, b: int| 0 <= a < b < self.nodes.len() ==> node_lt(self.nodes@[a], self.nodes@[b]),
                src.len() == r.len(),
                forall|a: int| 0 <= a < r.len() ==> 0 <= #[trigger] src[a] < i && r@[a] == self.nodes@[src[a]],
                forall|a: int, b: int| 0 <= a < b < r.len() ==> src[a] < src[b],
                forall|n: (i32, i32)| #[trigger] r@.contains(n) <==> exists|k: int|
                    0 <= k < i && self.nodes@[k] == n && spec_degree(self.edges@, n) == 1 && !self.spec_on_boundary(n),
            decreases self.nodes.len() - i,
        {
            let n = self.nodes[i];
            if self.degree(n) == 1 && !self.is_on_boundary(n) {
                let ghost o = r@;
                r.push(n);
                proof {
                    src = src.push(i as int);
                    assert forall|m: (i32, i32)| #[trigger] r@.contains(m) <==> exists|k: int|
                        0 <= k < i + 1 && self.nodes@[k] == m && spec_degree(self.edges@, m) == 1 && !self.spec_on_boundary(m) by {
                        if r@.contains(m) && m != n {
                            let a = choose|a: int| 0 <= a < r.len() && r@[a] == m;
                            assert(o[a] == m);
                            assert(o.contains(m));
                        }
                        if m == n {
                            assert(r@[r.len() - 1] == m);
                        }
                        if exists|k: int| 0 <= k < i && self.nodes@[k] == m && spec_degree(self.edges@, m) == 1 && !self.spec_on_boundary(m) {
                            assert(o.contains(m));
                            let a = choose|a: int| 0 <= a < o.len() && o[a] == m;
                            assert(r@[a] == m);
                        }
                    }
                }
            }
            i += 1;
        }
        proof {
            assert forall|a: int, b: int| 0 <= a < b < r.len() implies node_lt(r@[a], r@[b]) by {
                assert(src[a] < src[b]);
            }
        }
        r
    }

    /// The number of degree-3 and of degree-4 nodes (nodes of any other
    /// degree counted in neither).
    pub fn junction_mix(&self) -> (r: (usize, usize))
        ensures
            r.0 == count_degree(self.spec_nodes(), self.spec_edges(), 3, self.spec_nodes().len() as int),
            r.1 == count_degree(self.spec_nodes(), self.spec_edges(), 4, self.spec_nodes().len() as int),
    {
        let mut three: usize = 0;
        let mut four: usize = 0;
        let mut i: usize = 0;
        while i < self.nodes.len()
            invariant
                i <= self.nodes.len(),
                three == count_degree(self.nodes@, self.edges@, 3, i as int),
                four == count_degree(self.nodes@, self.edges@, 4, i as int),
                three <= i,
                four <= i,
            decreases self.nodes.len() - i,
        {
            let d = self.degree(self.nodes[i]);
            if d == 3 {
                three += 1;
            } else if d == 4 {
                four += 1;
            }
            i += 1;
        }
        (three, four)
    }

    /// The number of distinct block widths, and separately heights.
    pub fn distinct_block_sizes(&self) -> (r: (usize, usize))
        ensures
            r.0 == Set::new(|w: int| exists|i: int| 0 <= i < self.spec_blocks().len() && (#[trigger] self.spec_blocks()[i]).bounds.spec_width() == w).len(),
            r.1 == Set::new(|h: int| exists|i: int| 0 <= i < self.spec_blocks().len() && (#[trigger] self.spec_blocks()[i]).bounds.spec_height() == h).len(),
    {
        let mut widths: Vec<i64> = Vec::new();
        let mut heights: Vec<i64> = Vec::new();
        let mut i: usize = 0;
        while i < self.blocks.len()
            invariant
                i <= self.blocks.len(),
                forall|a: int, b: int| 0 <= a < b < widths.len() ==> widths@[a] < widths@[b],
                forall|a: int, b: int| 0 <= a < b < heights.len() ==> heights@[a] < heights@[b],
                forall|w: i64| #[trigger] widths@.contains(w) <==> exists|k: int| 0 <= k < i && (#[trigger] self.blocks@[k]).bounds.spec_width() == w,
                forall|h: i64| #[trigger] heights@.contains(h) <==> exists|k: int| 0 <= k < i && (#[trigger] self.blocks@[k]).bounds.spec_height() == h,
            decreases self.blocks.len() - i,
        {
            let b = self.blocks[i];
            let ghost wo = widths@;
            let ghost ho = heights@;
            insert_unique_i64(&mut widths, b.bounds.width());
            insert_unique_i64(&mut heights, b.bounds.height());
            proof {
                assert forall|w: i64| #[trigger] widths@.contains(w) <==> exists|k: int| 0 <= k < i + 1 && (#[trigger] self.blocks@[k]).bounds.spec_width() == w by {
                    if w == b.bounds.spec_width() {
                        assert(self.blocks@[i as int] == b);
                    }
                }
                assert forall|h: i64| #[trigger] heights@.contains(h) <==> exists|k: int| 0 <= k < i + 1 && (#[trigger] self.blocks@[k]).bounds.spec_height() == h by {
                    if h == b.bounds.spec_height() {
                        assert(self.blocks@[i as int] == b);
                    }
                }
            }
            i += 1;
        }
        proof {
            lemma_distinct_count(widths@, Set::new(|w: int| exists|k: int| 0 <= k < self.blocks@.len() && (#[trigger] self.blocks@[k]).bounds.spec_width() == w));
            lemma_distinct_count(heights@, Set::new(|h: int| exists|k: int| 0 <= k < self.blocks@.len() && (#[trigger] self.blocks@[k]).bounds.spec_height() == h));
        }
        (widths.len(), heights.len())
    }

    /// Every distinct street class present among the edges, in declaration
    /// order.
    pub fn street_classes_present(&self) -> (r: Vec<StreetClass>)
        ensures
            forall|c: StreetClass| #[trigger] r@.contains(c) <==> exists|i: int| 0 <= i < self.spec_edges().len() && (#[trigger] self.spec_edges()[i]).class == c,
            forall|i: int, j: int| 0 <= i < j < r.len() ==> class_rank(#[trigger] r@[i]) < class_rank(#[trigger] r@[j]),
    {
        let mut seen = [false, false, false];
        let mut i: usize = 0;
        while i < self.edges.len()
            invariant
                i <= self.edges.len(),
                forall|c: StreetClass| seen@[class_rank(c)] <==> exists|k: int| 0 <= k < i && (#[trigger] self.edges@[k]).class == c,
            decreases self.edges.len() - i,
        {
            let c = self.edges[i].class;
            let ci: usize = match c {
                StreetClass::Arterial => 0,
                StreetClass::Street => 1,
                StreetClass::Lane => 2,
            };
            seen[ci] = true;
            proof {
                assert forall|d: StreetClass| seen@[class_rank(d)] <==> exists|k: int| 0 <= k < i + 1 && (#[trigger] self.edges@[k]).class == d by {
                    if d == c {
                        assert(self.edges@[i as int].class == d);
                    }
                }
            }
            i += 1;
        }
        let mut r: Vec<StreetClass> = Vec::new();
        if seen[0] {
            r.push(StreetClass::Arterial);
        }
        if seen[1] {
            r.push(StreetClass::Street);
        }
        if seen[2] {
            r.push(StreetClass::Lane);
        }
        proof {
            assert forall|c: StreetClass| #[trigger] r@.contains(c) <==> seen@[class_rank(c)] by {
                if seen@[class_rank(c)] {
                    match c {
                        StreetClass::Arterial => assert(r@[0] == c),
                        StreetClass::Street => assert(r@[if seen@[0] { 1int } else { 0 }] == c),
                        StreetClass::Lane => assert(r@[r.len() - 1] == c),
                    }
                }
            }
        }
        r
    }

    /// Marks every node reachable from `nodes[start]` along edges.
    fn reach_marks(&self, start: usize) -> (marks: Vec<bool>)
        requires
            start < self.spec_nodes().len(),
        ensures
            marks.len() == self.spec_nodes().len(),
            forall|i: int| 0 <= i < marks.len() ==> (#[trigger] marks@[i] <==> connected(
                self.spec_edges(),
                self.spec_nodes()[start as int],
                self.spec_nodes()[i],
            )),
    {
        proof {
            use_type_invariant(self);
        }
        let ghost edges = self.edges@;
        let ghost nodes = self.nodes@;
        assert(edges.len() == self.edges.len());
        let ghost root = nodes[start as int];
        let nn = self.nodes.len();
        let mut marks: Vec<bool> = Vec::new();
        let mut z: usize = 0;
        while z < nn
            invariant
                z <= nn,
                marks.len() == z,
                forall|i: int| 0 <= i < z ==> !#[trigger] marks@[i],
            decreases nn - z,
        {
            marks.push(false);
            z += 1;
        }
        proof {
            lemma_connected_refl(edges, root);
            lemma_unmarked_mark(marks@, start as int, nn as int);
        }
        marks.set(start, true);
        let mut stack: Vec<usize> = Vec::new();
        stack.push(start);
        proof {
            assert(stack@[0] == start);
            assert forall|i: int| 0 <= i < nn && #[trigger] marks@[i] implies i == start by {}
            assert forall|i: int, j: int, k: int|
                0 <= i < nn && 0 <= j < nn && 0 <= k < edges.len() && #[trigger] marks@[i] && !stack@.contains(i as usize)
                    && #[trigger] joins(edges[k], nodes[i], nodes[j]) implies marks@[j] by {
                assert(i == start);
                assert(stack@.contains(start));
            }
        }
        while stack.len() > 0
            invariant
                nn == self.nodes.len(),
                nodes == self.nodes@,
                edges == self.edges@,
                edges.len() <= usize::MAX,
                start < nn,
                root == nodes[start as int],
                marks.len() == nn,
                marks@[start as int],
                forall|i: int, j: int| 0 <= i < j < nodes.len() ==> node_lt(nodes[i], nodes[j]),
                forall|k: int| 0 <= k < edges.len() ==> nodes.contains((#[trigger] edges[k]).spec_start()) && nodes.contains(edges[k].spec_end()),
                self.adjacency.len() == nn,
                forall|i: int| 0 <= i < nn ==> (#[trigger] self.adjacency@[i])@ == incident_upto(edges, nodes[i], edges.len() as int),
                stack@.no_duplicates(),
                forall|a: int| 0 <= a < stack.len() ==> (#[trigger] stack@[a]) < nn && marks@[stack@[a] as int],
                forall|i: int| 0 <= i < nn && #[trigger] marks@[i] ==> connected(edges, root, nodes[i]),
                forall|i: int, j: int, k: int|
                    0 <= i < nn && 0 <= j < nn && 0 <= k < edges.len() && #[trigger] marks@[i] && !stack@.contains(i as usize)
                        && #[trigger] joins(edges[k], nodes[i], nodes[j]) ==> marks@[j],
            decreases unmarked(marks@, nn as int), stack.len(),
        {
            let ghost pre_stack = stack@;
            let ni = stack.pop().unwrap();
            assert(pre_stack == stack@.push(ni));
            let n = self.nodes[ni];
            let adj = &self.adjacency[ni];
            let ghost marks0 = marks@;
            let ghost stack0 = stack@;
            let mut a: usize = 0;
            while a < adj.len()
                invariant
                    nn == self.nodes.len(),
                    nodes == self.nodes@,
                    edges == self.edges@,
                    edges.len() <= usize::MAX,
                    ni < nn,
                    n == nodes[ni as int],
                    adj@ == incident_upto(edges, n, edges.len() as int),
                    a <= adj.len(),
                    start < nn,
                    root == nodes[start as int],
                    marks.len() == nn,
                    marks@[start as int],
                    marks@[ni as int],
                    forall|i: int, j: int| 0 <= i < j < nodes.len() ==> node_lt(nodes[i], nodes[j]),
                    forall|k: int| 0 <= k < edges.len() ==> nodes.contains((#[trigger] edges[k]).spec_start()) && nodes.contains(edges[k].spec_end()),
                    stack@.no_duplicates(),
                    !stack@.contains(ni),
                    forall|b: int| 0 <= b < stack.len() ==> (#[trigger] stack@[b]) < nn && marks@[stack@[b] as int],
                    forall|i: int| 0 <= i < nn && #[trigger] marks@[i] ==> connected(edges, root, nodes[i]),
                    forall|i: int| 0 <= i < nn && marks0[i] ==> #[trigger] marks@[i],
                    forall|i: int| 0 <= i < nn && #[trigger] marks@[i] && !marks0[i] ==> stack@.contains(i as usize),
                    forall|b: int| 0 <= b < stack0.len() ==> stack@.contains(#[trigger] stack0[b]),
                    unmarked(marks@, nn as int) <= unmarked(marks0, nn as int),
                    unmarked(marks@, nn as int) < unmarked(marks0, nn as int) || stack@ == stack0,
                    forall|b: int, j: int| 0 <= b < a && 0 <= j < nn && #[trigger] joins(edges[adj@[b] as int], n, nodes[j]) ==> marks@[j],
                decreases adj.len() - a,
            {
                let ei = adj[a];
                proof {
                    lemma_incident_member(edges, n, edges.len() as int, a as int);
                }
                let e = self.edges[ei];
                let (sx, sy) = e.start();
                let other = if sx == n.0 && sy == n.1 { e.end() } else { e.start() };
                assert(joins(edges[ei as int], n, other));
                assert(nodes.contains(other));
                let oi = match node_index(self.nodes.as_slice(), other) {
                    Some(oi) => oi,
                    None => { assert(false); 0 },
                };
                if !marks[oi] {
                    proof {
                        lemma_connected_step(edges, root, n, other, ei as int);
                        lemma_unmarked_mark(marks@, oi as int, nn as int);
                        lemma_unmarked_bounds(marks@, nn as int);
                    }
                    marks.set(oi, true);
                    proof {
                        assert(!stack@.contains(oi)) by {
                            if stack@.contains(oi) {
                                let b = choose|b: int| 0 <= b < stack.len() && stack@[b] == oi;
                                assert(marks@[stack@[b] as int]);
                            }
                        }
                    }
                    let ghost sb = stack@;
                    stack.push(oi);
                    proof {
                        assert(stack@.no_duplicates()) by {
                            assert forall|x: int, y: int| 0 <= x < stack.len() && 0 <= y < stack.len() && x != y implies stack@[x] != stack@[y] by {
                                if x < sb.len() && y < sb.len() {
                                    assert(sb[x] != sb[y]);
                                } else if x == sb.len() {
                                    assert(sb.contains(sb[y]));
                                } else {
                                    assert(sb.contains(sb[x]));
                                }
                            }
                        }
                        assert forall|b: int| 0 <= b < stack0.len() implies stack@.contains(#[trigger] stack0[b]) by {
                            assert(sb.contains(stack0[b]));
                            let c = choose|c: int| 0 <= c < sb.len() && sb[c] == stack0[b];
                            assert(stack@[c] == stack0[b]);
                        }
                        assert forall|i: int| 0 <= i < nn && #[trigger] marks@[i] && !marks0[i] implies stack@.contains(i as usize) by {
                            if i == oi {
                                assert(stack@[stack.len() - 1] == oi);
                            } else {
                                assert(sb.contains(i as usize));
                                let c = choose|c: int| 0 <= c < sb.len() && sb[c] == i as usize;
                                assert(stack@[c] == i as usize);
                            }
                        }
                        assert(!stack@.contains(ni)) by {
                            if stack@.contains(ni) {
                                let c = choose|c: int| 0 <= c < stack.len() && stack@[c] == ni;
                                if c < sb.len() {
                                    assert(sb.contains(ni));
                                }
                            }
                        }
                    }
                }
                proof {
                    assert forall|b: int, j: int| 0 <= b < a + 1 && 0 <= j < nn && #[trigger] joins(edges[adj@[b] as int], n, nodes[j]) implies marks@[j] by {
                        if b == a {
                            assert(joins(edges[ei as int], n, nodes[j]));
                            assert(nodes[j] == other) by {
                                assert(nodes[j] == other);
                            }
                            assert(nodes[oi as int] == other);
                            if j != oi {
                                if j < oi {
                                    assert(node_lt(nodes[j], nodes[oi as int]));
                                } else {
                                    assert(node_lt(nodes[oi as int], nodes[j]));
                                }
                            }
                        }
                    }
                }
                a += 1;
            }
            proof {
                assert forall|i: int, j: int, k: int|
                    0 <= i < nn && 0 <= j < nn && 0 <= k < edges.len() && #[trigger] marks@[i] && !stack@.contains(i as usize)
                        && #[trigger] joins(edges[k], nodes[i], nodes[j]) implies marks@[j] by {
                    if i == ni {
                        assert(nodes[i] == n);
                        assert(ends_at(edges[k], n));
                        lemma_incident_complete(edges, n, edges.len() as int, k);
                        let b = choose|b: int| 0 <= b < adj@.len() && #[trigger] adj@[b] == k as usize;
                        assert(adj@[b] as int == k);
                        assert(joins(edges[adj@[b] as int], n, nodes[j]));
                    } else if marks0[i] {
                        if stack0.contains(i as usize) {
                            let c = choose|c: int| 0 <= c < stack0.len() && stack0[c] == i as usize;
                            assert(stack@.contains(stack0[c]));
                        } else {
                            assert(!pre_stack.contains(i as usize)) by {
                                if pre_stack.contains(i as usize) {
                                    let c = choose|c: int| 0 <= c < pre_stack.len() && pre_stack[c] == i as usize;
                                    if c < stack0.len() {
                                        assert(stack0[c] == i as usize);
                                    }
                                }
                            }
                            assert(marks0[j]);
                        }
                    }
                }
                lemma_unmarked_bounds(marks@, nn as int);
                if unmarked(marks@, nn as int) == unmarked(marks0, nn as int) {
                    assert(stack@ == stack0);
                    assert(stack.len() < pre_stack.len());
                }
            }
        }
        proof {
            assert forall|i: int| 0 <= i < marks.len() implies (#[trigger] marks@[i] <==> connected(edges, root, nodes[i])) by {
                if connected(edges, root, nodes[i]) {
                    let p = choose|p: Seq<(i32, i32)>| #[trigger] is_path(edges, p) && p[0] == root && p.last() == nodes[i];
                    lemma_path_marked(edges, nodes, marks@, p, start as int, p.len() - 1);
                    let j = choose|j: int| 0 <= j < nn && nodes[j] == p[p.len() - 1] && marks@[j];
                    if j != i {
                        if j < i {
                            assert(node_lt(nodes[j], nodes[i]));
                        } else {
                            assert(node_lt(nodes[i], nodes[j]));
                        }
                    }
                }
            }
        }
        marks
    }

    /// Every node reachable from the first node along edges, in node
    /// order; `None` for a network with no nodes at all.
    pub fn reachable_from_first_node(&self) -> (r: Option<Vec<(i32, i32)>>)
        ensures
            self.spec_nodes().len() == 0 <==> r is None,
            r matches Some(v) ==> {
                &&& forall|i: int, j: int| 0 <= i < j < v.len() ==> node_lt(v@[i], v@[j])
                &&& forall|n: (i32, i32)| #[trigger] v@.contains(n) <==> (self.spec_nodes().contains(n) && connected(
                    self.spec_edges(),
                    self.spec_nodes()[0],
                    n,
                ))
            },
    {
        proof {
            use_type_invariant(self);
        }
        if self.nodes.len() == 0 {
            return None;
        }
        let marks = self.reach_marks(0);
        let mut v: Vec<(i32, i32)> = Vec::new();
        let ghost mut src: Seq<int> = Seq::empty();
        let mut i: usize = 0;
        while i < self.nodes.len()
            invariant
                i <= self.nodes.len(),
                marks.len() == self.nodes.len(),
                forall|a: int, b: int| 0 <= a < b < self.nodes.len() ==> node_lt(self.nodes@[a], self.nodes@[b]),
                src.len() == v.len(),
                forall|a: int| 0 <= a < v.len() ==> 0 <= #[trigger] src[a] < i && v@[a] == self.nodes@[src[a]],
                forall|a: int, b: int| 0 <= a < b < v.len() ==> src[a] < src[b],
                forall|n: (i32, i32)| #[trigger] v@.contains(n) <==> exists|k: int| 0 <= k < i && self.nodes@[k] == n && marks@[k],
            decreases self.nodes.len() - i,
        {
            if marks[i] {
                let ghost o = v@;
                v.push(self.nodes[i]);
                proof {
                    src = src.push(i as int);
                    assert forall|m: (i32, i32)| #[trigger] v@.contains(m) <==> exists|k: int| 0 <= k < i + 1 && self.nodes@[k] == m && marks@[k] by {
                        if v@.contains(m) && m != self.nodes@[i as int] {
                            let a = choose|a: int| 0 <= a < v.len() && v@[a] == m;
                            assert(o[a] == m);
                            assert(o.contains(m));
                        }
                        if m == self.nodes@[i as int] {
                            assert(v@[v.len() - 1] == m);
                        }
                        if exists|k: int| 0 <= k < i && self.nodes@[k] == m && marks@[k] {
                            assert(o.contains(m));
                            let a = choose|a: int| 0 <= a < o.len() && o[a] == m;
                            assert(v@[a] == m);
                        }
                    }
                }
            }
            i += 1;
        }
        proof {
            assert forall|a: int, b: int| 0 <= a < b < v.len() implies node_lt(v@[a], v@[b]) by {
                assert(src[a] < src[b]);
            }
            assert forall|n: (i32, i32)| #[trigger] v@.contains(n) <==> (self.nodes@.contains(n) && connected(self.edges@, self.nodes@[0], n)) by {
                if self.nodes@.contains(n) && connected(self.edges@, self.nodes@[0], n) {
                    let k = choose|k: int| 0 <= k < self.nodes.len() && self.nodes@[k] == n;
                    assert(marks@[k]);
                }
            }
        }
        Some(v)
    }
}

/// The sample width [`StreetNetwork::detour_samples`] and
/// `all_pair_samples` use for the max/excess bounds.
pub const DETOUR_SAMPLE_MAX_NODES: usize = 14;

/// The larger sample width [`p99_ratio_pct`] alone uses, so a real
/// percentile exists.
pub const DETOUR_P99_SAMPLE_MAX_NODES: usize = 64;

/// One detour sample: the network distance and the Manhattan distance
/// between two nodes.
#[derive(Debug, Clone, Copy)]
pub struct DetourSample {
    pub a: (i32, i32),
    pub b: (i32, i32),
    pub network: i64,
    pub manhattan: i64,
}

/// A sample's ratio is computable: a positive Manhattan distance and a
/// network distance whose hundredfold fits `i64`.
pub open spec fn sample_ok(s: DetourSample) -> bool {
    &&& s.manhattan != 0
    &&& i64::MIN <= s.network * 100 <= i64::MAX
    &&& !(s.network * 100 == i64::MIN && s.manhattan == -1)
}

/// `a / b` as Rust's integer division computes it: rounded toward zero,
/// for either sign of `b`.
pub open spec fn quotient_toward_zero(a: int, b: int) -> int {
    if b > 0 {
        trunc_div(a, b)
    } else {
        -trunc_div(a, -b)
    }
}

/// The network distance as a percent of the Manhattan distance, rounded
/// toward zero.
pub open spec fn spec_ratio_pct(s: DetourSample) -> i64 {
    quotient_toward_zero(s.network * 100, s.manhattan as int) as i64
}

impl DetourSample {
    /// The network distance as a percent of the Manhattan distance -- 100
    /// is a perfect Manhattan route, over 100 is a detour.
    pub fn ratio_pct(&self) -> (r: i64)
        requires
            sample_ok(*self),
        ensures
            r == spec_ratio_pct(*self),
    {
        let n = self.network * 100;
        let m = self.manhattan;
        if m > 0 {
            n / m
        } else if m == i64::MIN {
            if n == i64::MIN {
                assert(trunc_div(n as int, -(m as int)) == -1);
                1
            } else {
                assert(trunc_div(n as int, -(m as int)) == 0);
                0
            }
        } else {
            let q = n / (-m);
            assert(q == trunc_div(n as int, -(m as int)));
            -q
        }
    }

    /// The absolute overshoot, in world cells, over a perfect Manhattan
    /// route.
    pub fn excess_cells(&self) -> (r: i64)
        requires
            i64::MIN <= self.network - self.manhattan <= i64::MAX,
        ensures
            r == self.network - self.manhattan,
    {
        self.network - self.manhattan
    }
}

/// The ordering the percentile reads.
pub open spec fn i64_le(a: i64, b: i64) -> bool {
    a <= b
}

/// The nearest-rank index of the 99th percentile among `n` values:
/// `ceil(0.99 * n) - 1`, within `[0, n - 1]`.
pub open spec fn p99_rank(n: int) -> int {
    let r = (n * 99 + 99) / 100;
    let r1 = if r >= 1 { r } else { 1 };
    if r1 - 1 <= n - 1 { r1 - 1 } else { n - 1 }
}

/// The 99th-percentile [`DetourSample::ratio_pct`] over `samples`:
/// nearest-rank over the ratios sorted ascending, `0` for an empty slice.
pub fn p99_ratio_pct(samples: &[DetourSample]) -> (r: i64)
    requires
        forall|i: int| 0 <= i < samples@.len() ==> sample_ok(#[trigger] samples@[i]),
    ensures
        samples@.len() == 0 ==> r == 0,
        samples@.len() > 0 ==> r == samples@.map_values(|s: DetourSample| spec_ratio_pct(s)).sort_by(
            |a: i64, b: i64| i64_le(a, b),
        )[p99_rank(samples@.len() as int)],
{
    broadcast use vstd::seq_lib::group_to_multiset_ensures;
    if samples.len() == 0 {
        return 0;
    }
    let ghost rs = samples@.map_values(|s: DetourSample| spec_ratio_pct(s));
    let n = samples.len();
    let mut t: Vec<i64> = Vec::new();
    let mut k: usize = 0;
    while k < n
        invariant
            n == samples.len(),
            rs == samples@.map_values(|s: DetourSample| spec_ratio_pct(s)),
            forall|i: int| 0 <= i < samples@.len() ==> sample_ok(#[trigger] samples@[i]),
            k <= n,
            t.len() == k,
            t@.to_multiset() == rs.take(k as int).to_multiset(),
            forall|i: int, j: int| 0 <= i < j < t.len() ==> t@[i] <= t@[j],
        decreases n - k,
    {
        let x = samples[k].ratio_pct();
        let mut pos: usize = t.len();
        while pos > 0 && t[pos - 1] > x
            invariant
                pos <= t.len(),
                forall|q: int| pos <= q < t.len() ==> t@[q] > x,
            decreases pos,
        {
            pos -= 1;
        }
        let ghost o = t@;
        t.insert(pos, x);
        proof {
            assert(rs.take(k + 1) == rs.take(k as int).push(x));
            assert(t@ == o.insert(pos as int, x));
            vstd::seq_lib::to_multiset_insert(o, pos as int, x);
            assert(t@.to_multiset() == o.to_multiset().insert(x));
            vstd::seq_lib::to_multiset_build(rs.take(k as int), x);
            assert forall|i: int, j: int| 0 <= i < j < t.len() implies t@[i] <= t@[j] by {
                if j < pos {
                    assert(t@[i] == o[i] && t@[j] == o[j]);
                } else if j == pos {
                    if pos > 0 {
                        assert(o[pos - 1] <= x);
                        assert(t@[i] == o[i]);
                        if i < pos - 1 {
                            assert(o[i] <= o[pos - 1]);
                        }
                    }
                } else if i < pos {
                    assert(t@[i] == o[i] && t@[j] == o[j - 1]);
                } else if i == pos {
                    assert(t@[j] == o[j - 1]);
                } else {
                    assert(t@[i] == o[i - 1] && t@[j] == o[j - 1]);
                }
            }
        }
        k += 1;
    }
    let rank_raw = ((n as u128 * 99 + 99) / 100) as usize;
    let r1 = if rank_raw >= 1 { rank_raw } else { 1 };
    let rank = if r1 - 1 <= n - 1 { r1 - 1 } else { n - 1 };
    proof {
        assert(rs.take(n as int) == rs);
        let leq = |a: i64, b: i64| i64_le(a, b);
        rs.lemma_sort_by_ensures(leq);
        assert(vstd::relations::total_ordering(leq)) by {
            assert(vstd::relations::reflexive(leq));
            assert(vstd::relations::antisymmetric(leq));
            assert(vstd::relations::transitive(leq));
            assert(vstd::relations::strongly_connected(leq));
        }
        assert(vstd::relations::sorted_by(t@, leq));
        vstd::seq_lib::lemma_sorted_unique(t@, rs.sort_by(leq), leq);
        assert(rank == p99_rank(n as int));
    }
    t[rank]
}

/// A street class's carriageway width under `cfg`.
pub open spec fn spec_class_width(class: StreetClass, cfg: GenerationConfig) -> i32 {
    match class {
        StreetClass::Arterial => cfg.arterial_width_cells,
        StreetClass::Street => cfg.street_width_cells,
        StreetClass::Lane => cfg.lane_width_cells,
    }
}

fn class_width(class: StreetClass, cfg: &GenerationConfig) -> (w: i32)
    ensures
        w == spec_class_width(class, *cfg),
{
    match class {
        StreetClass::Arterial => cfg.arterial_width_cells,
        StreetClass::Street => cfg.street_width_cells,
        StreetClass::Lane => cfg.lane_width_cells,
    }
}

/// `density` clamped into `[density_min, density_max]`, measured from
/// `density_min`.
pub open spec fn density_offset(density: int, cfg: GenerationConfig) -> int {
    let c = if density < cfg.density_min { cfg.density_min as int } else if density > cfg.density_max {
        cfg.density_max as int
    } else {
        density
    };
    c - cfg.density_min
}

/// The density range, at least 1.
pub open spec fn density_span(cfg: GenerationConfig) -> int {
    let s = cfg.density_max - cfg.density_min;
    if s >= 1 { s } else { 1 }
}

/// Linear interpolation from `at_min` (at `density_min`) to `at_max` (at
/// `density_max`), the fall rounded toward zero.
pub open spec fn interpolate(density: int, at_min: int, at_max: int, cfg: GenerationConfig) -> int {
    at_min - trunc_div((at_min - at_max) * density_offset(density, cfg), density_span(cfg))
}

/// What the interpolation needs: an ordered density range whose width, and
/// the fall times any offset in it, fit `i32`.
pub open spec fn interpolation_fits(at_min: int, at_max: int, cfg: GenerationConfig) -> bool {
    &&& cfg.density_min <= cfg.density_max
    &&& fits_i32(cfg.density_max - cfg.density_min)
    &&& fits_i32(at_min - at_max)
    &&& fits_i32((at_min - at_max) * (cfg.density_max - cfg.density_min))
}

fn interpolate_exec(density: i32, at_min: i32, at_max: i32, cfg: &GenerationConfig) -> (r: i32)
    requires
        interpolation_fits(at_min as int, at_max as int, *cfg),
    ensures
        r == interpolate(density as int, at_min as int, at_max as int, *cfg),
{
    let span0 = cfg.density_max - cfg.density_min;
    let span_density = if span0 >= 1 { span0 } else { 1 };
    let span = at_min - at_max;
    let clamped = if density < cfg.density_min { cfg.density_min } else if density > cfg.density_max {
        cfg.density_max
    } else {
        density
    };
    let d = clamped - cfg.density_min;
    proof {
        let m = (cfg.density_max - cfg.density_min) as int;
        if span >= 0 {
            assert(0 <= span * d <= span * m) by (nonlinear_arith)
                requires
                    span >= 0,
                    0 <= d <= m,
            ;
        } else {
            assert(span * m <= span * d <= 0) by (nonlinear_arith)
                requires
                    span < 0,
                    0 <= d <= m,
            ;
        }
    }
    let fall = span * d / span_density;
    proof {
        lemma_fall_bounds(span as int, d as int, span_density as int);
    }
    at_min - fall
}

/// Interpolates the target block side length from `block_size_max_cells`
/// (at `density_min`) to `block_size_min_cells` (at `density_max`) --
/// integer only.
pub fn target_block_size(density: i32, cfg: &GenerationConfig) -> (r: i32)
    requires
        interpolation_fits(cfg.block_size_max_cells as int, cfg.block_size_min_cells as int, *cfg),
    ensures
        r == interpolate(density as int, cfg.block_size_max_cells as int, cfg.block_size_min_cells as int, *cfg),
{
    interpolate_exec(density, cfg.block_size_max_cells, cfg.block_size_min_cells, cfg)
}

/// Interpolates the lane-tier short-side ceiling from
/// `max_block_depth_max_cells` (at `density_min`) to
/// `max_block_depth_min_cells` (at `density_max`), the same shape as
/// [`target_block_size`].
pub fn target_block_depth(density: i32, cfg: &GenerationConfig) -> (r: i32)
    requires
        interpolation_fits(cfg.max_block_depth_max_cells as int, cfg.max_block_depth_min_cells as int, *cfg),
    ensures
        r == interpolate(density as int, cfg.max_block_depth_max_cells as int, cfg.max_block_depth_min_cells as int, *cfg),
{
    interpolate_exec(density, cfg.max_block_depth_max_cells, cfg.max_block_depth_min_cells, cfg)
}

/// The interpolation never rises with density when `at_max <= at_min`,
/// and runs exactly from `at_min` at (or below) `density_min` to `at_max`
/// at (or above) `density_max`.
pub proof fn lemma_interpolate_monotone(d1: int, d2: int, at_min: int, at_max: int, cfg: GenerationConfig)
    requires
        cfg.density_min <= cfg.density_max,
        at_max <= at_min,
        d1 <= d2,
    ensures
        interpolate(d2, at_min, at_max, cfg) <= interpolate(d1, at_min, at_max, cfg),
        d1 <= cfg.density_min ==> interpolate(d1, at_min, at_max, cfg) == at_min,
        d2 >= cfg.density_max && cfg.density_min < cfg.density_max ==> interpolate(d2, at_min, at_max, cfg) == at_max,
{
    let span = at_min - at_max;
    let o1 = density_offset(d1, cfg);
    let o2 = density_offset(d2, cfg);
    let sd = density_span(cfg);
    assert(o1 <= o2);
    assert(0 <= span * o1 <= span * o2) by (nonlinear_arith)
        requires
            span >= 0,
            0 <= o1 <= o2,
    ;
    vstd::arithmetic::div_mod::lemma_div_is_ordered(span * o1, span * o2, sd);
    if d1 <= cfg.density_min {
        assert(o1 == 0);
        assert(span * o1 == 0) by (nonlinear_arith)
            requires
                o1 == 0,
        ;
    }
    if d2 >= cfg.density_max && cfg.density_min < cfg.density_max {
        assert(o2 == sd);
        assert((span * sd) / sd == span) by (nonlinear_arith)
            requires
                sd >= 1,
        ;
    }
}

/// Whether `phys` must still be split, and at which tier: street tier
/// while either axis exceeds the density-derived `target` or the rect
/// spans more than one land-use region (always inside a commercial block;
/// elsewhere only while the superblock's own street-split budget lasts,
/// lane tier after that); lane tier once the target holds but the shorter
/// side still exceeds `max_depth`; no split otherwise.
pub open spec fn spec_split_tier(
    phys: Rect,
    target: int,
    max_depth: int,
    street_depth: u32,
    is_commercial: bool,
    spans_multiple_regions: bool,
    cfg: GenerationConfig,
) -> Option<StreetClass> {
    let over = phys.spec_width() > target || phys.spec_height() > target || spans_multiple_regions;
    let short_side = if phys.spec_width() <= phys.spec_height() { phys.spec_width() } else { phys.spec_height() };
    if over {
        if is_commercial || street_depth < cfg.max_street_splits_per_superblock {
            Some(StreetClass::Street)
        } else {
            Some(StreetClass::Lane)
        }
    } else if short_side > max_depth {
        Some(StreetClass::Lane)
    } else {
        None
    }
}

/// Whether the coarse cells under `phys` (a world-cell rect) carry more
/// than one region label, `labels` holding one label per coarse cell,
/// row-major: two cells of the window `phys` reaches differ.
pub open spec fn spec_spans_multiple_regions(lu: LandUseMap, labels: Seq<i32>, phys: Rect) -> bool {
    let s = lu.spec_site();
    let c = lu.spec_cell_size();
    let cols = lu.spec_cols();
    let cx0 = window_lo(phys.x0 as int, s.x0 as int, c);
    let cx1 = window_hi(phys.x1 as int, s.x0 as int, c, cols);
    let cy0 = window_lo(phys.y0 as int, s.y0 as int, c);
    let cy1 = window_hi(phys.y1 as int, s.y0 as int, c, lu.spec_rows());
    exists|a: int, b: int, a2: int, b2: int|
        cx0 <= a < cx1 && cy0 <= b < cy1 && cx0 <= a2 < cx1 && cy0 <= b2 < cy1 && #[trigger] labels[b * cols + a]
            != #[trigger] labels[b2 * cols + a2]
}

/// Cell `(a, b)` comes before `(cx, cy)` in a row-major scan of the window
/// starting at column `cx0` and row `cy0`, `cx1` columns wide.
pub open spec fn scanned(a: int, b: int, cx0: int, cx1: int, cy0: int, cx: int, cy: int) -> bool {
    (cy0 <= b < cy && cx0 <= a < cx1) || (b == cy && cx0 <= a < cx)
}

proof fn lemma_cell_index(a: int, b: int, cols: int, rows: int)
    requires
        0 <= a < cols,
        0 <= b < rows,
    ensures
        0 <= b * cols <= b * cols + a < rows * cols,
{
    assert(0 <= b * cols <= b * cols + a < rows * cols) by (nonlinear_arith)
        requires
            0 <= a < cols,
            0 <= b < rows,
    ;
}

/// Whether the coarse cells under `phys` belong to more than one labeled
/// region, per [`spec_spans_multiple_regions`]; `labels` is the map's
/// region labelling, one label per coarse cell, row-major.
#[verifier::spinoff_prover]
pub fn spans_multiple_regions(land_use: &LandUseMap, labels: &[i32], phys: Rect) -> (r: bool)
    requires
        labels@.len() >= land_use.spec_cols() * land_use.spec_rows(),
    ensures
        r == spec_spans_multiple_regions(*land_use, labels@, phys),
{
    let cell = land_use.cell_size() as i64;
    let site = land_use.site();
    let cols = land_use.cols() as i64;
    let rows = land_use.rows() as i64;
    let fx0 = floor_div(phys.x0 as i64 - site.x0 as i64, cell);
    let cx0 = if fx0 >= 0 { fx0 } else { 0 };
    let fx1 = floor_div(phys.x1 as i64 - site.x0 as i64 - 1, cell) + 1;
    let cx1 = if fx1 <= cols { fx1 } else { cols };
    let fy0 = floor_div(phys.y0 as i64 - site.y0 as i64, cell);
    let cy0 = if fy0 >= 0 { fy0 } else { 0 };
    let fy1 = floor_div(phys.y1 as i64 - site.y0 as i64 - 1, cell) + 1;
    let cy1 = if fy1 <= rows { fy1 } else { rows };
    let ghost lu = *land_use;
    assert(cx0 == window_lo(phys.x0 as int, site.x0 as int, cell as int));
    assert(cx1 == window_hi(phys.x1 as int, site.x0 as int, cell as int, cols as int));
    assert(cy0 == window_lo(phys.y0 as int, site.y0 as int, cell as int));
    assert(cy1 == window_hi(phys.y1 as int, site.y0 as int, cell as int, rows as int));
    assert(rows * cols <= 0x4000_0000_0000_0000) by (nonlinear_arith)
        requires
            1 <= cols <= i32::MAX,
            1 <= rows <= i32::MAX,
    ;
    let mut first: Option<i32> = None;
    let mut cy = cy0;
    while cy < cy1
        invariant
            lu == *land_use,
            cols == lu.spec_cols(),
            rows == lu.spec_rows(),
            1 <= cols <= i32::MAX,
            1 <= rows <= i32::MAX,
            labels@.len() >= cols * rows,
            cx0 == window_lo(phys.x0 as int, lu.spec_site().x0 as int, lu.spec_cell_size()),
            cx1 == window_hi(phys.x1 as int, lu.spec_site().x0 as int, lu.spec_cell_size(), cols as int),
            cy0 == window_lo(phys.y0 as int, lu.spec_site().y0 as int, lu.spec_cell_size()),
            cy1 == window_hi(phys.y1 as int, lu.spec_site().y0 as int, lu.spec_cell_size(), rows as int),
            rows * cols <= 0x4000_0000_0000_0000,
            0 <= cx0,
            cx1 <= cols,
            0 <= cy0 <= cy,
            cy1 <= rows,
            cy <= cy1 || cy == cy0,
            first is None ==> cy == cy0 || cx0 >= cx1,
            first matches Some(f) ==> cx0 < cx1 && cy0 < cy && labels@[cy0 * cols + cx0] == f,
            first matches Some(f) ==> forall|a: int, b: int|
                scanned(a, b, cx0 as int, cx1 as int, cy0 as int, cx1 as int, cy - 1) ==> #[trigger] labels@[b * cols + a] == f,
        decreases cy1 - cy,
    {
        let mut cx = cx0;
        while cx < cx1
            invariant
                lu == *land_use,
                cols == lu.spec_cols(),
                rows == lu.spec_rows(),
                1 <= cols <= i32::MAX,
                1 <= rows <= i32::MAX,
                labels@.len() >= cols * rows,
                cx0 == window_lo(phys.x0 as int, lu.spec_site().x0 as int, lu.spec_cell_size()),
                cx1 == window_hi(phys.x1 as int, lu.spec_site().x0 as int, lu.spec_cell_size(), cols as int),
                cy0 == window_lo(phys.y0 as int, lu.spec_site().y0 as int, lu.spec_cell_size()),
                cy1 == window_hi(phys.y1 as int, lu.spec_site().y0 as int, lu.spec_cell_size(), rows as int),
                rows * cols <= 0x4000_0000_0000_0000,
                0 <= cx0 <= cx,
                cx <= cx1 || cx == cx0,
                cx1 <= cols,
                0 <= cy0 <= cy < cy1,
                cy1 <= rows,
                first is None ==> cx == cx0 && (cy == cy0 || cx0 >= cx1),
                first matches Some(f) ==> cx0 < cx1 && labels@[cy0 * cols + cx0] == f,
                first matches Some(f) ==> forall|a: int, b: int|
                    scanned(a, b, cx0 as int, cx1 as int, cy0 as int, cx as int, cy as int) ==> #[trigger] labels@[b * cols + a] == f,
            decreases cx1 - cx,
        {
            proof {
                lemma_cell_index(cx as int, cy as int, cols as int, rows as int);
            }
            let label = labels[(cy * cols + cx) as usize];
            match first {
                None => {
                    assert(cx == cx0 && cy == cy0);
                    first = Some(label);
                },
                Some(f) => {
                    if f != label {
                        proof {
                            let n = lu.spec_cols();
                            let (a, b, a2, b2) = (cx0 as int, cy0 as int, cx as int, cy as int);
                            assert(cx0 <= a < cx1 && cy0 <= b < cy1 && cx0 <= a2 < cx1 && cy0 <= b2 < cy1);
                            assert(labels@[b * n + a] != labels@[b2 * n + a2]);
                        }
                        return true;
                    }
                },
            }
            cx += 1;
        }
        cy += 1;
    }
    proof {
        assert forall|a: int, b: int, a2: int, b2: int|
            cx0 <= a < cx1 && cy0 <= b < cy1 && cx0 <= a2 < cx1 && cy0 <= b2 < cy1 implies !(#[trigger] labels@[b * cols + a]
                != #[trigger] labels@[b2 * cols + a2]) by {
            assert(scanned(a, b, cx0 as int, cx1 as int, cy0 as int, cx1 as int, cy - 1));
            assert(scanned(a2, b2, cx0 as int, cx1 as int, cy0 as int, cx1 as int, cy - 1));
        }
    }
    false
}

fn split_tier_needed(
    phys: Rect,
    target: i64,
    max_depth: i64,
    street_depth: u32,
    is_commercial: bool,
    spans_multiple_regions: bool,
    cfg: &GenerationConfig,
) -> (r: Option<StreetClass>)
    ensures
        r == spec_split_tier(phys, target as int, max_depth as int, street_depth, is_commercial, spans_multiple_regions, *cfg),
{
    let over_target = phys.width() > target || phys.height() > target || spans_multiple_regions;
    if over_target {
        if is_commercial || street_depth < cfg.max_street_splits_per_superblock {
            return Some(StreetClass::Street);
        }
        return Some(StreetClass::Lane);
    }
    let short_side = if phys.width() <= phys.height() { phys.width() } else { phys.height() };
    if short_side > max_depth {
        return Some(StreetClass::Lane);
    }
    None
}

/// The nominal spacing of `count` bands across `[from, to)`.
pub open spec fn band_width(from: int, to: int, count: int) -> int {
    trunc_div(to - from, count + 1)
}

/// How far a band may jitter either way: `jitter_pct` percent of the band
/// width (rounded toward zero), at least 0.
pub open spec fn band_jitter_span(band: int, pct: int) -> int {
    let j = trunc_div(band * pct, 100);
    if j > 0 {
        j
    } else {
        0
    }
}

/// The first `i` band positions before they are pushed apart, and the
/// state after: band `k` (from 1) at `from + band * k` moved by its drawn
/// jitter (no draw when the jitter span is 0), clamped to keep the edge
/// margin (half the street plus the minimum block depth) from both site
/// edges.
pub open spec fn band_raw(w: Seq<u64>, from: int, to: int, count: int, pct: int, width: int, mbd: int, i: int) -> (Seq<int>, Seq<u64>)
    decreases i,
{
    if i <= 0 {
        (Seq::empty(), w)
    } else {
        let (prev, w1) = band_raw(w, from, to, count, pct, width, mbd, i - 1);
        let band = band_width(from, to, count);
        let nominal = from + band * i;
        let js = band_jitter_span(band, pct);
        let (jit, w2) = if js > 0 {
            ((((xoshiro_output(w1) % ((2 * js + 1) as u64)) as i32) - js) as int, xoshiro_advance(w1))
        } else {
            (0int, w1)
        };
        let em = trunc_div(width, 2) + mbd;
        let lo = from + em;
        let hi = to - em;
        let a = if lo <= hi { lo } else { hi };
        let b = if lo <= hi { hi } else { lo };
        let v = nominal + jit;
        (prev.push(if v < a { a } else if v > b { b } else { v }), w2)
    }
}

/// `raw`'s first `k` positions, each pushed to at least `gap` past the one
/// before it.
pub open spec fn pushed_apart(raw: Seq<int>, gap: int, k: int) -> Seq<int>
    decreases k,
{
    if k <= 0 {
        Seq::empty()
    } else if k == 1 {
        seq![raw[0]]
    } else {
        let prev = pushed_apart(raw, gap, k - 1);
        let floor = prev[k - 2] + gap;
        prev.push(if raw[k - 1] < floor { floor } else { raw[k - 1] })
    }
}

/// What [`band_positions`] returns, and the state after.
pub open spec fn spec_band_positions(w: Seq<u64>, from: int, to: int, count: int, pct: int, width: int, mbd: int) -> (Seq<int>, Seq<u64>) {
    if count <= 0 {
        (Seq::empty(), w)
    } else {
        let (raw, w1) = band_raw(w, from, to, count, pct, width, mbd, count);
        (pushed_apart(raw, width + mbd, count), w1)
    }
}

/// The arithmetic of [`band_positions`] stays within `i32` (the count
/// also fits), for the positions the draws from `w` give.
pub open spec fn band_positions_ok(w: Seq<u64>, from: int, to: int, count: int, pct: int, width: int, mbd: int) -> bool {
    let band = band_width(from, to, count);
    let js = band_jitter_span(band, pct);
    let em = trunc_div(width, 2) + mbd;
    let out = spec_band_positions(w, from, to, count, pct, width, mbd).0;
    &&& 0 <= count < i32::MAX
    &&& fits_i32(to - from)
    &&& fits_i32(band * pct)
    &&& 2 * js + 1 <= 0x8000_0000
    &&& fits_i32(em)
    &&& fits_i32(from + em)
    &&& fits_i32(to - em)
    &&& fits_i32(width + mbd)
    &&& forall|i: int| 1 <= i <= count ==> fits_i32(#[trigger] (band * i)) && fits_i32(from + band * i - js) && fits_i32(from + band * i + js)
    &&& forall|k: int| 0 <= k < out.len() ==> fits_i32(#[trigger] out[k]) && fits_i32(out[k] + width + mbd)
}

proof fn lemma_band_raw_len(w: Seq<u64>, from: int, to: int, count: int, pct: int, width: int, mbd: int, i: int)
    requires
        i >= 0,
    ensures
        band_raw(w, from, to, count, pct, width, mbd, i).0.len() == i,
    decreases i,
{
    if i > 0 {
        lemma_band_raw_len(w, from, to, count, pct, width, mbd, i - 1);
    }
}

proof fn lemma_pushed_len(raw: Seq<int>, gap: int, k: int)
    requires
        k >= 0,
    ensures
        pushed_apart(raw, gap, k).len() == k,
    decreases k,
{
    if k > 1 {
        lemma_pushed_len(raw, gap, k - 1);
    }
}

/// A pushed-apart prefix is a prefix of every longer one.
proof fn lemma_pushed_prefix(raw: Seq<int>, gap: int, k: int, m: int, j: int)
    requires
        0 <= j < k <= m,
    ensures
        pushed_apart(raw, gap, m)[j] == pushed_apart(raw, gap, k)[j],
    decreases m - k,
{
    if m > k {
        lemma_pushed_prefix(raw, gap, k, m - 1, j);
        lemma_pushed_len(raw, gap, m - 1);
        if m > 1 {
            assert(pushed_apart(raw, gap, m)[j] == pushed_apart(raw, gap, m - 1)[j]);
        }
    }
}

/// `count` arterial positions across `[site_from, site_to)`: band `k` at
/// its nominal `site_from + k * band` (the span split into `count + 1`
/// bands), moved by a drawn jitter of up to `jitter_pct` percent of the
/// band width either way, clamped to keep half the street plus
/// `min_block_depth` from both site edges, then each pushed to at least
/// `width + min_block_depth` past the one before.
#[verifier::spinoff_prover]
pub fn band_positions(
    rng: &mut Rng,
    site_from: i32,
    site_to: i32,
    count: u32,
    jitter_pct: i32,
    width: i32,
    min_block_depth: i32,
) -> (r: Vec<i32>)
    requires
        band_positions_ok(old(rng).words(), site_from as int, site_to as int, count as int, jitter_pct as int, width as int, min_block_depth as int),
    ensures
        r@.len() == count,
        forall|k: int| 0 <= k < count ==> r@[k] as int == spec_band_positions(
            old(rng).words(), site_from as int, site_to as int, count as int, jitter_pct as int, width as int, min_block_depth as int).0[k],
        final(rng).words() == spec_band_positions(
            old(rng).words(), site_from as int, site_to as int, count as int, jitter_pct as int, width as int, min_block_depth as int).1,
        forall|k: int| 0 < k < count ==> #[trigger] r@[k] >= r@[k - 1] + width + min_block_depth,
{
    if count == 0 {
        return Vec::new();
    }
    let ghost w0 = rng.words();
    let ghost (from, to, cnt, pct, wd, mbd) = (site_from as int, site_to as int, count as int, jitter_pct as int, width as int, min_block_depth as int);
    let span = site_to - site_from;
    let band = span / (count as i32 + 1);
    assert(band == band_width(from, to, cnt));
    let half = width / 2;
    let edge_margin = half + min_block_depth;
    let mut raw: Vec<i32> = Vec::new();
    let mut i: i32 = 1;
    while i <= count as i32
        invariant
            band_positions_ok(w0, from, to, cnt, pct, wd, mbd),
            1 <= i <= cnt + 1,
            cnt == count,
            from == site_from && to == site_to && pct == jitter_pct && wd == width && mbd == min_block_depth,
            band == band_width(from, to, cnt),
            edge_margin == trunc_div(wd, 2) + mbd,
            raw@.len() == i - 1,
            forall|k: int| 0 <= k < i - 1 ==> raw@[k] as int == band_raw(w0, from, to, cnt, pct, wd, mbd, i - 1).0[k],
            rng.words() == band_raw(w0, from, to, cnt, pct, wd, mbd, i - 1).1,
        decreases cnt + 1 - i,
    {
        assert(fits_i32(band * i) && fits_i32(from + band * i - band_jitter_span(band as int, pct)));
        let nominal = site_from + band * i;
        let prod = band * jitter_pct;
        let js0 = prod / 100;
        let jitter_span = if js0 > 0 { js0 } else { 0 };
        assert(jitter_span == band_jitter_span(band as int, pct));
        let ghost wb = rng.words();
        let jitter: i32 = if jitter_span > 0 {
            (rng.next_u64() % (2 * jitter_span as u64 + 1)) as i32 - jitter_span
        } else {
            0
        };
        let lo = site_from + edge_margin;
        let hi = site_to - edge_margin;
        let a = if lo <= hi { lo } else { hi };
        let b = if lo <= hi { hi } else { lo };
        let v = nominal as i64 + jitter as i64;
        let pos: i32 = if v < a as i64 { a } else if v > b as i64 { b } else { v as i32 };
        proof {
            lemma_band_raw_len(w0, from, to, cnt, pct, wd, mbd, i - 1);
            let (prev, w1) = band_raw(w0, from, to, cnt, pct, wd, mbd, i - 1);
            assert(band_raw(w0, from, to, cnt, pct, wd, mbd, i as int).0 == prev.push(pos as int));
        }
        raw.push(pos);
        i += 1;
    }
    proof {
        lemma_band_raw_len(w0, from, to, cnt, pct, wd, mbd, cnt);
    }
    let ghost rs = band_raw(w0, from, to, cnt, pct, wd, mbd, cnt).0;
    let ghost out = pushed_apart(rs, wd + mbd, cnt);
    let min_gap = width + min_block_depth;
    let mut result = raw;
    let mut k: usize = 1;
    proof {
        lemma_pushed_len(rs, wd + mbd, cnt);
        lemma_pushed_prefix(rs, wd + mbd, 1, cnt, 0);
    }
    while k < result.len()
        invariant
            band_positions_ok(w0, from, to, cnt, pct, wd, mbd),
            out == spec_band_positions(w0, from, to, cnt, pct, wd, mbd).0,
            out == pushed_apart(rs, wd + mbd, cnt),
            out.len() == cnt,
            cnt == count,
            cnt >= 1,
            result@.len() == cnt,
            min_gap == wd + mbd,
            1 <= k <= cnt,
            forall|j: int| 0 <= j < k ==> result@[j] as int == out[j],
            forall|j: int| k <= j < cnt ==> result@[j] as int == rs[j],
        decreases cnt - k,
    {
        proof {
            lemma_pushed_len(rs, wd + mbd, k + 1);
            lemma_pushed_len(rs, wd + mbd, k as int);
            lemma_pushed_prefix(rs, wd + mbd, k + 1, cnt, k as int);
            lemma_pushed_prefix(rs, wd + mbd, k as int, cnt, k - 1);
            assert(fits_i32(out[k - 1]) && fits_i32(out[k - 1] + wd + mbd));
        }
        let prev = result[k - 1];
        let floor = prev + min_gap;
        if result[k] < floor {
            result.set(k, floor);
        }
        proof {
            lemma_pushed_prefix(rs, wd + mbd, k as int, k + 1, k - 1);
            assert(result@[k as int] as int == out[k as int]);
        }
        k += 1;
    }
    proof {
        assert forall|j: int| 0 < j < count implies #[trigger] result@[j] >= result@[j - 1] + width + min_block_depth by {
            lemma_pushed_prefix(rs, wd + mbd, j + 1, cnt, j);
            lemma_pushed_prefix(rs, wd + mbd, j, cnt, j - 1);
            lemma_pushed_prefix(rs, wd + mbd, j, j + 1, j - 1);
            lemma_pushed_len(rs, wd + mbd, j);
        }
    }
    result
}

/// The `n + 1` ranges `positions` leave along one axis of `[from, to)`,
/// each inset by `half` from every position it borders.
pub open spec fn ranges_ok(r: Seq<(i32, i32)>, positions: Seq<i32>, from: int, to: int, half: int) -> bool {
    &&& r.len() == positions.len() + 1
    &&& r[0].0 == from
    &&& r[positions.len() as int].1 == to
    &&& forall|i: int| 0 <= i < positions.len() ==> (#[trigger] r[i]).1 == positions[i] - half
    &&& forall|i: int| 0 < i <= positions.len() ==> (#[trigger] r[i]).0 == positions[i - 1] + half
}

/// Every position, moved `half` either way, fits `i32`.
pub open spec fn positions_fit(positions: Seq<i32>, half: int) -> bool {
    forall|i: int| 0 <= i < positions.len() ==> fits_i32(#[trigger] positions[i] - half) && fits_i32(positions[i] + half)
}

fn ranges_between(positions: &Vec<i32>, from: i32, to: i32, half: i32) -> (r: Vec<(i32, i32)>)
    requires
        positions_fit(positions@, half as int),
    ensures
        ranges_ok(r@, positions@, from as int, to as int, half as int),
{
    let mut r: Vec<(i32, i32)> = Vec::new();
    let mut cursor = from;
    let mut i: usize = 0;
    while i < positions.len()
        invariant
            i <= positions.len(),
            positions_fit(positions@, half as int),
            r.len() == i,
            i == 0 ==> cursor == from,
            i > 0 ==> cursor == positions@[i - 1] + half,
            i > 0 ==> r@[0].0 == from,
            forall|k: int| 0 <= k < i ==> (#[trigger] r@[k]).1 == positions@[k] - half,
            forall|k: int| 0 < k < i ==> (#[trigger] r@[k]).0 == positions@[k - 1] + half,
        decreases positions.len() - i,
    {
        let p = positions[i];
        assert(fits_i32(positions@[i as int] - half) && fits_i32(positions@[i as int] + half));
        r.push((cursor, p - half));
        cursor = p + half;
        i += 1;
    }
    r.push((cursor, to));
    r
}

/// The `count + 1` physical ranges the arterials at `positions` leave
/// along one axis of `[site_from, site_to)`, each inset by the arterial's
/// own half-width.
fn band_ranges(positions: &Vec<i32>, site_from: i32, site_to: i32, width: i32) -> (r: Vec<(i32, i32)>)
    requires
        positions_fit(positions@, trunc_div(width as int, 2)),
    ensures
        ranges_ok(r@, positions@, site_from as int, site_to as int, trunc_div(width as int, 2)),
{
    ranges_between(positions, site_from, site_to, width / 2)
}

/// [`band_ranges`]' topological counterpart: the same ranges split exactly
/// at each arterial's own centreline, no width subtracted.
fn band_ranges_topo(positions: &Vec<i32>, site_from: i32, site_to: i32) -> (r: Vec<(i32, i32)>)
    ensures
        ranges_ok(r@, positions@, site_from as int, site_to as int, 0),
{
    ranges_between(positions, site_from, site_to, 0)
}

/// A seeded count in `[min, max]` drawn from state `w` (just `min` when
/// the range is empty), and the state after.
pub open spec fn spec_arterial_count(w: Seq<u64>, min: u32, max: u32) -> (u32, Seq<u64>) {
    if max <= min {
        (min, w)
    } else {
        ((min + xoshiro_output(w) % ((max - min + 1) as u64)) as u32, xoshiro_advance(w))
    }
}

fn arterial_count(rng: &mut Rng, min: u32, max: u32) -> (r: u32)
    requires
        old(rng).words().len() == 4,
    ensures
        (r, final(rng).words()) == spec_arterial_count(old(rng).words(), min, max),
        final(rng).words().len() == 4,
{
    if max <= min {
        return min;
    }
    let m = (max - min) as u64 + 1;
    let v = rng.next_u64() % m;
    min + v as u32
}

/// Which arterial, if any, stops at a T against a perpendicular one.
#[derive(Debug, Clone, Copy, PartialEq, Eq, Structural)]
pub enum Truncation {
    /// Every arterial runs the full span.
    Full,
    /// `arterial_xs[index]` is truncated to `[site.y0, arterial_ys[t_index]]`.
    Vertical { index: usize, t_index: usize },
    /// `arterial_ys[index]` is truncated to `[site.x0, arterial_xs[t_index]]`.
    Horizontal { index: usize, t_index: usize },
}

/// The truncation drawn from state `w` for `xs_len` vertical and `ys_len`
/// horizontal arterials, and the state after.
pub open spec fn spec_truncation(w: Seq<u64>, xs_len: usize, ys_len: usize) -> (Truncation, Seq<u64>) {
    if xs_len == 0 || ys_len == 0 {
        (Truncation::Full, w)
    } else {
        let w1 = xoshiro_advance(w);
        let w2 = xoshiro_advance(w1);
        let w3 = xoshiro_advance(w2);
        if xoshiro_output(w) % 2 == 0 {
            (Truncation::Vertical {
                index: (xoshiro_output(w1) % (xs_len as u64)) as usize,
                t_index: (xoshiro_output(w2) % (ys_len as u64)) as usize,
            }, w3)
        } else {
            (Truncation::Horizontal {
                index: (xoshiro_output(w1) % (ys_len as u64)) as usize,
                t_index: (xoshiro_output(w2) % (xs_len as u64)) as usize,
            }, w3)
        }
    }
}

/// Truncates at most one arterial to a T against a perpendicular one, so
/// the arterial skeleton is never a full lattice: a coin decides vertical
/// or horizontal, then the arterial and the one it stops at are drawn.
fn truncate_one_arterial(rng: &mut Rng, xs_len: usize, ys_len: usize) -> (t: Truncation)
    requires
        old(rng).words().len() == 4,
    ensures
        (t, final(rng).words()) == spec_truncation(old(rng).words(), xs_len, ys_len),
        final(rng).words().len() == 4,
        t matches Truncation::Vertical { index, t_index } ==> index < xs_len && t_index < ys_len,
        t matches Truncation::Horizontal { index, t_index } ==> index < ys_len && t_index < xs_len,
{
    if xs_len == 0 || ys_len == 0 {
        return Truncation::Full;
    }
    let coin = rng.next_u64();
    if coin % 2 == 0 {
        let index = (rng.next_u64() % xs_len as u64) as usize;
        let t_index = (rng.next_u64() % ys_len as u64) as usize;
        Truncation::Vertical { index, t_index }
    } else {
        let index = (rng.next_u64() % ys_len as u64) as usize;
        let t_index = (rng.next_u64() % xs_len as u64) as usize;
        Truncation::Horizontal { index, t_index }
    }
}

/// The rect spanning column ranges `i..=i2` and row ranges `j..=j2`.
pub open spec fn span_rect(xs: Seq<(i32, i32)>, ys: Seq<(i32, i32)>, i: int, i2: int, j: int, j2: int) -> Rect {
    Rect { x0: xs[i].0, y0: ys[j].0, x1: xs[i2].1, y1: ys[j2].1 }
}

/// The superblock pair (physical, topological) spanning column ranges
/// `i..=i2` and row ranges `j..=j2`.
pub open spec fn span_pair(
    xr: Seq<(i32, i32)>,
    yr: Seq<(i32, i32)>,
    xt: Seq<(i32, i32)>,
    yt: Seq<(i32, i32)>,
    i: int,
    i2: int,
    j: int,
    j2: int,
) -> (Rect, Rect) {
    (span_rect(xr, yr, i, i2, j, j2), span_rect(xt, yt, i, i2, j, j2))
}

/// Row `j`'s superblocks from column `i` on, merging columns `index` and
/// `index + 1` into one when `merge`.
pub open spec fn row_from(
    xr: Seq<(i32, i32)>,
    yr: Seq<(i32, i32)>,
    xt: Seq<(i32, i32)>,
    yt: Seq<(i32, i32)>,
    j: int,
    merge: bool,
    index: int,
    i: int,
) -> Seq<(Rect, Rect)>
    decreases xr.len() - i,
{
    if i >= xr.len() {
        Seq::empty()
    } else if merge && i == index && i + 1 < xr.len() {
        seq![span_pair(xr, yr, xt, yt, i, i + 1, j, j)] + row_from(xr, yr, xt, yt, j, merge, index, i + 2)
    } else {
        seq![span_pair(xr, yr, xt, yt, i, i, j, j)] + row_from(xr, yr, xt, yt, j, merge, index, i + 1)
    }
}

/// Column `i`'s superblocks from row `j` on, merging rows `index` and
/// `index + 1` into one when `merge`.
pub open spec fn column_from(
    xr: Seq<(i32, i32)>,
    yr: Seq<(i32, i32)>,
    xt: Seq<(i32, i32)>,
    yt: Seq<(i32, i32)>,
    i: int,
    merge: bool,
    index: int,
    j: int,
) -> Seq<(Rect, Rect)>
    decreases yr.len() - j,
{
    if j >= yr.len() {
        Seq::empty()
    } else if merge && j == index && j + 1 < yr.len() {
        seq![span_pair(xr, yr, xt, yt, i, i, j, j + 1)] + column_from(xr, yr, xt, yt, i, merge, index, j + 2)
    } else {
        seq![span_pair(xr, yr, xt, yt, i, i, j, j)] + column_from(xr, yr, xt, yt, i, merge, index, j + 1)
    }
}

/// The superblocks of the first `k` rows (for no truncation, or a
/// truncated vertical arterial) or the first `k` columns (for a truncated
/// horizontal arterial), in the order [`merged_superblocks`] emits them.
pub open spec fn superblocks_upto(
    xr: Seq<(i32, i32)>,
    yr: Seq<(i32, i32)>,
    xt: Seq<(i32, i32)>,
    yt: Seq<(i32, i32)>,
    trunc: Truncation,
    axs: Seq<i32>,
    ays: Seq<i32>,
    k: int,
) -> Seq<(Rect, Rect)>
    decreases k,
{
    if k <= 0 {
        Seq::empty()
    } else {
        superblocks_upto(xr, yr, xt, yt, trunc, axs, ays, k - 1) + match trunc {
            Truncation::Full => row_from(xr, yr, xt, yt, k - 1, false, 0, 0),
            Truncation::Vertical { index, t_index } => row_from(
                xr,
                yr,
                xt,
                yt,
                k - 1,
                yt[k - 1].0 >= ays[t_index as int],
                index as int,
                0,
            ),
            Truncation::Horizontal { index, t_index } => column_from(
                xr,
                yr,
                xt,
                yt,
                k - 1,
                xt[k - 1].0 >= axs[t_index as int],
                index as int,
                0,
            ),
        }
    }
}

/// Every superblock [`merged_superblocks`] emits: row by row (column by
/// column for a truncated horizontal arterial).
pub open spec fn spec_superblocks(
    xr: Seq<(i32, i32)>,
    yr: Seq<(i32, i32)>,
    xt: Seq<(i32, i32)>,
    yt: Seq<(i32, i32)>,
    trunc: Truncation,
    axs: Seq<i32>,
    ays: Seq<i32>,
) -> Seq<(Rect, Rect)> {
    let n = match trunc {
        Truncation::Horizontal { .. } => xr.len() as int,
        _ => yr.len() as int,
    };
    superblocks_upto(xr, yr, xt, yt, trunc, axs, ays, n)
}

fn pair_of(
    xr: &Vec<(i32, i32)>,
    yr: &Vec<(i32, i32)>,
    xt: &Vec<(i32, i32)>,
    yt: &Vec<(i32, i32)>,
    i: usize,
    i2: usize,
    j: usize,
    j2: usize,
) -> (r: (Rect, Rect))
    requires
        i < xr.len(),
        i2 < xr.len(),
        j < yr.len(),
        j2 < yr.len(),
        xt.len() == xr.len(),
        yt.len() == yr.len(),
    ensures
        r == span_pair(xr@, yr@, xt@, yt@, i as int, i2 as int, j as int, j2 as int),
{
    (
        Rect { x0: xr[i].0, y0: yr[j].0, x1: xr[i2].1, y1: yr[j2].1 },
        Rect { x0: xt[i].0, y0: yt[j].0, x1: xt[i2].1, y1: yt[j2].1 },
    )
}

/// The superblock `(phys, topo)` pairs a grid of arterial ranges leaves,
/// merging the pair either side of a truncated arterial's missing far half
/// into one wide superblock.
fn merged_superblocks(
    x_ranges: &Vec<(i32, i32)>,
    y_ranges: &Vec<(i32, i32)>,
    x_ranges_topo: &Vec<(i32, i32)>,
    y_ranges_topo: &Vec<(i32, i32)>,
    trunc: Truncation,
    arterial_xs: &Vec<i32>,
    arterial_ys: &Vec<i32>,
) -> (out: Vec<(Rect, Rect)>)
    requires
        x_ranges_topo.len() == x_ranges.len(),
        y_ranges_topo.len() == y_ranges.len(),
        trunc matches Truncation::Vertical { t_index, .. } ==> t_index < arterial_ys.len(),
        trunc matches Truncation::Horizontal { t_index, .. } ==> t_index < arterial_xs.len(),
    ensures
        out@ == spec_superblocks(x_ranges@, y_ranges@, x_ranges_topo@, y_ranges_topo@, trunc, arterial_xs@, arterial_ys@),
{
    let ghost (xr, yr, xt, yt, axs, ays) = (x_ranges@, y_ranges@, x_ranges_topo@, y_ranges_topo@, arterial_xs@, arterial_ys@);
    let mut out: Vec<(Rect, Rect)> = Vec::new();
    let horizontal = match trunc {
        Truncation::Horizontal { .. } => true,
        _ => false,
    };
    let outer = if horizontal { x_ranges.len() } else { y_ranges.len() };
    let inner = if horizontal { y_ranges.len() } else { x_ranges.len() };
    let mut a: usize = 0;
    while a < outer
        invariant
            x_ranges_topo.len() == x_ranges.len(),
            y_ranges_topo.len() == y_ranges.len(),
            xr == x_ranges@,
            yr == y_ranges@,
            xt == x_ranges_topo@,
            yt == y_ranges_topo@,
            axs == arterial_xs@,
            ays == arterial_ys@,
            horizontal == (trunc is Horizontal),
            outer == (if horizontal { x_ranges.len() } else { y_ranges.len() }),
            inner == (if horizontal { y_ranges.len() } else { x_ranges.len() }),
            trunc matches Truncation::Vertical { t_index, .. } ==> t_index < arterial_ys.len(),
            trunc matches Truncation::Horizontal { t_index, .. } ==> t_index < arterial_xs.len(),
            a <= outer,
            out@ == superblocks_upto(xr, yr, xt, yt, trunc, axs, ays, a as int),
        decreases outer - a,
    {
        let (merge, index) = match trunc {
            Truncation::Full => (false, 0usize),
            Truncation::Vertical { index, t_index } => (y_ranges_topo[a].0 >= arterial_ys[t_index], index),
            Truncation::Horizontal { index, t_index } => (x_ranges_topo[a].0 >= arterial_xs[t_index], index),
        };
        let ghost line = if horizontal {
            column_from(xr, yr, xt, yt, a as int, merge, index as int, 0)
        } else {
            row_from(xr, yr, xt, yt, a as int, merge, index as int, 0)
        };
        let ghost before = out@;
        let mut b: usize = 0;
        while b < inner
            invariant
                x_ranges_topo.len() == x_ranges.len(),
                y_ranges_topo.len() == y_ranges.len(),
                xr == x_ranges@,
                yr == y_ranges@,
                xt == x_ranges_topo@,
                yt == y_ranges_topo@,
                horizontal == (trunc is Horizontal),
                inner == (if horizontal { y_ranges.len() } else { x_ranges.len() }),
                a < (if horizontal { x_ranges.len() } else { y_ranges.len() }),
                b <= inner,
                line == (if horizontal {
                    column_from(xr, yr, xt, yt, a as int, merge, index as int, 0)
                } else {
                    row_from(xr, yr, xt, yt, a as int, merge, index as int, 0)
                }),
                out@ + (if horizontal {
                    column_from(xr, yr, xt, yt, a as int, merge, index as int, b as int)
                } else {
                    row_from(xr, yr, xt, yt, a as int, merge, index as int, b as int)
                }) == before + line,
            decreases inner - b,
        {
            let ghost rest = if horizontal {
                column_from(xr, yr, xt, yt, a as int, merge, index as int, b as int)
            } else {
                row_from(xr, yr, xt, yt, a as int, merge, index as int, b as int)
            };
            let ghost out0 = out@;
            if merge && b == index && b + 1 < inner {
                let p = if horizontal {
                    pair_of(x_ranges, y_ranges, x_ranges_topo, y_ranges_topo, a, a, b, b + 1)
                } else {
                    pair_of(x_ranges, y_ranges, x_ranges_topo, y_ranges_topo, b, b + 1, a, a)
                };
                out.push(p);
                b += 2;
            } else {
                let p = if horizontal {
                    pair_of(x_ranges, y_ranges, x_ranges_topo, y_ranges_topo, a, a, b, b)
                } else {
                    pair_of(x_ranges, y_ranges, x_ranges_topo, y_ranges_topo, b, b, a, a)
                };
                out.push(p);
                b += 1;
            }
            proof {
                let rest2 = if horizontal {
                    column_from(xr, yr, xt, yt, a as int, merge, index as int, b as int)
                } else {
                    row_from(xr, yr, xt, yt, a as int, merge, index as int, b as int)
                };
                assert(rest == seq![out@.last()] + rest2);
                assert(out@ == out0.push(out@.last()));
                assert(out@ + rest2 == out0 + rest);
            }
        }
        proof {
            let rest_end = if horizontal {
                column_from(xr, yr, xt, yt, a as int, merge, index as int, b as int)
            } else {
                row_from(xr, yr, xt, yt, a as int, merge, index as int, b as int)
            };
            assert(rest_end == Seq::<(Rect, Rect)>::empty());
            assert(out@ + rest_end == out@);
            assert(out@ == before + line);
            assert(superblocks_upto(xr, yr, xt, yt, trunc, axs, ays, a + 1) == superblocks_upto(xr, yr, xt, yt, trunc, axs, ays, a as int) + line);
        }
        a += 1;
    }
    out
}

/// The junction registry: for each street line, keyed by the touching
/// split's own axis (0 vertical, 1 horizontal) and the line's coordinate,
/// the positions already registered on it, strictly increasing.
pub type Registry = BTreeMap<(u8, i32), Vec<i32>>;

/// The registry key of a split along `axis` touching line `coord`.
pub open spec fn line_key(axis: Axis, coord: i32) -> (u8, i32) {
    (if axis == Axis::Vertical { 0u8 } else { 1u8 }, coord)
}

/// The positions registered on `line`.
pub open spec fn entries(m: Map<(u8, i32), Vec<i32>>, line: (u8, i32)) -> Seq<i32> {
    if m.contains_key(line) { m[line]@ } else { Seq::empty() }
}

/// Every registered line's positions are strictly increasing.
pub open spec fn registry_ok(m: Map<(u8, i32), Vec<i32>>) -> bool {
    forall|line: (u8, i32), i: int, j: int|
        #![trigger m[line]@[i], m[line]@[j]]
        m.contains_key(line) && 0 <= i < j < m[line]@.len() ==> m[line]@[i] < m[line]@[j]
}

pub open spec fn abs_int(v: int) -> int {
    if v < 0 { -v } else { v }
}

/// `pos` either reuses each of `es` exactly or sits at least `sep` from it.
pub open spec fn clean_in(es: Seq<i32>, pos: int, sep: int) -> bool {
    forall|i: int| 0 <= i < es.len() ==> (#[trigger] es[i] == pos || abs_int(es[i] - pos) >= sep)
}

/// `pos` sits at least `sep` from every one of `es`.
pub open spec fn clear_of(es: Seq<i32>, pos: int, sep: int) -> bool {
    forall|i: int| 0 <= i < es.len() ==> abs_int(#[trigger] es[i] - pos) >= sep
}

fn clean_against_line(registry: &Registry, line: (u8, i32), pos: i64, min_separation: i32) -> (b: bool)
    requires
        -0x2_0000_0000 <= pos <= 0x2_0000_0000,
    ensures
        b == clean_in(entries(registry@, line), pos as int, min_separation as int),
{
    match registry.get(&line) {
        None => true,
        Some(existing) => {
            let mut i: usize = 0;
            while i < existing.len()
                invariant
                    i <= existing.len(),
                    -0x2_0000_0000 <= pos <= 0x2_0000_0000,
                    existing@ == entries(registry@, line),
                    forall|k: int| 0 <= k < i ==> (#[trigger] existing@[k] == pos || abs_int(existing@[k] - pos) >= min_separation),
                decreases existing.len() - i,
            {
                let e = existing[i] as i64;
                let d = if e >= pos { e - pos } else { pos - e };
                if e != pos && d < min_separation as i64 {
                    assert(!(existing@[i as int] == pos || abs_int(existing@[i as int] - pos) >= min_separation));
                    return false;
                }
                i += 1;
            }
            true
        },
    }
}

fn clear_of_line(registry: &Registry, line: (u8, i32), pos: i64, min_separation: i32) -> (b: bool)
    requires
        -0x2_0000_0000 <= pos <= 0x2_0000_0000,
    ensures
        b == clear_of(entries(registry@, line), pos as int, min_separation as int),
{
    match registry.get(&line) {
        None => true,
        Some(existing) => {
            let mut i: usize = 0;
            while i < existing.len()
                invariant
                    i <= existing.len(),
                    -0x2_0000_0000 <= pos <= 0x2_0000_0000,
                    existing@ == entries(registry@, line),
                    forall|k: int| 0 <= k < i ==> abs_int(#[trigger] existing@[k] - pos) >= min_separation,
                decreases existing.len() - i,
            {
                let e = existing[i] as i64;
                let d = if e >= pos { e - pos } else { pos - e };
                if d < min_separation as i64 {
                    assert(!(abs_int(existing@[i as int] - pos) >= min_separation));
                    return false;
                }
                i += 1;
            }
            true
        },
    }
}

fn line_has(registry: &Registry, line: (u8, i32), pos: i64) -> (b: bool)
    ensures
        b == (entries(registry@, line).contains(pos as i32) && i32::MIN <= pos <= i32::MAX),
{
    if pos < i32::MIN as i64 || pos > i32::MAX as i64 {
        return false;
    }
    match registry.get(&line) {
        None => false,
        Some(existing) => {
            let mut i: usize = 0;
            while i < existing.len()
                invariant
                    i <= existing.len(),
                    i32::MIN <= pos <= i32::MAX,
                    existing@ == entries(registry@, line),
                    forall|k: int| 0 <= k < i ==> #[trigger] existing@[k] != pos,
                decreases existing.len() - i,
            {
                if existing[i] as i64 == pos {
                    assert(existing@[i as int] == pos as i32);
                    return true;
                }
                i += 1;
            }
            false
        },
    }
}

/// Position `pos` is clean against both lines a split's endpoints touch.
pub open spec fn both_clean(m: Map<(u8, i32), Vec<i32>>, l1: (u8, i32), l2: (u8, i32), pos: int, sep: int) -> bool {
    clean_in(entries(m, l1), pos, sep) && clean_in(entries(m, l2), pos, sep)
}

/// The `k`-th position tried at distance `d` when reusing an existing
/// junction: below then above the candidate on the first line, then below
/// then above on the second.
pub open spec fn reuse_try(m: Map<(u8, i32), Vec<i32>>, l1: (u8, i32), l2: (u8, i32), c: int, sep: int, lo: int, hi: int, d: int, k: int) -> bool {
    let p = if k % 2 == 0 { c - d } else { c + d };
    let es = if k < 2 { entries(m, l1) } else { entries(m, l2) };
    lo <= p <= hi && i32::MIN <= p <= i32::MAX && es.contains(p as i32) && both_clean(m, l1, l2, p, sep)
}

/// The position the `k`-th try at distance `d` names.
pub open spec fn try_pos(c: int, d: int, k: int) -> int {
    if k % 2 == 0 { c - d } else { c + d }
}

/// Position `p` in `[lo, hi]` is at least `sep` from every junction on
/// both lines.
pub open spec fn free_at(m: Map<(u8, i32), Vec<i32>>, l1: (u8, i32), l2: (u8, i32), sep: int, lo: int, hi: int, p: int) -> bool {
    lo <= p <= hi && clear_of(entries(m, l1), p, sep) && clear_of(entries(m, l2), p, sep)
}

/// `(d1, k1)` comes before `(d2, k2)`.
pub open spec fn try_before(d1: int, k1: int, d2: int, k2: int) -> bool {
    d1 < d2 || (d1 == d2 && k1 < k2)
}

/// What [`resolve_junction_position`] returns: the candidate when it is
/// clean against both lines (or when no separation is asked); else the
/// nearest existing junction within `[lo, hi]` on either line that is
/// itself clean against both (a true 4-way; at equal distance the first
/// line before the second, the lower before the higher); else the
/// nearest position in `[lo, hi]` at least the separation from every
/// junction on both lines (the lower one at equal distance); else none.
#[verifier::opaque]
pub open spec fn resolved(
    m: Map<(u8, i32), Vec<i32>>,
    l1: (u8, i32),
    l2: (u8, i32),
    c: int,
    sep: int,
    lo: int,
    hi: int,
    r: Option<i32>,
) -> bool {
    if sep <= 0 || both_clean(m, l1, l2, c, sep) {
        r == Some(c as i32)
    } else if exists|d: int, k: int| 0 <= d && 0 <= k < 4 && #[trigger] reuse_try(m, l1, l2, c, sep, lo, hi, d, k) {
        exists|d: int, k: int|
            0 <= d && 0 <= k < 4 && #[trigger] reuse_try(m, l1, l2, c, sep, lo, hi, d, k) && r == Some(try_pos(c, d, k) as i32) && forall|d2: int, k2: int|
                0 <= d2 && 0 <= k2 < 4 && try_before(d2, k2, d, k) ==> !#[trigger] reuse_try(m, l1, l2, c, sep, lo, hi, d2, k2)
    } else if exists|p: int| #[trigger] free_at(m, l1, l2, sep, lo, hi, p) {
        exists|d: int, k: int|
            0 <= d && 0 <= k < 2 && #[trigger] free_at(m, l1, l2, sep, lo, hi, try_pos(c, d, k)) && r == Some(try_pos(c, d, k) as i32) && forall|d2: int, k2: int|
                0 <= d2 && 0 <= k2 < 2 && try_before(d2, k2, d, k) ==> !#[trigger] free_at(m, l1, l2, sep, lo, hi, try_pos(c, d2, k2))
    } else {
        r is None
    }
}

fn reuse_check(m: &Registry, l1: (u8, i32), l2: (u8, i32), c: i32, sep: i32, lo: i32, hi: i32, d: i64, k: u8) -> (b: bool)
    requires
        0 <= d <= 0x1_0000_0000,
        k < 4,
    ensures
        b == reuse_try(m@, l1, l2, c as int, sep as int, lo as int, hi as int, d as int, k as int),
{
    let p = if k % 2 == 0 { c as i64 - d } else { c as i64 + d };
    let line = if k < 2 { l1 } else { l2 };
    if p < lo as i64 || p > hi as i64 {
        return false;
    }
    line_has(m, line, p) && clean_against_line(m, l1, p, sep) && clean_against_line(m, l2, p, sep)
}

fn free_check(m: &Registry, l1: (u8, i32), l2: (u8, i32), sep: i32, lo: i32, hi: i32, p: i64) -> (b: bool)
    requires
        -0x2_0000_0000 <= p <= 0x2_0000_0000,
    ensures
        b == free_at(m@, l1, l2, sep as int, lo as int, hi as int, p as int),
{
    lo as i64 <= p && p <= hi as i64 && clear_of_line(m, l1, p, sep) && clear_of_line(m, l2, p, sep)
}

/// Resolves `candidate` against both lines a new split's own endpoints
/// touch at once: the candidate itself if clean against both; else the
/// nearest existing junction in `[lo, hi]` that is itself clean against
/// both (a true 4-way); else the nearest position in `[lo, hi]` clear of
/// every junction on both lines by the separation; `None` when no clean
/// position exists anywhere in `[lo, hi]`, so the caller refuses the split
/// rather than create a known-defective junction.
fn resolve_junction_position(
    junctions: &Registry,
    split_axis: Axis,
    perp_from: i32,
    perp_to: i32,
    candidate: i32,
    min_separation: i32,
    lo: i32,
    hi: i32,
) -> (r: Option<i32>)
    ensures
        resolved(
            junctions@,
            line_key(split_axis, perp_from),
            line_key(split_axis, perp_to),
            candidate as int,
            min_separation as int,
            lo as int,
            hi as int,
            r,
        ),
{
    reveal(resolved);
    let ghost m = junctions@;
    let code: u8 = match split_axis {
        Axis::Vertical => 0,
        Axis::Horizontal => 1,
    };
    let l1 = (code, perp_from);
    let l2 = (code, perp_to);
    assert(l1 == line_key(split_axis, perp_from) && l2 == line_key(split_axis, perp_to));
    let ghost (c, sep, lo_i, hi_i) = (candidate as int, min_separation as int, lo as int, hi as int);
    if min_separation <= 0 {
        return Some(candidate);
    }
    if clean_against_line(junctions, l1, candidate as i64, min_separation)
        && clean_against_line(junctions, l2, candidate as i64, min_separation) {
        return Some(candidate);
    }
    let a = if candidate as i64 >= lo as i64 { candidate as i64 - lo as i64 } else { lo as i64 - candidate as i64 };
    let b = if hi as i64 >= candidate as i64 { hi as i64 - candidate as i64 } else { candidate as i64 - hi as i64 };
    let reach = if a >= b { a } else { b };
    let mut d: i64 = 0;
    while d <= reach
        invariant
            0 <= d <= reach + 1,
            reach <= 0x1_0000_0000,
            m == junctions@,
            c == candidate as int,
            sep == min_separation as int,
            lo_i == lo as int,
            hi_i == hi as int,
            sep > 0,
            !both_clean(m, l1, l2, c, sep),
            l1 == line_key(split_axis, perp_from),
            l2 == line_key(split_axis, perp_to),
            forall|d2: int, k2: int| 0 <= d2 < d && 0 <= k2 < 4 ==> !#[trigger] reuse_try(m, l1, l2, c, sep, lo_i, hi_i, d2, k2),
        decreases reach + 1 - d,
    {
        let mut k: u8 = 0;
        while k < 4
            invariant
                0 <= d <= reach,
                reach <= 0x1_0000_0000,
                k <= 4,
                m == junctions@,
                c == candidate as int,
                sep == min_separation as int,
                lo_i == lo as int,
                hi_i == hi as int,
                sep > 0,
                !both_clean(m, l1, l2, c, sep),
                l1 == line_key(split_axis, perp_from),
                l2 == line_key(split_axis, perp_to),
                forall|d2: int, k2: int| 0 <= d2 < d && 0 <= k2 < 4 ==> !#[trigger] reuse_try(m, l1, l2, c, sep, lo_i, hi_i, d2, k2),
                forall|k2: int| 0 <= k2 < k ==> !#[trigger] reuse_try(m, l1, l2, c, sep, lo_i, hi_i, d as int, k2),
            decreases 4 - k,
        {
            if reuse_check(junctions, l1, l2, candidate, min_separation, lo, hi, d, k) {
                let p = if k % 2 == 0 { candidate as i64 - d } else { candidate as i64 + d };
                proof {
                    assert(reuse_try(m, l1, l2, c, sep, lo_i, hi_i, d as int, k as int));
                    assert(p == try_pos(c, d as int, k as int));
                    assert forall|d2: int, k2: int|
                        0 <= d2 && 0 <= k2 < 4 && try_before(d2, k2, d as int, k as int) implies !#[trigger] reuse_try(m, l1, l2, c, sep, lo_i, hi_i, d2, k2) by {
                        if d2 == d {
                            assert(k2 < k);
                        }
                    }
                    reveal(resolved);
                    assert(resolved(m, l1, l2, c, sep, lo_i, hi_i, Some(p as i32)));
                }
                return Some(p as i32);
            }
            k += 1;
        }
        d += 1;
    }
    proof {
        assert forall|d2: int, k2: int| 0 <= d2 && 0 <= k2 < 4 implies !#[trigger] reuse_try(m, l1, l2, c, sep, lo_i, hi_i, d2, k2) by {
            if d2 > reach {
                let p = try_pos(c, d2, k2);
                assert(!(lo_i <= p <= hi_i));
            }
        }
    }
    let mut d: i64 = 0;
    while d <= reach
        invariant
            0 <= d <= reach + 1,
            reach <= 0x1_0000_0000,
            m == junctions@,
            c == candidate as int,
            sep == min_separation as int,
            lo_i == lo as int,
            hi_i == hi as int,
            sep > 0,
            !both_clean(m, l1, l2, c, sep),
            l1 == line_key(split_axis, perp_from),
            l2 == line_key(split_axis, perp_to),
            a == abs_int(c - lo_i),
            b == abs_int(hi_i - c),
            reach == (if a >= b { a } else { b }),
            forall|d2: int, k2: int| 0 <= d2 && 0 <= k2 < 4 ==> !#[trigger] reuse_try(m, l1, l2, c, sep, lo_i, hi_i, d2, k2),
            forall|d2: int, k2: int| 0 <= d2 < d && 0 <= k2 < 2 ==> !#[trigger] free_at(m, l1, l2, sep, lo_i, hi_i, try_pos(c, d2, k2)),
        decreases reach + 1 - d,
    {
        let mut k: u8 = 0;
        while k < 2
            invariant
                0 <= d <= reach,
                reach <= 0x1_0000_0000,
                k <= 2,
                m == junctions@,
                c == candidate as int,
                sep == min_separation as int,
                lo_i == lo as int,
                hi_i == hi as int,
                sep > 0,
                !both_clean(m, l1, l2, c, sep),
                l1 == line_key(split_axis, perp_from),
                l2 == line_key(split_axis, perp_to),
                forall|d2: int, k2: int| 0 <= d2 && 0 <= k2 < 4 ==> !#[trigger] reuse_try(m, l1, l2, c, sep, lo_i, hi_i, d2, k2),
                forall|d2: int, k2: int| 0 <= d2 < d && 0 <= k2 < 2 ==> !#[trigger] free_at(m, l1, l2, sep, lo_i, hi_i, try_pos(c, d2, k2)),
                forall|k2: int| 0 <= k2 < k ==> !#[trigger] free_at(m, l1, l2, sep, lo_i, hi_i, try_pos(c, d as int, k2)),
            decreases 2 - k,
        {
            let p = if k == 0 { candidate as i64 - d } else { candidate as i64 + d };
            assert(p == try_pos(c, d as int, k as int));
            if free_check(junctions, l1, l2, min_separation, lo, hi, p) {
                proof {
                    assert forall|d2: int, k2: int|
                        0 <= d2 && 0 <= k2 < 2 && try_before(d2, k2, d as int, k as int) implies !#[trigger] free_at(m, l1, l2, sep, lo_i, hi_i, try_pos(c, d2, k2)) by {
                        if d2 == d {
                            assert(k2 < k);
                        }
                    }
                    assert(free_at(m, l1, l2, sep, lo_i, hi_i, try_pos(c, d as int, k as int)));
                    reveal(resolved);
                    assert(resolved(m, l1, l2, c, sep, lo_i, hi_i, Some(p as i32)));
                }
                return Some(p as i32);
            }
            k += 1;
        }
        d += 1;
    }
    proof {
        assert forall|p: int| !#[trigger] free_at(m, l1, l2, sep, lo_i, hi_i, p) by {
            if free_at(m, l1, l2, sep, lo_i, hi_i, p) {
                let dd = abs_int(p - c);
                assert(dd <= reach);
                if p <= c {
                    assert(try_pos(c, dd, 0) == p);
                } else {
                    assert(try_pos(c, dd, 1) == p);
                }
            }
        }
    }
    None
}

/// `line`'s positions with `pos` added, strictly increasing; every other
/// line untouched.
pub open spec fn registered(m0: Map<(u8, i32), Vec<i32>>, m1: Map<(u8, i32), Vec<i32>>, line: (u8, i32), pos: i32) -> bool {
    &&& m1.contains_key(line)
    &&& forall|i: int, j: int| 0 <= i < j < m1[line]@.len() ==> m1[line]@[i] < m1[line]@[j]
    &&& forall|q: i32| #[trigger] m1[line]@.contains(q) <==> (entries(m0, line).contains(q) || q == pos)
    &&& forall|k: (u8, i32)| k != line ==> (m1.contains_key(k) <==> m0.contains_key(k)) && (#[trigger] m1.contains_key(k) ==> m1[k] == m0[k])
}

fn register_junction(registry: &mut Registry, line: (u8, i32), pos: i32)
    requires
        registry_ok(old(registry)@),
    ensures
        registry_ok(final(registry)@),
        registered(old(registry)@, final(registry)@, line, pos),
{
    let ghost m0 = registry@;
    let mut v = match registry.remove(&line) {
        Some(v) => v,
        None => Vec::new(),
    };
    assert(v@ == entries(m0, line));
    proof {
        if m0.contains_key(line) {
            assert forall|i: int, j: int| 0 <= i < j < v.len() implies v@[i] < v@[j] by {
                assert(m0[line]@[i] < m0[line]@[j]);
            }
        }
    }
    insert_unique_i32(&mut v, pos);
    registry.insert(line, v);
    proof {
        assert(registry@ == m0.remove(line).insert(line, v));
        assert forall|k: (u8, i32), i: int, j: int|
            #![trigger registry@[k]@[i], registry@[k]@[j]]
            registry@.contains_key(k) && 0 <= i < j < registry@[k]@.len() implies registry@[k]@[i] < registry@[k]@[j] by {
            if k != line {
                assert(registry@[k] == m0[k]);
            }
        }
    }
}

/// The candidate cut of `[from, to)`: the midpoint (rounded toward
/// zero) moved by the jitter drawn from `r` (none when `span` is not
/// positive), clamped to `[from + margin, to - margin]`.
pub open spec fn candidate_pos(from: int, to: int, margin: int, span: i32, r: u64) -> int {
    let mid = from + trunc_div(to - from, 2);
    let jitter: int = if span > 0 {
        ((r % ((2 * span + 1) as u64)) as i32) - span
    } else {
        0
    };
    let p = mid + jitter;
    if p < from + margin {
        from + margin
    } else if p > to - margin {
        to - margin
    } else {
        p
    }
}

/// A resolved position lies in `[lo, hi]` whenever the candidate does.
pub proof fn lemma_resolved_in_range(
    m: Map<(u8, i32), Vec<i32>>,
    l1: (u8, i32),
    l2: (u8, i32),
    c: int,
    sep: int,
    lo: int,
    hi: int,
    p: i32,
)
    requires
        resolved(m, l1, l2, c, sep, lo, hi, Some(p)),
        lo <= c <= hi,
        i32::MIN <= lo,
        hi <= i32::MAX,
    ensures
        lo <= p <= hi,
{
    reveal(resolved);
    if !(sep <= 0 || both_clean(m, l1, l2, c, sep)) {
        if exists|d: int, k: int| 0 <= d && 0 <= k < 4 && #[trigger] reuse_try(m, l1, l2, c, sep, lo, hi, d, k) {
            let (d, k) = choose|d: int, k: int|
                0 <= d && 0 <= k < 4 && #[trigger] reuse_try(m, l1, l2, c, sep, lo, hi, d, k) && Some(p) == Some(try_pos(c, d, k) as i32) && forall|d2: int, k2: int|
                    0 <= d2 && 0 <= k2 < 4 && try_before(d2, k2, d, k) ==> !#[trigger] reuse_try(m, l1, l2, c, sep, lo, hi, d2, k2);
        } else {
            let (d, k) = choose|d: int, k: int|
                0 <= d && 0 <= k < 2 && #[trigger] free_at(m, l1, l2, sep, lo, hi, try_pos(c, d, k)) && Some(p) == Some(try_pos(c, d, k) as i32) && forall|d2: int, k2: int|
                    0 <= d2 && 0 <= k2 < 2 && try_before(d2, k2, d, k) ==> !#[trigger] free_at(m, l1, l2, sep, lo, hi, try_pos(c, d2, k2));
        }
    }
}

/// The geometry a split of `phys` along `axis` at tier `class` works
/// with: the street's width and half-width, the margin each side needs,
/// the split axis's range in `phys` and the perpendicular range in `topo`.
pub open spec fn split_frame(phys: Rect, topo: Rect, axis: Axis, class: StreetClass, cfg: GenerationConfig) -> (int, int, int, int, int, i32, i32) {
    let width = spec_class_width(class, cfg) as int;
    let half = trunc_div(width, 2);
    let margin = cfg.min_block_depth_cells + half;
    let (from, to) = if axis == Axis::Vertical { (phys.x0 as int, phys.x1 as int) } else { (phys.y0 as int, phys.y1 as int) };
    let (pf, pt) = if axis == Axis::Vertical { (topo.y0, topo.y1) } else { (topo.x0, topo.x1) };
    (width, half, margin, from, to, pf, pt)
}

/// The four child rects of a split at `pos`: the two physical halves
/// (inset by `half` either side of the new street) and the two
/// topological halves (cut exactly at `pos`).
pub open spec fn split_children(phys: Rect, topo: Rect, axis: Axis, pos: int, half: int) -> (Rect, Rect, Rect, Rect) {
    if axis == Axis::Vertical {
        (
            Rect { x1: (pos - half) as i32, ..phys },
            Rect { x0: (pos + half) as i32, ..phys },
            Rect { x1: pos as i32, ..topo },
            Rect { x0: pos as i32, ..topo },
        )
    } else {
        (
            Rect { y1: (pos - half) as i32, ..phys },
            Rect { y0: (pos + half) as i32, ..phys },
            Rect { y1: pos as i32, ..topo },
            Rect { y0: pos as i32, ..topo },
        )
    }
}

/// The arithmetic of a split stays within `i32`.
pub open spec fn split_fits(phys: Rect, topo: Rect, axis: Axis, class: StreetClass, cfg: GenerationConfig) -> bool {
    let (width, half, margin, from, to, pf, pt) = split_frame(phys, topo, axis, class, cfg);
    &&& fits_i32(margin)
    &&& fits_i32(from + margin)
    &&& fits_i32(to - margin)
    &&& fits_i32(from + margin - half)
    &&& fits_i32(from + margin + half)
    &&& fits_i32(to - margin - half)
    &&& fits_i32(to - margin + half)
}

/// What [`try_split`] does, given the generator's state words `w` before
/// and after and the registry before and after: no split (and no draw)
/// when the axis is shorter than twice the margin; otherwise it draws the
/// jitter, and refuses when the margins cross, when no clean junction
/// position exists, or when a half would be empty -- leaving the registry
/// alone; else it cuts at the resolved position, registers it on both
/// lines the new street touches, and returns the four halves and the new
/// street spanning the topological rect.
pub open spec fn try_split_outcome(
    phys: Rect,
    topo: Rect,
    axis: Axis,
    class: StreetClass,
    cfg: GenerationConfig,
    w0: Seq<u64>,
    m0: Map<(u8, i32), Vec<i32>>,
    r: Option<(Rect, Rect, Rect, Rect, StreetEdge)>,
    w1: Seq<u64>,
    m1: Map<(u8, i32), Vec<i32>>,
) -> bool {
    let (width, half, margin, from, to, pf, pt) = split_frame(phys, topo, axis, class, cfg);
    let len = to - from;
    if len < 2 * margin {
        r is None && w1 == w0 && m1 == m0
    } else {
        let span = jitter_span(len, cfg.split_jitter_pct as int);
        let lo = from + margin;
        let hi = to - margin;
        &&& w1 == (if span > 0 { xoshiro_advance(w0) } else { w0 })
        &&& if lo > hi {
            r is None && m1 == m0
        } else {
            let cand = candidate_pos(from, to, margin, span, xoshiro_output(w0));
            let l1 = line_key(axis, pf);
            let l2 = line_key(axis, pt);
            match r {
                Some((p1, p2, t1, t2, edge)) => {
                    &&& resolved(m0, l1, l2, cand, cfg.junction_min_separation_cells as int, lo, hi, Some(edge.coord))
                    &&& (p1, p2, t1, t2) == split_children(phys, topo, axis, edge.coord as int, half)
                    &&& p1.spec_is_valid() && p2.spec_is_valid()
                    &&& edge == (StreetEdge { axis, coord: edge.coord, from: pf, to: pt, class, width_cells: width as i32 })
                    &&& exists|mid: Map<(u8, i32), Vec<i32>>| registered(m0, mid, l1, edge.coord) && #[trigger] registered(mid, m1, l2, edge.coord)
                },
                None => {
                    &&& m1 == m0
                    &&& (resolved(m0, l1, l2, cand, cfg.junction_min_separation_cells as int, lo, hi, None) || exists|p: i32|
                        #[trigger] resolved(m0, l1, l2, cand, cfg.junction_min_separation_cells as int, lo, hi, Some(p)) && {
                            let (p1, p2, t1, t2) = split_children(phys, topo, axis, p as int, half);
                            !p1.spec_is_valid() || !p2.spec_is_valid()
                        })
                },
            }
        }
    }
}

/// Attempts to split `phys` (the real, buildable rect, already inset from
/// every ancestor street) along `axis` with a `class`-tier street; `topo`
/// is its uninset counterpart, so the new street always spans the true
/// enclosing centrelines. See [`try_split_outcome`].
#[verifier::rlimit(40)]
fn try_split(
    phys: Rect,
    topo: Rect,
    axis: Axis,
    class: StreetClass,
    cfg: &GenerationConfig,
    rng: &mut Rng,
    junctions: &mut Registry,
) -> (r: Option<(Rect, Rect, Rect, Rect, StreetEdge)>)
    requires
        split_fits(phys, topo, axis, class, *cfg),
        registry_ok(old(junctions)@),
        old(rng).words().len() == 4,
    ensures
        registry_ok(final(junctions)@),
        final(rng).words().len() == 4,
        try_split_outcome(phys, topo, axis, class, *cfg, old(rng).words(), old(junctions)@, r, final(rng).words(), final(junctions)@),
{
    let ghost w0 = rng.words();
    let ghost m0 = junctions@;
    let width = class_width(class, cfg);
    let half = width / 2;
    let margin = cfg.min_block_depth_cells + half;
    let (from, to) = match axis {
        Axis::Vertical => (phys.x0, phys.x1),
        Axis::Horizontal => (phys.y0, phys.y1),
    };
    let (perp_from, perp_to) = match axis {
        Axis::Vertical => (topo.y0, topo.y1),
        Axis::Horizontal => (topo.x0, topo.x1),
    };
    let len = to as i64 - from as i64;
    if len < 2 * margin as i64 {
        return None;
    }
    let mid = from as i64 + len / 2;
    let pct = cfg.split_jitter_pct as i64;
    assert(-0xFFFF_FFFF * 0x8000_0000 <= len * pct <= 0xFFFF_FFFF * 0x8000_0000) by (nonlinear_arith)
        requires
            -0xFFFF_FFFF <= len <= 0xFFFF_FFFF,
            i32::MIN <= pct <= i32::MAX,
    ;
    let span = (len * pct / 100) as i32;
    let ghost r0 = xoshiro_output(w0);
    let jitter: i64 = if span > 0 {
        let r = rng.next_u64();
        ((r % (2 * span as u64 + 1)) as i32) as i64 - span as i64
    } else {
        0
    };
    let lo = from + margin;
    let hi = to - margin;
    if lo > hi {
        return None;
    }
    let p0 = mid + jitter;
    let candidate = if p0 < lo as i64 { lo } else if p0 > hi as i64 { hi } else { p0 as i32 };
    assert(candidate == candidate_pos(from as int, to as int, margin as int, span, r0));
    let pos = match resolve_junction_position(
        junctions,
        axis,
        perp_from,
        perp_to,
        candidate,
        cfg.junction_min_separation_cells,
        lo,
        hi,
    ) {
        Some(p) => p,
        None => return None,
    };
    proof {
        lemma_resolved_in_range(m0, line_key(axis, perp_from), line_key(axis, perp_to), candidate as int, cfg.junction_min_separation_cells as int, lo as int, hi as int, pos);
    }
    let (phys1, phys2) = match axis {
        Axis::Vertical => (Rect { x1: pos - half, ..phys }, Rect { x0: pos + half, ..phys }),
        Axis::Horizontal => (Rect { y1: pos - half, ..phys }, Rect { y0: pos + half, ..phys }),
    };
    let (topo1, topo2) = match axis {
        Axis::Vertical => (Rect { x1: pos, ..topo }, Rect { x0: pos, ..topo }),
        Axis::Horizontal => (Rect { y1: pos, ..topo }, Rect { y0: pos, ..topo }),
    };
    assert((phys1, phys2, topo1, topo2) == split_children(phys, topo, axis, pos as int, half as int));
    if !phys1.is_valid() || !phys2.is_valid() {
        return None;
    }
    let code: u8 = match axis {
        Axis::Vertical => 0,
        Axis::Horizontal => 1,
    };
    register_junction(junctions, (code, perp_from), pos);
    let ghost mid_map = junctions@;
    register_junction(junctions, (code, perp_to), pos);
    let edge = StreetEdge { axis, coord: pos, from: perp_from, to: perp_to, class, width_cells: width };
    proof {
        assert(registered(mid_map, junctions@, line_key(axis, perp_to), pos));
    }
    Some((phys1, phys2, topo1, topo2, edge))
}


/// The land-use cell a rect is sampled at: the one under its centre,
/// clamped into the site.
pub open spec fn centre_sample(lu: LandUseMap, phys: Rect) -> Option<LandUseCell> {
    let s = lu.spec_site();
    lu.spec_at_world(
        clamp_int(trunc_div(phys.x0 + phys.x1, 2), s.x0 as int, s.x1 - 1),
        clamp_int(trunc_div(phys.y0 + phys.y1, 2), s.y0 as int, s.y1 - 1),
    )
}

/// The tier `phys` is split at by [`subdivide`], `None` when it stays one
/// block: the recursion depth is spent, no tier is needed for its size,
/// depth and regions ([`spec_split_tier`], with the target size and depth
/// of the density sampled at its centre), or only a lane is and the lane
/// budget is spent while it lies within one region.
pub open spec fn subdivide_class(
    phys: Rect,
    lu: LandUseMap,
    labels: Seq<i32>,
    cfg: GenerationConfig,
    depth: u32,
    lane_depth: u32,
    street_depth: u32,
) -> Option<StreetClass> {
    let sample = centre_sample(lu, phys).unwrap();
    let multi = spec_spans_multiple_regions(lu, labels, phys);
    let target = interpolate(sample.density as int, cfg.block_size_max_cells as int, cfg.block_size_min_cells as int, cfg);
    let max_depth = interpolate(
        sample.density as int,
        cfg.max_block_depth_max_cells as int,
        cfg.max_block_depth_min_cells as int,
        cfg,
    );
    if depth >= cfg.max_recursion_depth {
        None
    } else {
        match spec_split_tier(phys, target, max_depth, street_depth, sample.use_ == LandUse::Commercial, multi, cfg) {
            None => None,
            Some(class) => if class == StreetClass::Lane && lane_depth >= cfg.max_lane_splits && !multi {
                None
            } else {
                Some(class)
            },
        }
    }
}

/// The axis `phys` is first tried along: across its longer side.
pub open spec fn preferred_axis(phys: Rect) -> Axis {
    if phys.spec_width() >= phys.spec_height() {
        Axis::Vertical
    } else {
        Axis::Horizontal
    }
}

pub open spec fn other_axis(axis: Axis) -> Axis {
    match axis {
        Axis::Vertical => Axis::Horizontal,
        Axis::Horizontal => Axis::Vertical,
    }
}

/// What [`subdivide`] does to the generator state, the junction registry,
/// the street segments and the blocks, from `(w0, m0, s0, b0)` to
/// `(w1, m1, s1, b1)`: a rect that is not split ([`subdivide_class`]) is
/// appended as one block; otherwise it tries a split ([`try_split`]) along
/// its preferred axis, then the other; a split appends the new street and
/// recurses into the first half, then the second, one level deeper (a lane
/// or street split counting against its own budget); when both axes
/// refuse, the rect is one block.
/// Names the state between a split's two halves (a quantifier trigger).
pub open spec fn after_first_half(w: Seq<u64>, m: Map<(u8, i32), Vec<i32>>, s: Seq<StreetEdge>, b: Seq<Block>) -> bool {
    true
}

pub open spec fn subdivide_outcome(
    phys: Rect,
    topo: Rect,
    lu: LandUseMap,
    labels: Seq<i32>,
    cfg: GenerationConfig,
    depth: u32,
    lane_depth: u32,
    street_depth: u32,
    w0: Seq<u64>,
    m0: Map<(u8, i32), Vec<i32>>,
    s0: Seq<StreetEdge>,
    b0: Seq<Block>,
    w1: Seq<u64>,
    m1: Map<(u8, i32), Vec<i32>>,
    s1: Seq<StreetEdge>,
    b1: Seq<Block>,
) -> bool
    decreases cfg.max_recursion_depth - depth,
{
    match subdivide_class(phys, lu, labels, cfg, depth, lane_depth, street_depth) {
        None => w1 == w0 && m1 == m0 && s1 == s0 && b1 == b0.push(Block { bounds: phys }),
        Some(class) => {
            let nl = if class == StreetClass::Lane { (lane_depth + 1) as u32 } else { lane_depth };
            let ns = if class == StreetClass::Street { (street_depth + 1) as u32 } else { street_depth };
            let d = (depth + 1) as u32;
            let axis = preferred_axis(phys);
            exists|wa: Seq<u64>, ma: Map<(u8, i32), Vec<i32>>, ra: Option<(Rect, Rect, Rect, Rect, StreetEdge)>|
                #[trigger] try_split_outcome(phys, topo, axis, class, cfg, w0, m0, ra, wa, ma) && (match ra {
                    Some(x) => exists|w2: Seq<u64>, m2: Map<(u8, i32), Vec<i32>>, s2: Seq<StreetEdge>, b2: Seq<Block>|
                        #[trigger] after_first_half(w2, m2, s2, b2) && subdivide_outcome(x.0, x.2, lu, labels, cfg, d, nl, ns, wa, ma, s0.push(x.4), b0, w2, m2, s2, b2)
                            && subdivide_outcome(x.1, x.3, lu, labels, cfg, d, nl, ns, w2, m2, s2, b2, w1, m1, s1, b1),
                    None => exists|wb: Seq<u64>, mb: Map<(u8, i32), Vec<i32>>, rb: Option<(Rect, Rect, Rect, Rect, StreetEdge)>|
                        #[trigger] try_split_outcome(phys, topo, other_axis(axis), class, cfg, wa, ma, rb, wb, mb) && (match rb {
                            Some(x) => exists|w2: Seq<u64>, m2: Map<(u8, i32), Vec<i32>>, s2: Seq<StreetEdge>, b2: Seq<Block>|
                                #[trigger] after_first_half(w2, m2, s2, b2) && subdivide_outcome(x.0, x.2, lu, labels, cfg, d, nl, ns, wb, mb, s0.push(x.4), b0, w2, m2, s2, b2)
                                    && subdivide_outcome(x.1, x.3, lu, labels, cfg, d, nl, ns, w2, m2, s2, b2, w1, m1, s1, b1),
                            None => w1 == wb && m1 == mb && s1 == s0 && b1 == b0.push(Block { bounds: phys }),
                        }),
                })
        },
    }
}


/// The coordinates [`subdivide`] works with stay well inside `i32`.
pub open spec fn within_bound(v: int) -> bool {
    -0x1000_0000 <= v <= 0x1000_0000
}

pub open spec fn rect_within_bound(r: Rect) -> bool {
    within_bound(r.x0 as int) && within_bound(r.y0 as int) && within_bound(r.x1 as int) && within_bound(r.y1 as int)
}

/// [`subdivide`] can run on `phys` and `topo`: their coordinates, the
/// street widths and the minimum block depth are bounded, so every split's
/// arithmetic fits; the density interpolations fit; the land use covers
/// its whole site, so every sample finds a cell; and there is a region
/// label for every coarse cell.
pub open spec fn subdivide_fits(phys: Rect, topo: Rect, lu: LandUseMap, labels: Seq<i32>, cfg: GenerationConfig) -> bool {
    &&& rect_within_bound(phys)
    &&& rect_within_bound(topo)
    &&& 0 <= cfg.min_block_depth_cells <= 0x1000_0000
    &&& 0 <= cfg.street_width_cells <= 0x1000_0000
    &&& 0 <= cfg.lane_width_cells <= 0x1000_0000
    &&& interpolation_fits(cfg.block_size_max_cells as int, cfg.block_size_min_cells as int, cfg)
    &&& interpolation_fits(cfg.max_block_depth_max_cells as int, cfg.max_block_depth_min_cells as int, cfg)
    &&& covers_site(lu)
    &&& labels.len() >= lu.spec_cols() * lu.spec_rows()
}

/// A split's street lies between the two margins of the axis it cuts.
proof fn lemma_split_in_range(
    phys: Rect,
    topo: Rect,
    axis: Axis,
    class: StreetClass,
    cfg: GenerationConfig,
    w0: Seq<u64>,
    m0: Map<(u8, i32), Vec<i32>>,
    r: Option<(Rect, Rect, Rect, Rect, StreetEdge)>,
    w1: Seq<u64>,
    m1: Map<(u8, i32), Vec<i32>>,
)
    requires
        split_fits(phys, topo, axis, class, cfg),
        try_split_outcome(phys, topo, axis, class, cfg, w0, m0, r, w1, m1),
        r is Some,
    ensures
        ({
            let (width, half, margin, from, to, pf, pt) = split_frame(phys, topo, axis, class, cfg);
            from + margin <= r.unwrap().4.coord <= to - margin
        }),
{
    let (width, half, margin, from, to, pf, pt) = split_frame(phys, topo, axis, class, cfg);
    let span = jitter_span(to - from, cfg.split_jitter_pct as int);
    let cand = candidate_pos(from, to, margin, span, xoshiro_output(w0));
    lemma_resolved_in_range(
        m0,
        line_key(axis, pf),
        line_key(axis, pt),
        cand,
        cfg.junction_min_separation_cells as int,
        from + margin,
        to - margin,
        r.unwrap().4.coord,
    );
}


/// A bounded rect split at a street or lane tier has its arithmetic fit.
proof fn lemma_split_fits(phys: Rect, topo: Rect, axis: Axis, class: StreetClass, cfg: GenerationConfig)
    requires
        rect_within_bound(phys),
        0 <= cfg.min_block_depth_cells <= 0x1000_0000,
        0 <= spec_class_width(class, cfg) <= 0x1000_0000,
    ensures
        split_fits(phys, topo, axis, class, cfg),
{
}

/// A split of bounded rects leaves bounded halves.
proof fn lemma_split_children_bounded(
    phys: Rect,
    topo: Rect,
    axis: Axis,
    class: StreetClass,
    cfg: GenerationConfig,
    w0: Seq<u64>,
    m0: Map<(u8, i32), Vec<i32>>,
    r: Option<(Rect, Rect, Rect, Rect, StreetEdge)>,
    w1: Seq<u64>,
    m1: Map<(u8, i32), Vec<i32>>,
)
    requires
        rect_within_bound(phys),
        rect_within_bound(topo),
        0 <= cfg.min_block_depth_cells <= 0x1000_0000,
        0 <= spec_class_width(class, cfg) <= 0x1000_0000,
        try_split_outcome(phys, topo, axis, class, cfg, w0, m0, r, w1, m1),
        r is Some,
    ensures
        rect_within_bound(r.unwrap().0),
        rect_within_bound(r.unwrap().1),
        rect_within_bound(r.unwrap().2),
        rect_within_bound(r.unwrap().3),
{
    lemma_split_fits(phys, topo, axis, class, cfg);
    lemma_split_in_range(phys, topo, axis, class, cfg, w0, m0, r, w1, m1);
}

/// Recursively subdivides `phys` (a buildable rect, already inset from
/// every street around it; `topo` is its uninset counterpart) into blocks,
/// per [`subdivide_outcome`]: it stays one block when the recursion depth
/// is spent or it needs no further split for the density sampled at its
/// centre (a lane split also stopping once the lane budget is spent,
/// unless the rect spans several land-use regions); otherwise it is split
/// across its longer side, or failing that its shorter one, the new street
/// appended to `segments`, and both halves subdivided in turn; a rect no
/// split fits stays one block. `region_labels` holds the land use's region
/// label for each coarse cell.
#[verifier::rlimit(60)]
#[verifier::spinoff_prover]
pub fn subdivide(
    phys: Rect,
    topo: Rect,
    land_use: &LandUseMap,
    region_labels: &[i32],
    cfg: &GenerationConfig,
    rng: &mut Rng,
    depth: u32,
    lane_depth: u32,
    street_depth: u32,
    junctions: &mut Registry,
    segments: &mut Vec<StreetEdge>,
    blocks: &mut Vec<Block>,
)
    requires
        subdivide_fits(phys, topo, *land_use, region_labels@, *cfg),
        lane_depth <= depth,
        street_depth <= depth,
        registry_ok(old(junctions)@),
        old(rng).words().len() == 4,
    ensures
        registry_ok(final(junctions)@),
        final(rng).words().len() == 4,
        subdivide_outcome(
            phys,
            topo,
            *land_use,
            region_labels@,
            *cfg,
            depth,
            lane_depth,
            street_depth,
            old(rng).words(),
            old(junctions)@,
            old(segments)@,
            old(blocks)@,
            final(rng).words(),
            final(junctions)@,
            final(segments)@,
            final(blocks)@,
        ),
    decreases cfg.max_recursion_depth - depth,
{
    let ghost w0 = rng.words();
    let ghost m0 = junctions@;
    let ghost s0 = segments@;
    let ghost b0 = blocks@;
    let ghost lu = *land_use;
    let site = land_use.site();
    let cx = (phys.x0 + phys.x1) / 2;
    let cy = (phys.y0 + phys.y1) / 2;
    let sample_x = if cx < site.x0 {
        site.x0
    } else if cx > site.x1 - 1 {
        site.x1 - 1
    } else {
        cx
    };
    let sample_y = if cy < site.y0 {
        site.y0
    } else if cy > site.y1 - 1 {
        site.y1 - 1
    } else {
        cy
    };
    proof {
        assert(lu.spec_site().spec_contains(sample_x as int, sample_y as int));
        assert(lu.spec_at_world(sample_x as int, sample_y as int) is Some);
    }
    let sample = land_use.at_world(sample_x, sample_y).unwrap();
    assert(centre_sample(lu, phys) == Some(sample));
    let target = target_block_size(sample.density, cfg) as i64;
    let max_depth = target_block_depth(sample.density, cfg) as i64;
    let is_commercial = sample.use_ == LandUse::Commercial;
    let multi_region = spans_multiple_regions(land_use, region_labels, phys);
    if depth >= cfg.max_recursion_depth {
        blocks.push(Block { bounds: phys });
        return;
    }
    let class = match split_tier_needed(phys, target, max_depth, street_depth, is_commercial, multi_region, cfg) {
        Some(c) => c,
        None => {
            blocks.push(Block { bounds: phys });
            return;
        },
    };
    // A region-spanning rect keeps splitting past the lane budget: no
    // region may be left without a street.
    if class == StreetClass::Lane && lane_depth >= cfg.max_lane_splits && !multi_region {
        blocks.push(Block { bounds: phys });
        return;
    }
    assert(subdivide_class(phys, lu, region_labels@, *cfg, depth, lane_depth, street_depth) == Some(class));
    let preferred = if phys.width() >= phys.height() {
        Axis::Vertical
    } else {
        Axis::Horizontal
    };
    let other = match preferred {
        Axis::Vertical => Axis::Horizontal,
        Axis::Horizontal => Axis::Vertical,
    };
    let next_lane_depth = if class == StreetClass::Lane {
        lane_depth + 1
    } else {
        lane_depth
    };
    let next_street_depth = if class == StreetClass::Street {
        street_depth + 1
    } else {
        street_depth
    };
    proof {
        lemma_split_fits(phys, topo, preferred, class, *cfg);
        lemma_split_fits(phys, topo, other, class, *cfg);
    }
    let first = try_split(phys, topo, preferred, class, cfg, rng, junctions);
    let ghost wa = rng.words();
    let ghost ma = junctions@;
    let split = match first {
        Some(r) => Some(r),
        None => try_split(phys, topo, other, class, cfg, rng, junctions),
    };
    let ghost wb = rng.words();
    let ghost mb = junctions@;
    match split {
        Some((p1, p2, t1, t2, edge)) => {
            proof {
                if first is Some {
                    lemma_split_children_bounded(phys, topo, preferred, class, *cfg, w0, m0, first, wa, ma);
                } else {
                    lemma_split_children_bounded(phys, topo, other, class, *cfg, wa, ma, split, wb, mb);
                }
            }
            segments.push(edge);
            subdivide(
                p1,
                t1,
                land_use,
                region_labels,
                cfg,
                rng,
                depth + 1,
                next_lane_depth,
                next_street_depth,
                junctions,
                segments,
                blocks,
            );
            let ghost w2 = rng.words();
            let ghost m2 = junctions@;
            let ghost s2 = segments@;
            let ghost b2 = blocks@;
            subdivide(
                p2,
                t2,
                land_use,
                region_labels,
                cfg,
                rng,
                depth + 1,
                next_lane_depth,
                next_street_depth,
                junctions,
                segments,
                blocks,
            );
            proof {
                let x = (p1, p2, t1, t2, edge);
                let d = (depth + 1) as u32;
                let (w1, m1, s1, b1) = (rng.words(), junctions@, segments@, blocks@);
                let nl = if class == StreetClass::Lane { (lane_depth + 1) as u32 } else { lane_depth };
                let ns = if class == StreetClass::Street { (street_depth + 1) as u32 } else { street_depth };
                assert(nl == next_lane_depth && ns == next_street_depth);
                assert(split == Some(x));
                assert(preferred == preferred_axis(phys));
                assert(other == other_axis(preferred_axis(phys)));
                assert(subdivide_outcome(x.0, x.2, lu, region_labels@, *cfg, d, nl, ns, wb, mb, s0.push(x.4), b0, w2, m2, s2, b2));
                assert(subdivide_outcome(x.1, x.3, lu, region_labels@, *cfg, d, nl, ns, w2, m2, s2, b2, w1, m1, s1, b1));
                assert(after_first_half(w2, m2, s2, b2));
                if first is Some {
                    assert(first == Some(x));
                    assert(wb == wa && mb == ma);
                    assert(try_split_outcome(phys, topo, preferred, class, *cfg, w0, m0, first, wa, ma));
                } else {
                    assert(try_split_outcome(phys, topo, preferred, class, *cfg, w0, m0, first, wa, ma));
                    assert(try_split_outcome(phys, topo, other, class, *cfg, wa, ma, split, wb, mb));
                }
                assert(subdivide_outcome(phys, topo, lu, region_labels@, *cfg, depth, lane_depth, street_depth, w0, m0, s0, b0, w1, m1, s1, b1));
            }
        },
        None => {
            blocks.push(Block { bounds: phys });
            proof {
                assert(try_split_outcome(phys, topo, preferred, class, *cfg, w0, m0, first, wa, ma));
                assert(try_split_outcome(phys, topo, other, class, *cfg, wa, ma, split, wb, mb));
            }
        },
    }
}


/// `a` lies inside `b`.
pub open spec fn rect_inside(a: Rect, b: Rect) -> bool {
    b.x0 <= a.x0 && a.x1 <= b.x1 && b.y0 <= a.y0 && a.y1 <= b.y1
}

/// `a` and `b` share no cell.
pub open spec fn rects_apart(a: Rect, b: Rect) -> bool {
    a.x1 <= b.x0 || b.x1 <= a.x0 || a.y1 <= b.y0 || b.y1 <= a.y0
}

/// What a call of [`subdivide`] adds to the blocks: it keeps the blocks
/// it was handed, and every block it appends lies inside `phys`, no two
/// of them overlapping.
pub open spec fn appended_blocks_ok(b0: Seq<Block>, b1: Seq<Block>, phys: Rect) -> bool {
    &&& b0.len() <= b1.len()
    &&& b1.subrange(0, b0.len() as int) == b0
    &&& forall|k: int| b0.len() <= k < b1.len() ==> rect_inside(#[trigger] b1[k].bounds, phys)
    &&& forall|i: int, j: int| b0.len() <= i < j < b1.len() ==> rects_apart(#[trigger] b1[i].bounds, #[trigger] b1[j].bounds)
}

/// A split's two physical halves lie inside the rect and apart.
proof fn lemma_split_halves(
    phys: Rect,
    topo: Rect,
    axis: Axis,
    class: StreetClass,
    cfg: GenerationConfig,
    w0: Seq<u64>,
    m0: Map<(u8, i32), Vec<i32>>,
    r: Option<(Rect, Rect, Rect, Rect, StreetEdge)>,
    w1: Seq<u64>,
    m1: Map<(u8, i32), Vec<i32>>,
)
    requires
        rect_within_bound(phys),
        rect_within_bound(topo),
        0 <= cfg.min_block_depth_cells <= 0x1000_0000,
        0 <= spec_class_width(class, cfg) <= 0x1000_0000,
        try_split_outcome(phys, topo, axis, class, cfg, w0, m0, r, w1, m1),
        r is Some,
    ensures
        rect_inside(r.unwrap().0, phys),
        rect_inside(r.unwrap().1, phys),
        rects_apart(r.unwrap().0, r.unwrap().1),
{
    lemma_split_fits(phys, topo, axis, class, cfg);
    lemma_split_in_range(phys, topo, axis, class, cfg, w0, m0, r, w1, m1);
}

/// Joins what the two halves of a split appended.
proof fn lemma_join_halves(b0: Seq<Block>, b2: Seq<Block>, b1: Seq<Block>, p1: Rect, p2: Rect, phys: Rect)
    requires
        appended_blocks_ok(b0, b2, p1),
        appended_blocks_ok(b2, b1, p2),
        rect_inside(p1, phys),
        rect_inside(p2, phys),
        rects_apart(p1, p2),
    ensures
        appended_blocks_ok(b0, b1, phys),
{
    assert forall|k: int| 0 <= k < b2.len() implies b1[k] == b2[k] by {
        assert(b1.subrange(0, b2.len() as int)[k] == b2[k]);
    }
    assert(b1.subrange(0, b0.len() as int) =~= b0) by {
        assert forall|k: int| 0 <= k < b0.len() implies b1.subrange(0, b0.len() as int)[k] == b0[k] by {
            assert(b2.subrange(0, b0.len() as int)[k] == b0[k]);
        }
    }
    assert forall|k: int| b0.len() <= k < b1.len() implies rect_inside(#[trigger] b1[k].bounds, phys) by {
        if k < b2.len() {
            assert(rect_inside(b2[k].bounds, p1));
        } else {
            assert(rect_inside(b1[k].bounds, p2));
        }
    }
    assert forall|i: int, j: int| b0.len() <= i < j < b1.len() implies rects_apart(#[trigger] b1[i].bounds, #[trigger] b1[j].bounds) by {
        if j < b2.len() {
            assert(rects_apart(b2[i].bounds, b2[j].bounds));
        } else if i >= b2.len() {
            assert(rects_apart(b1[i].bounds, b1[j].bounds));
        } else {
            assert(rect_inside(b2[i].bounds, p1));
            assert(rect_inside(b1[j].bounds, p2));
        }
    }
}

/// Law: [`subdivide`] only appends blocks, each inside the rect it was
/// given, and no two of the blocks it appends overlap.
pub proof fn lemma_subdivide_blocks_apart(
    phys: Rect,
    topo: Rect,
    lu: LandUseMap,
    labels: Seq<i32>,
    cfg: GenerationConfig,
    depth: u32,
    lane_depth: u32,
    street_depth: u32,
    w0: Seq<u64>,
    m0: Map<(u8, i32), Vec<i32>>,
    s0: Seq<StreetEdge>,
    b0: Seq<Block>,
    w1: Seq<u64>,
    m1: Map<(u8, i32), Vec<i32>>,
    s1: Seq<StreetEdge>,
    b1: Seq<Block>,
)
    requires
        subdivide_fits(phys, topo, lu, labels, cfg),
        subdivide_outcome(phys, topo, lu, labels, cfg, depth, lane_depth, street_depth, w0, m0, s0, b0, w1, m1, s1, b1),
    ensures
        appended_blocks_ok(b0, b1, phys),
    decreases cfg.max_recursion_depth - depth,
{
    match subdivide_class(phys, lu, labels, cfg, depth, lane_depth, street_depth) {
        None => {
            assert(b1.subrange(0, b0.len() as int) =~= b0);
        },
        Some(class) => {
            let nl = if class == StreetClass::Lane { (lane_depth + 1) as u32 } else { lane_depth };
            let ns = if class == StreetClass::Street { (street_depth + 1) as u32 } else { street_depth };
            let d = (depth + 1) as u32;
            let axis = preferred_axis(phys);
            let (wa, ma, ra) = choose|wa: Seq<u64>, ma: Map<(u8, i32), Vec<i32>>, ra: Option<(Rect, Rect, Rect, Rect, StreetEdge)>|
                #[trigger] try_split_outcome(phys, topo, axis, class, cfg, w0, m0, ra, wa, ma) && (match ra {
                    Some(x) => exists|w2: Seq<u64>, m2: Map<(u8, i32), Vec<i32>>, s2: Seq<StreetEdge>, b2: Seq<Block>|
                        #[trigger] after_first_half(w2, m2, s2, b2) && subdivide_outcome(x.0, x.2, lu, labels, cfg, d, nl, ns, wa, ma, s0.push(x.4), b0, w2, m2, s2, b2)
                            && subdivide_outcome(x.1, x.3, lu, labels, cfg, d, nl, ns, w2, m2, s2, b2, w1, m1, s1, b1),
                    None => exists|wb: Seq<u64>, mb: Map<(u8, i32), Vec<i32>>, rb: Option<(Rect, Rect, Rect, Rect, StreetEdge)>|
                        #[trigger] try_split_outcome(phys, topo, other_axis(axis), class, cfg, wa, ma, rb, wb, mb) && (match rb {
                            Some(x) => exists|w2: Seq<u64>, m2: Map<(u8, i32), Vec<i32>>, s2: Seq<StreetEdge>, b2: Seq<Block>|
                                #[trigger] after_first_half(w2, m2, s2, b2) && subdivide_outcome(x.0, x.2, lu, labels, cfg, d, nl, ns, wb, mb, s0.push(x.4), b0, w2, m2, s2, b2)
                                    && subdivide_outcome(x.1, x.3, lu, labels, cfg, d, nl, ns, w2, m2, s2, b2, w1, m1, s1, b1),
                            None => w1 == wb && m1 == mb && s1 == s0 && b1 == b0.push(Block { bounds: phys }),
                        }),
                });
            let (ax, wc, mc, rc) = if ra is Some {
                (axis, wa, ma, ra)
            } else {
                let (wb, mb, rb) = choose|wb: Seq<u64>, mb: Map<(u8, i32), Vec<i32>>, rb: Option<(Rect, Rect, Rect, Rect, StreetEdge)>|
                    #[trigger] try_split_outcome(phys, topo, other_axis(axis), class, cfg, wa, ma, rb, wb, mb) && (match rb {
                        Some(x) => exists|w2: Seq<u64>, m2: Map<(u8, i32), Vec<i32>>, s2: Seq<StreetEdge>, b2: Seq<Block>|
                            #[trigger] after_first_half(w2, m2, s2, b2) && subdivide_outcome(x.0, x.2, lu, labels, cfg, d, nl, ns, wb, mb, s0.push(x.4), b0, w2, m2, s2, b2)
                                && subdivide_outcome(x.1, x.3, lu, labels, cfg, d, nl, ns, w2, m2, s2, b2, w1, m1, s1, b1),
                        None => w1 == wb && m1 == mb && s1 == s0 && b1 == b0.push(Block { bounds: phys }),
                    });
                (other_axis(axis), wb, mb, rb)
            };
            match rc {
                None => {
                    assert(b1.subrange(0, b0.len() as int) =~= b0);
                },
                Some(x) => {
                    let (w2, m2, s2, b2) = choose|w2: Seq<u64>, m2: Map<(u8, i32), Vec<i32>>, s2: Seq<StreetEdge>, b2: Seq<Block>|
                        #[trigger] after_first_half(w2, m2, s2, b2) && subdivide_outcome(x.0, x.2, lu, labels, cfg, d, nl, ns, wc, mc, s0.push(x.4), b0, w2, m2, s2, b2)
                            && subdivide_outcome(x.1, x.3, lu, labels, cfg, d, nl, ns, w2, m2, s2, b2, w1, m1, s1, b1);
                    let (w_before, m_before) = if ra is Some { (w0, m0) } else { (wa, ma) };
                    lemma_split_children_bounded(phys, topo, ax, class, cfg, w_before, m_before, rc, wc, mc);
                    lemma_split_halves(phys, topo, ax, class, cfg, w_before, m_before, rc, wc, mc);
                    lemma_subdivide_blocks_apart(x.0, x.2, lu, labels, cfg, d, nl, ns, wc, mc, s0.push(x.4), b0, w2, m2, s2, b2);
                    lemma_subdivide_blocks_apart(x.1, x.3, lu, labels, cfg, d, nl, ns, w2, m2, s2, b2, w1, m1, s1, b1);
                    lemma_join_halves(b0, b2, b1, x.0, x.1, phys);
                },
            }
        },
    }
}


/// `e` is as wide as the config says its class is.
pub open spec fn width_of_its_class(e: StreetEdge, cfg: GenerationConfig) -> bool {
    &&& e.class == StreetClass::Arterial ==> e.width_cells == cfg.arterial_width_cells
    &&& e.class == StreetClass::Street ==> e.width_cells == cfg.street_width_cells
    &&& e.class == StreetClass::Lane ==> e.width_cells == cfg.lane_width_cells
}

/// Law: a split's new street has the tier it was asked for and that
/// tier's configured width.
pub proof fn lemma_split_street_width(
    phys: Rect,
    topo: Rect,
    axis: Axis,
    class: StreetClass,
    cfg: GenerationConfig,
    w0: Seq<u64>,
    m0: Map<(u8, i32), Vec<i32>>,
    r: Option<(Rect, Rect, Rect, Rect, StreetEdge)>,
    w1: Seq<u64>,
    m1: Map<(u8, i32), Vec<i32>>,
)
    requires
        try_split_outcome(phys, topo, axis, class, cfg, w0, m0, r, w1, m1),
        r is Some,
    ensures
        r.unwrap().4.class == class,
        width_of_its_class(r.unwrap().4, cfg),
{
}

/// What a call of [`subdivide`] adds to the segments: it keeps the ones it
/// was handed, and every street it appends is as wide as its class.
pub open spec fn appended_streets_ok(s0: Seq<StreetEdge>, s1: Seq<StreetEdge>, cfg: GenerationConfig) -> bool {
    &&& s0.len() <= s1.len()
    &&& s1.subrange(0, s0.len() as int) == s0
    &&& forall|k: int| s0.len() <= k < s1.len() ==> width_of_its_class(#[trigger] s1[k], cfg)
}

proof fn lemma_join_streets(s0: Seq<StreetEdge>, e: StreetEdge, s2: Seq<StreetEdge>, s1: Seq<StreetEdge>, cfg: GenerationConfig)
    requires
        width_of_its_class(e, cfg),
        appended_streets_ok(s0.push(e), s2, cfg),
        appended_streets_ok(s2, s1, cfg),
    ensures
        appended_streets_ok(s0, s1, cfg),
{
    let s0e = s0.push(e);
    assert forall|k: int| 0 <= k < s2.len() implies s1[k] == s2[k] by {
        assert(s1.subrange(0, s2.len() as int)[k] == s2[k]);
    }
    assert forall|k: int| 0 <= k < s0e.len() implies s2[k] == s0e[k] by {
        assert(s2.subrange(0, s0e.len() as int)[k] == s0e[k]);
    }
    assert(s1.subrange(0, s0.len() as int) =~= s0);
    assert forall|k: int| s0.len() <= k < s1.len() implies width_of_its_class(#[trigger] s1[k], cfg) by {
        if k == s0.len() {
            assert(s1[k] == s0e[k]);
        } else if k < s2.len() {
            assert(s1[k] == s2[k]);
        }
    }
}

/// Law: every street [`subdivide`] appends is as wide as its own class's
/// configured width, and it keeps the streets it was handed.
pub proof fn lemma_subdivide_street_widths(
    phys: Rect,
    topo: Rect,
    lu: LandUseMap,
    labels: Seq<i32>,
    cfg: GenerationConfig,
    depth: u32,
    lane_depth: u32,
    street_depth: u32,
    w0: Seq<u64>,
    m0: Map<(u8, i32), Vec<i32>>,
    s0: Seq<StreetEdge>,
    b0: Seq<Block>,
    w1: Seq<u64>,
    m1: Map<(u8, i32), Vec<i32>>,
    s1: Seq<StreetEdge>,
    b1: Seq<Block>,
)
    requires
        subdivide_outcome(phys, topo, lu, labels, cfg, depth, lane_depth, street_depth, w0, m0, s0, b0, w1, m1, s1, b1),
    ensures
        appended_streets_ok(s0, s1, cfg),
    decreases cfg.max_recursion_depth - depth,
{
    match subdivide_class(phys, lu, labels, cfg, depth, lane_depth, street_depth) {
        None => {
            assert(s1.subrange(0, s0.len() as int) =~= s0);
        },
        Some(class) => {
            let nl = if class == StreetClass::Lane { (lane_depth + 1) as u32 } else { lane_depth };
            let ns = if class == StreetClass::Street { (street_depth + 1) as u32 } else { street_depth };
            let d = (depth + 1) as u32;
            let axis = preferred_axis(phys);
            let (wa, ma, ra) = choose|wa: Seq<u64>, ma: Map<(u8, i32), Vec<i32>>, ra: Option<(Rect, Rect, Rect, Rect, StreetEdge)>|
                #[trigger] try_split_outcome(phys, topo, axis, class, cfg, w0, m0, ra, wa, ma) && (match ra {
                    Some(x) => exists|w2: Seq<u64>, m2: Map<(u8, i32), Vec<i32>>, s2: Seq<StreetEdge>, b2: Seq<Block>|
                        #[trigger] after_first_half(w2, m2, s2, b2) && subdivide_outcome(x.0, x.2, lu, labels, cfg, d, nl, ns, wa, ma, s0.push(x.4), b0, w2, m2, s2, b2)
                            && subdivide_outcome(x.1, x.3, lu, labels, cfg, d, nl, ns, w2, m2, s2, b2, w1, m1, s1, b1),
                    None => exists|wb: Seq<u64>, mb: Map<(u8, i32), Vec<i32>>, rb: Option<(Rect, Rect, Rect, Rect, StreetEdge)>|
                        #[trigger] try_split_outcome(phys, topo, other_axis(axis), class, cfg, wa, ma, rb, wb, mb) && (match rb {
                            Some(x) => exists|w2: Seq<u64>, m2: Map<(u8, i32), Vec<i32>>, s2: Seq<StreetEdge>, b2: Seq<Block>|
                                #[trigger] after_first_half(w2, m2, s2, b2) && subdivide_outcome(x.0, x.2, lu, labels, cfg, d, nl, ns, wb, mb, s0.push(x.4), b0, w2, m2, s2, b2)
                                    && subdivide_outcome(x.1, x.3, lu, labels, cfg, d, nl, ns, w2, m2, s2, b2, w1, m1, s1, b1),
                            None => w1 == wb && m1 == mb && s1 == s0 && b1 == b0.push(Block { bounds: phys }),
                        }),
                });
            let (ax, wc, mc, rc) = if ra is Some {
                (axis, wa, ma, ra)
            } else {
                let (wb, mb, rb) = choose|wb: Seq<u64>, mb: Map<(u8, i32), Vec<i32>>, rb: Option<(Rect, Rect, Rect, Rect, StreetEdge)>|
                    #[trigger] try_split_outcome(phys, topo, other_axis(axis), class, cfg, wa, ma, rb, wb, mb) && (match rb {
                        Some(x) => exists|w2: Seq<u64>, m2: Map<(u8, i32), Vec<i32>>, s2: Seq<StreetEdge>, b2: Seq<Block>|
                            #[trigger] after_first_half(w2, m2, s2, b2) && subdivide_outcome(x.0, x.2, lu, labels, cfg, d, nl, ns, wb, mb, s0.push(x.4), b0, w2, m2, s2, b2)
                                && subdivide_outcome(x.1, x.3, lu, labels, cfg, d, nl, ns, w2, m2, s2, b2, w1, m1, s1, b1),
                        None => w1 == wb && m1 == mb && s1 == s0 && b1 == b0.push(Block { bounds: phys }),
                    });
                (other_axis(axis), wb, mb, rb)
            };
            match rc {
                None => {
                    assert(s1.subrange(0, s0.len() as int) =~= s0);
                },
                Some(x) => {
                    let (w2, m2, s2, b2) = choose|w2: Seq<u64>, m2: Map<(u8, i32), Vec<i32>>, s2: Seq<StreetEdge>, b2: Seq<Block>|
                        #[trigger] after_first_half(w2, m2, s2, b2) && subdivide_outcome(x.0, x.2, lu, labels, cfg, d, nl, ns, wc, mc, s0.push(x.4), b0, w2, m2, s2, b2)
                            && subdivide_outcome(x.1, x.3, lu, labels, cfg, d, nl, ns, w2, m2, s2, b2, w1, m1, s1, b1);
                    let (w_before, m_before) = if ra is Some { (w0, m0) } else { (wa, ma) };
                    lemma_split_street_width(phys, topo, ax, class, cfg, w_before, m_before, rc, wc, mc);
                    lemma_subdivide_street_widths(x.0, x.2, lu, labels, cfg, d, nl, ns, wc, mc, s0.push(x.4), b0, w2, m2, s2, b2);
                    lemma_subdivide_street_widths(x.1, x.3, lu, labels, cfg, d, nl, ns, w2, m2, s2, b2, w1, m1, s1, b1);
                    lemma_join_streets(s0, x.4, s2, s1, cfg);
                },
            }
        },
    }
}

} // verus!
