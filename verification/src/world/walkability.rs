//! The two placement invariants over an arrangement of objects that no
//! single definition can express -- a doorway must leave a passable gap of
//! at least the player body's own width, and a walkable region enclosed
//! with no door is unreachable. Both are pure functions over a sub-cell
//! walkability grid: the same dense bitset idiom as the collision grid,
//! at sub-cell resolution.

use vstd::prelude::*;
use crate::text::decimal;
use super::bits::{self, bit, spec_words_for, any_covers};
use super::collision::{Rect, cell_index, spec_cell_index, lemma_cell_index_bounds, lemma_cell_index_injective, MAX_CELLS_PER_FLOOR};
use crate::defs::{self, BalanceSeed, ObjectDef};
use crate::balance::{has_key, spec_value};

verus! {

/// The largest number of sub-cells a single grid may cover.
pub const MAX_SUBCELLS: u64 = 67_108_864;

/// The most cells a grid handed to the component labeller may hold: every
/// label, and every cell index, must fit `i32`.
pub const LABEL_MAX_CELLS: u64 = 0x7fff_ffff;

/// The sub-cell count of `bounds`, checked: `Err` on an invalid rect or one
/// whose area overflows.
fn total_subcells(bounds: Rect) -> (r: Result<u64, String>)
    ensures
        r is Ok <==> bounds.spec_is_valid() && bounds.spec_width() * bounds.spec_height() <= i64::MAX,
        r matches Ok(n) ==> n == bounds.spec_width() * bounds.spec_height(),
{
    if !bounds.is_valid() {
        return Err(invalid_message(bounds));
    }
    let w = bounds.width();
    let h = bounds.height();
    match w.checked_mul(h) {
        Some(count) => Ok(count as u64),
        None => Err(overflow_message(bounds)),
    }
}

/// The text [`invalid_message`] produces.
pub open spec fn spec_invalid_message(bounds: Rect) -> Seq<char> {
    "walkability: invalid bounds "@ + "Rect { x0: "@ + decimal(bounds.x0 as int) + ", y0: "@ + decimal(bounds.y0 as int) + ", x1: "@ + decimal(bounds.x1 as int) + ", y1: "@ + decimal(bounds.y1 as int) + " }"@
}

/// The refusal text for an invalid extent.
///
/// Formats with `format!`; the contract claims what std documents of
/// `Display`: the literal text, each integer in decimal (a leading `-`
/// when negative) and each string as it is.
#[verifier::external_body]
fn invalid_message(bounds: Rect) -> (s: String)
    ensures
        s@ == spec_invalid_message(bounds),
{
    format!("walkability: invalid bounds Rect {{ x0: {}, y0: {}, x1: {}, y1: {} }}", bounds.x0, bounds.y0, bounds.x1, bounds.y1)
}

/// The text [`overflow_message`] produces.
pub open spec fn spec_overflow_message(bounds: Rect) -> Seq<char> {
    "walkability: "@ + "Rect { x0: "@ + decimal(bounds.x0 as int) + ", y0: "@ + decimal(bounds.y0 as int) + ", x1: "@ + decimal(bounds.x1 as int) + ", y1: "@ + decimal(bounds.y1 as int) + " }"@ + " overflows a sub-cell count"@
}

/// The refusal text for an extent whose area overflows.
///
/// Formats with `format!`; the contract claims what std documents of
/// `Display`: the literal text, each integer in decimal (a leading `-`
/// when negative) and each string as it is.
#[verifier::external_body]
fn overflow_message(bounds: Rect) -> (s: String)
    ensures
        s@ == spec_overflow_message(bounds),
{
    format!("walkability: Rect {{ x0: {}, y0: {}, x1: {}, y1: {} }} overflows a sub-cell count", bounds.x0, bounds.y0, bounds.x1, bounds.y1)
}

/// The text [`too_many_message`] produces.
pub open spec fn spec_too_many_message(bounds: Rect, count: int) -> Seq<char> {
    "walkability: "@ + "Rect { x0: "@ + decimal(bounds.x0 as int) + ", y0: "@ + decimal(bounds.y0 as int) + ", x1: "@ + decimal(bounds.x1 as int) + ", y1: "@ + decimal(bounds.y1 as int) + " }"@ + " covers "@ + decimal(count as int) + " sub-cells, over the "@ + decimal(MAX_SUBCELLS as int) + "-sub-cell ceiling"@
}

/// The refusal text for an extent over the sub-cell ceiling.
///
/// Formats with `format!`; the contract claims what std documents of
/// `Display`: the literal text, each integer in decimal (a leading `-`
/// when negative) and each string as it is.
#[verifier::external_body]
fn too_many_message(bounds: Rect, count: u64) -> (s: String)
    ensures
        s@ == spec_too_many_message(bounds, count as int),
{
    format!("walkability: Rect {{ x0: {}, y0: {}, x1: {}, y1: {} }} covers {count} sub-cells, over the {MAX_SUBCELLS}-sub-cell ceiling", bounds.x0, bounds.y0, bounds.x1, bounds.y1)
}

/// The text [`unknown_def_message`] produces.
pub open spec fn spec_unknown_def_message(def_id: int) -> Seq<char> {
    "walkability::rasterise: placement names unknown object def id "@ + decimal(def_id as int)
}

/// The refusal text for a placement naming an unknown object definition.
///
/// Formats with `format!`; the contract claims what std documents of
/// `Display`: the literal text, each integer in decimal (a leading `-`
/// when negative) and each string as it is.
#[verifier::external_body]
fn unknown_def_message(def_id: u32) -> (s: String)
    ensures
        s@ == spec_unknown_def_message(def_id as int),
{
    format!("walkability::rasterise: placement names unknown object def id {def_id}")
}

/// One arrangement's walkability, at sub-cell resolution: a dense bitset
/// over `bounds`, blocked wherever a stamped collider overlaps. Cells
/// outside `bounds` are never blocked.
#[derive(Debug, Clone)]
pub struct WalkabilityGrid {
    bounds: Rect,
    blocked: Vec<u64>,
}

/// The dense index of an in-bounds cell.
fn idx_of(bounds: Rect, x: i32, y: i32) -> (i: usize)
    requires
        bounds.spec_is_valid(),
        bounds.spec_width() * bounds.spec_height() <= LABEL_MAX_CELLS,
        bounds.spec_contains(x as int, y as int),
    ensures
        spec_cell_index(bounds, x as int, y as int) == Some(i as int),
        i < bounds.spec_width() * bounds.spec_height(),
{
    proof {
        lemma_cell_index_bounds(bounds, x as int, y as int);
    }
    match cell_index(bounds, x, y) {
        Some(i) => i,
        None => 0,
    }
}

impl WalkabilityGrid {
    pub closed spec fn spec_bounds(&self) -> Rect {
        self.bounds
    }

    pub closed spec fn spec_blocked(&self, x: int, y: int) -> bool {
        match spec_cell_index(self.bounds, x, y) {
            Some(i) => bit(self.blocked@, i),
            None => false,
        }
    }

    pub closed spec fn wf(&self) -> bool {
        &&& bits::grid_bounds_ok(self.bounds, MAX_SUBCELLS as int)
        &&& self.blocked.len() == spec_words_for(
            self.bounds.spec_width() * self.bounds.spec_height(),
        )
    }

    pub open spec fn spec_passable(&self, x: int, y: int) -> bool {
        self.spec_bounds().spec_contains(x, y) && !self.spec_blocked(x, y)
    }

    /// Builds a grid covering `bounds` (sub-cells), blocked wherever any of
    /// `colliders` (also sub-cells) overlaps. Total: `Err` on an invalid
    /// `bounds` or one over [`MAX_SUBCELLS`].
    pub fn build(bounds: Rect, colliders: &[Rect]) -> (r: Result<Self, String>)
        ensures
            r is Ok <==> bits::grid_bounds_ok(bounds, MAX_SUBCELLS as int),
            r matches Ok(g) ==> {
                &&& g.wf()
                &&& g.spec_bounds() == bounds
                &&& forall|x: int, y: int|
                    #[trigger] g.spec_blocked(x, y) == (bounds.spec_contains(x, y) && any_covers(
                        colliders@,
                        x,
                        y,
                    ))
            },
    {
        let count = total_subcells(bounds)?;
        if count > MAX_SUBCELLS {
            return Err(too_many_message(bounds, count));
        }
        let blocked = bits::stamp(bounds, count, colliders);
        let g = WalkabilityGrid { bounds, blocked };
        proof {
            assert forall|x: int, y: int|
                #[trigger] g.spec_blocked(x, y) == (bounds.spec_contains(x, y) && any_covers(
                    colliders@,
                    x,
                    y,
                )) by {
                if bounds.spec_contains(x, y) {
                    lemma_cell_index_bounds(bounds, x, y);
                }
            }
        }
        Ok(g)
    }

    /// Builds a grid directly from a pre-computed passability vector
    /// (`true` = passable), one entry per cell in index order.
    fn from_passable(bounds: Rect, passable: &Vec<bool>) -> (g: Self)
        requires
            bits::grid_bounds_ok(bounds, MAX_SUBCELLS as int),
            passable.len() == bounds.spec_width() * bounds.spec_height(),
        ensures
            g.wf(),
            g.spec_bounds() == bounds,
            forall|x: int, y: int|
                #![trigger g.spec_blocked(x, y)]
                bounds.spec_contains(x, y) ==> g.spec_blocked(x, y) == !passable@[spec_cell_index(
                    bounds,
                    x,
                    y,
                ).unwrap()],
    {
        let n = passable.len();
        let nw = bits::words_for(n as u64);
        let mut blocked = bits::zero_words(nw);
        assert(n <= nw * 64) by (nonlinear_arith)
            requires
                nw == (n + 63) / 64,
        ;
        let mut i: usize = 0;
        while i < n
            invariant
                n == passable.len(),
                n <= nw * 64,
                blocked.len() == nw,
                0 <= i <= n,
                forall|j: int| 0 <= j < n ==> bit(blocked@, j) == (j < i && !passable@[j]),
            decreases n - i,
        {
            if !passable[i] {
                assert(i / 64 < nw) by (nonlinear_arith)
                    requires
                        i < n,
                        n <= nw * 64,
                ;
                set_bit_keep(&mut blocked, i, n);
            }
            i += 1;
        }
        let g = WalkabilityGrid { bounds, blocked };
        proof {
            assert forall|x: int, y: int|
                #![trigger g.spec_blocked(x, y)]
                bounds.spec_contains(x, y) implies g.spec_blocked(x, y) == !passable@[spec_cell_index(
                    bounds,
                    x,
                    y,
                ).unwrap()] by {
                lemma_cell_index_bounds(bounds, x, y);
            }
        }
        g
    }

    pub fn bounds(&self) -> (r: Rect)
        ensures
            r == self.spec_bounds(),
    {
        self.bounds
    }

    pub fn in_bounds(&self, x: i32, y: i32) -> (b: bool)
        ensures
            b == self.spec_bounds().spec_contains(x as int, y as int),
    {
        self.bounds.contains(x, y)
    }

    /// Out of bounds is never blocked.
    pub fn is_blocked(&self, x: i32, y: i32) -> (b: bool)
        requires
            self.wf(),
        ensures
            b == self.spec_blocked(x as int, y as int),
    {
        match cell_index(self.bounds, x, y) {
            None => false,
            Some(idx) => {
                proof {
                    lemma_cell_index_bounds(self.bounds, x as int, y as int);
                    let count = self.bounds.spec_width() * self.bounds.spec_height();
                    assert(idx / 64 < self.blocked.len()) by (nonlinear_arith)
                        requires
                            idx < count,
                            self.blocked.len() == (count + 63) / 64,
                    ;
                }
                bits::get_bit(&self.blocked, idx)
            },
        }
    }

    pub fn is_passable(&self, x: i32, y: i32) -> (b: bool)
        requires
            self.wf(),
        ensures
            b == self.spec_passable(x as int, y as int),
    {
        self.in_bounds(x, y) && !self.is_blocked(x, y)
    }

    /// One entry per sub-cell, in `bounds`'s own raster order: passable or not.
    fn passable_mask(&self) -> (m: Vec<bool>)
        requires
            self.wf(),
        ensures
            m.len() == self.spec_bounds().spec_width() * self.spec_bounds().spec_height(),
            mask_matches(self.spec_bounds(), m@, |x: int, y: int| self.spec_passable(x, y)),
            forall|x: int, y: int|
                #![trigger self.spec_passable(x, y)]
                self.spec_bounds().spec_contains(x, y) ==> m@[spec_cell_index(self.spec_bounds(), x, y).unwrap()]
                    == self.spec_passable(x, y),
    {
        let total = self.bounds.width() as u64 * self.bounds.height() as u64;
        let n = total as usize;
        let mut m: Vec<bool> = Vec::new();
        let mut i: usize = 0;
        while i < n
            invariant
                self.wf(),
                n == self.bounds.spec_width() * self.bounds.spec_height(),
                i <= n,
                m.len() == i,
                forall|j: int| 0 <= j < i ==> m@[j] == !bit(self.blocked@, j),
            decreases n - i,
        {
            proof {
                assert(i / 64 < self.blocked.len()) by (nonlinear_arith)
                    requires
                        i < n,
                        self.blocked.len() == (n + 63) / 64,
                ;
            }
            let b = bits::get_bit(&self.blocked, i);
            m.push(!b);
            i += 1;
        }
        proof {
            assert forall|x: int, y: int|
                #![trigger self.spec_passable(x, y)]
                self.bounds.spec_contains(x, y) implies m@[spec_cell_index(self.bounds, x, y).unwrap()]
                    == self.spec_passable(x, y) by {
                lemma_cell_index_bounds(self.bounds, x, y);
            }
        }
        m
    }
}

/// Sets bit `i` of the first `n`, keeping the invariant that the bits
/// below `n` read as the ones set so far.
fn set_bit_keep(words: &mut Vec<u64>, i: usize, n: usize)
    requires
        i < n,
        n <= old(words).len() * 64,
        i / 64 < old(words).len(),
    ensures
        final(words).len() == old(words).len(),
        bit(final(words)@, i as int),
        forall|j: int| 0 <= j < n && j != i ==> bit(final(words)@, j) == bit(old(words)@, j),
{
    bits::set_bit(words, i);
}

/// The footprint's own north-west cell from the anchor cell (the
/// footprint's south-west corner) and its extent: `x` is unchanged, only
/// `y` moves, north by `height - 1` cells.
pub fn footprint_origin(anchor_x: i32, anchor_y: i32, width: u32, height: u32) -> (r: (i32, i32))
    requires
        height <= i32::MAX,
        i32::MIN <= anchor_y - (height - 1) <= i32::MAX,
    ensures
        r == (anchor_x, (anchor_y - (height - 1)) as i32),
{
    let _ = width;
    (anchor_x, anchor_y - (height as i32 - 1))
}

/// One placement: an object definition id, its anchor cell (the
/// footprint's south-west corner) and floor.
#[derive(Debug, Clone, Copy)]
pub struct Placement {
    pub def_id: u32,
    pub anchor_x: i32,
    pub anchor_y: i32,
    pub floor: i8,
}

/// Reads the player body's width and height in sub-cells from `balance`.
pub fn player_body_subcells(balance: &[BalanceSeed]) -> (r: (i32, i32))
    requires
        has_key(balance@, "movement.player_body_width_subcells"@),
        has_key(balance@, "movement.player_body_height_subcells"@),
    ensures
        r.0 == spec_value(balance@, "movement.player_body_width_subcells"@) as i32,
        r.1 == spec_value(balance@, "movement.player_body_height_subcells"@) as i32,
{
    (
        crate::balance::value(balance, "movement.player_body_width_subcells") as i32,
        crate::balance::value(balance, "movement.player_body_height_subcells") as i32,
    )
}


/// The first definition in `objects` with id `id`.
pub open spec fn first_def(objects: Seq<ObjectDef>, id: u32) -> Option<ObjectDef>
    decreases objects.len(),
{
    if objects.len() == 0 {
        None
    } else if objects[0].id == id {
        Some(objects[0])
    } else {
        first_def(objects.drop_first(), id)
    }
}

/// The collider rect a placement stamps, in sub-cells, as unbounded
/// integers: the def's collider shifted to the footprint's north-west
/// sub-cell.
pub open spec fn stamped(p: Placement, d: ObjectDef) -> (int, int, int, int) {
    let c = d.collider.unwrap();
    let ox = p.anchor_x as int;
    let oy = p.anchor_y - (d.height - 1);
    (ox * 16 + c.x0, oy * 16 + c.y0, ox * 16 + c.x1, oy * 16 + c.y1)
}

pub open spec fn fits_i32(v: int) -> bool {
    i32::MIN <= v <= i32::MAX
}

/// Every placement on `floor` names a known definition.
pub open spec fn all_defs_found(floor: i8, placements: Seq<Placement>, objects: Seq<ObjectDef>) -> bool {
    forall|i: int|
        0 <= i < placements.len() && (#[trigger] placements[i]).floor == floor ==> first_def(
            objects,
            placements[i].def_id,
        ) is Some
}

/// The stamping arithmetic of every known, collider-carrying placement on
/// `floor` fits `i32`.
pub open spec fn raster_arith_ok(floor: i8, placements: Seq<Placement>, objects: Seq<ObjectDef>) -> bool {
    forall|i: int|
        0 <= i < placements.len() && (#[trigger] placements[i]).floor == floor ==> match first_def(
            objects,
            placements[i].def_id,
        ) {
            Some(d) => d.height <= i32::MAX && fits_i32(placements[i].anchor_y - (d.height - 1)) && (
            d.collider is Some ==> {
                let s = stamped(placements[i], d);
                &&& fits_i32(placements[i].anchor_x * 16)
                &&& fits_i32((placements[i].anchor_y - (d.height - 1)) * 16)
                &&& fits_i32(s.0) && fits_i32(s.1) && fits_i32(s.2) && fits_i32(s.3)
            }),
            None => true,
        }
}

/// The collider rects rasterising `placements` on `floor` stamps, in
/// placement order.
pub open spec fn raster_colliders(floor: i8, placements: Seq<Placement>, objects: Seq<ObjectDef>) -> Seq<
    Rect,
>
    decreases placements.len(),
{
    if placements.len() == 0 {
        Seq::empty()
    } else {
        let rest = raster_colliders(floor, placements.drop_last(), objects);
        let p = placements.last();
        if p.floor != floor {
            rest
        } else {
            match first_def(objects, p.def_id) {
                Some(d) => if d.collider is Some {
                    let s = stamped(p, d);
                    rest.push(Rect { x0: s.0 as i32, y0: s.1 as i32, x1: s.2 as i32, y1: s.3 as i32 })
                } else {
                    rest
                },
                None => rest,
            }
        }
    }
}

pub(crate) fn find_def(objects: &[ObjectDef], id: u32) -> (r: Option<ObjectDef>)
    ensures
        r == first_def(objects@, id),
{
    assert(objects@.skip(0) =~= objects@);
    let mut i: usize = 0;
    while i < objects.len()
        invariant
            0 <= i <= objects.len(),
            first_def(objects@, id) == first_def(objects@.skip(i as int), id),
        decreases objects.len() - i,
    {
        assert(objects@.skip(i as int).drop_first() =~= objects@.skip(i + 1));
        assert(objects@.skip(i as int)[0] == objects@[i as int]);
        if objects[i].id == id {
            return Some(objects[i]);
        }
        i += 1;
    }
    assert(objects@.skip(i as int).len() == 0);
    None
}

/// Rasterises every placement on `floor` into a grid covering `bounds`
/// (sub-cells): each placement's anchor becomes its footprint's north-west
/// sub-cell, and a declared collider is stamped relative to that origin. A
/// placement naming an unknown definition is a hard error.
pub fn rasterise(
    bounds: Rect,
    floor: i8,
    placements: &[Placement],
    objects: &[ObjectDef],
) -> (r: Result<WalkabilityGrid, String>)
    requires
        raster_arith_ok(floor, placements@, objects@),
    ensures
        r is Ok <==> all_defs_found(floor, placements@, objects@) && bits::grid_bounds_ok(
            bounds,
            MAX_SUBCELLS as int,
        ),
        r matches Ok(g) ==> {
            &&& g.wf()
            &&& g.spec_bounds() == bounds
            &&& forall|x: int, y: int|
                #[trigger] g.spec_blocked(x, y) == (bounds.spec_contains(x, y) && any_covers(
                    raster_colliders(floor, placements@, objects@),
                    x,
                    y,
                ))
        },
{
    let mut colliders: Vec<Rect> = Vec::new();
    let mut i: usize = 0;
    proof {
        assert(placements@.take(0) =~= Seq::<Placement>::empty());
    }
    while i < placements.len()
        invariant
            0 <= i <= placements.len(),
            raster_arith_ok(floor, placements@, objects@),
            colliders@ == raster_colliders(floor, placements@.take(i as int), objects@),
            forall|j: int|
                0 <= j < i && (#[trigger] placements@[j]).floor == floor ==> first_def(
                    objects@,
                    placements@[j].def_id,
                ) is Some,
        decreases placements.len() - i,
    {
        let p = placements[i];
        proof {
            assert(placements@.take(i + 1).drop_last() =~= placements@.take(i as int));
            assert(placements@.take(i + 1).last() == p);
        }
        if p.floor != floor {
            i += 1;
            continue;
        }
        let def = match find_def(objects, p.def_id) {
            Some(d) => d,
            None => {
                return Err(unknown_def_message(p.def_id));
            },
        };
        match def.collider {
            None => {},
            Some(c) => {
                let (origin_x, origin_y) = footprint_origin(p.anchor_x, p.anchor_y, def.width, def.height);
                let per = defs::COLLIDER_SUBCELLS_PER_CELL;
                colliders.push(Rect {
                    x0: origin_x * per + c.x0,
                    y0: origin_y * per + c.y0,
                    x1: origin_x * per + c.x1,
                    y1: origin_y * per + c.y1,
                });
            },
        }
        i += 1;
    }
    proof {
        assert(placements@.take(placements.len() as int) =~= placements@);
    }
    WalkabilityGrid::build(bounds, colliders.as_slice())
}


/// How many of the integers in `[a, b)` satisfy `p`.
pub open spec fn count_true(p: spec_fn(int) -> bool, a: int, b: int) -> int
    decreases b - a,
{
    if b <= a {
        0
    } else {
        count_true(p, a, b - 1) + (if p(b - 1) { 1int } else { 0 })
    }
}

pub proof fn lemma_count_zero(p: spec_fn(int) -> bool, a: int, b: int)
    ensures
        count_true(p, a, b) >= 0,
        count_true(p, a, b) == 0 <==> forall|k: int| a <= k < b ==> !#[trigger] p(k),
    decreases b - a,
{
    if b > a {
        lemma_count_zero(p, a, b - 1);
        if count_true(p, a, b) == 0 {
            assert forall|k: int| a <= k < b implies !#[trigger] p(k) by {
                if k < b - 1 {
                } else {
                }
            }
        }
    }
}

pub proof fn lemma_count_drop_front(p: spec_fn(int) -> bool, a: int, b: int)
    requires
        a < b,
    ensures
        count_true(p, a + 1, b) == count_true(p, a, b) - (if p(a) { 1int } else { 0 }),
    decreases b - a,
{
    assert(count_true(p, a, a) == 0);
    assert(count_true(p, a + 1, a + 1) == 0);
    if b > a + 1 {
        lemma_count_drop_front(p, a, b - 1);
    }
}

/// A `bw`-wide window starting at `(x, y)` fits the row and holds no
/// blocked sub-cell.
pub open spec fn spec_row_clear(g: WalkabilityGrid, bw: int, x: int, y: int) -> bool {
    &&& bw >= 1
    &&& x + bw <= g.spec_bounds().x1
    &&& forall|dx: int| 0 <= dx < bw ==> !#[trigger] g.spec_blocked(x + dx, y)
}

/// Whether a `bw x bh` body whose north-west corner sits at `(x, y)` fits
/// entirely inside `g`'s own passable sub-cells.
pub open spec fn spec_body_fits(g: WalkabilityGrid, bw: int, bh: int, x: int, y: int) -> bool {
    &&& g.spec_bounds().spec_contains(x, y)
    &&& bw >= 1 && bh >= 1
    &&& x + bw <= g.spec_bounds().x1
    &&& y + bh <= g.spec_bounds().y1
    &&& forall|dx: int, dy: int|
        0 <= dx < bw && 0 <= dy < bh ==> !#[trigger] g.spec_blocked(x + dx, y + dy)
}

fn h_at(h: &Vec<bool>, bounds: Rect, x: i32, y: i32) -> (b: bool)
    requires
        bits::grid_bounds_ok(bounds, MAX_SUBCELLS as int),
        h.len() == bounds.spec_width() * bounds.spec_height(),
    ensures
        b == (bounds.spec_contains(x as int, y as int) && h@[spec_cell_index(
            bounds,
            x as int,
            y as int,
        ).unwrap()]),
{
    if !bounds.contains(x, y) {
        return false;
    }
    let i = idx_of(bounds, x, y);
    h[i]
}

/// Erodes `grid` by a `body_width x body_height` sub-cell rect: a sub-cell
/// `(x, y)` is passable in the result iff a body whose own north-west
/// corner sits at `(x, y)` fits entirely inside `grid`'s own passable
/// sub-cells. Two linear sliding-window passes (horizontal then vertical).
pub fn erode(grid: &WalkabilityGrid, body_width: i32, body_height: i32) -> (e: WalkabilityGrid)
    requires
        grid.wf(),
    ensures
        e.wf(),
        e.spec_bounds() == grid.spec_bounds(),
        forall|x: int, y: int|
            #[trigger] e.spec_passable(x, y) == spec_body_fits(
                *grid,
                body_width as int,
                body_height as int,
                x,
                y,
            ),
{
    let bounds = grid.bounds;
    let total = (bounds.width() * bounds.height()) as usize;
    let width = bounds.width();
    let height = bounds.height();
    let ghost g = *grid;
    let ghost bw = body_width as int;
    let ghost bh = body_height as int;

    // Horizontal pass: h[x, y] = every sub-cell in [x, x+body_width) on row
    // y is passable, and the window fits before bounds.x1.
    let mut h: Vec<bool> = vec![false; total];
    proof {
        assert forall|k: int| 0 <= k < total implies !h@[k] by {
            assert(vstd::pervasive::cloned(false, h@[k]));
        }
    }
    if body_width >= 1 && (body_width as i64) <= width {
        proof {
            assert forall|xx: int, yy: int|
                #![trigger spec_cell_index(bounds, xx, yy)]
                bounds.spec_contains(xx, yy) implies h@[spec_cell_index(bounds, xx, yy).unwrap()]
                    == (yy < bounds.y0 && spec_row_clear(g, bw, xx, yy)) by {
                lemma_cell_index_bounds(bounds, xx, yy);
            }
        }
        let mut y = bounds.y0;
        while y < bounds.y1
            invariant
                grid.wf(),
                g == *grid,
                bounds == grid.spec_bounds(),
                total == bounds.spec_width() * bounds.spec_height(),
                h.len() == total,
                bw == body_width,
                1 <= body_width <= bounds.spec_width(),
                bounds.y0 <= y <= bounds.y1,
                forall|xx: int, yy: int|
                    #![trigger spec_cell_index(bounds, xx, yy)]
                    bounds.spec_contains(xx, yy) ==> h@[spec_cell_index(bounds, xx, yy).unwrap()]
                        == (yy < y && spec_row_clear(g, bw, xx, yy)),
            decreases bounds.y1 - y,
        {
            let ghost row = |k: int| g.spec_blocked(k, y as int);
            let mut blocked_in_window: i64 = 0;
            let mut dx: i32 = 0;
            while dx < body_width
                invariant
                    grid.wf(),
                    g == *grid,
                    bounds == grid.spec_bounds(),
                    row == (|k: int| g.spec_blocked(k, y as int)),
                    1 <= body_width <= bounds.spec_width(),
                    0 <= dx <= body_width,
                    blocked_in_window == count_true(row, bounds.x0 as int, bounds.x0 + dx),
                    0 <= blocked_in_window <= dx,
                decreases body_width - dx,
            {
                if grid.is_blocked(bounds.x0 + dx, y) {
                    blocked_in_window += 1;
                }
                dx += 1;
            }
            let mut x = bounds.x0;
            loop
                invariant
                    grid.wf(),
                    g == *grid,
                    bounds == grid.spec_bounds(),
                    total == bounds.spec_width() * bounds.spec_height(),
                    h.len() == total,
                    bw == body_width,
                    row == (|k: int| g.spec_blocked(k, y as int)),
                    1 <= body_width <= bounds.spec_width(),
                    bounds.y0 <= y < bounds.y1,
                    bounds.x0 <= x <= bounds.x1,
                    x + body_width <= bounds.x1 ==> blocked_in_window == count_true(
                        row,
                        x as int,
                        x + body_width,
                    ),
                    0 <= blocked_in_window <= body_width,
                    forall|xx: int, yy: int|
                        #![trigger spec_cell_index(bounds, xx, yy)]
                        bounds.spec_contains(xx, yy) ==> h@[spec_cell_index(bounds, xx, yy).unwrap()]
                            == ((yy < y || (yy == y && xx < x)) && spec_row_clear(g, bw, xx, yy)),
                ensures
                    h.len() == total,
                    forall|xx: int, yy: int|
                        #![trigger spec_cell_index(bounds, xx, yy)]
                        bounds.spec_contains(xx, yy) ==> h@[spec_cell_index(bounds, xx, yy).unwrap()]
                            == (yy < y + 1 && spec_row_clear(g, bw, xx, yy)),
                decreases bounds.x1 - x,
            {
                if (x as i64) + body_width as i64 > bounds.x1 as i64 {
                    proof {
                        assert forall|xx: int, yy: int|
                            #![trigger spec_cell_index(bounds, xx, yy)]
                            bounds.spec_contains(xx, yy) implies h@[spec_cell_index(bounds, xx, yy).unwrap()]
                                == (yy < y + 1 && spec_row_clear(g, bw, xx, yy)) by {
                            if yy == y && xx >= x {
                                assert(!spec_row_clear(g, bw, xx, yy));
                            }
                        }
                    }
                    break;
                }
                let idx = idx_of(bounds, x, y);
                proof {
                    lemma_count_zero(row, x as int, x + body_width);
                    assert((blocked_in_window == 0) == spec_row_clear(g, bw, x as int, y as int)) by {
                        if blocked_in_window == 0 {
                            assert forall|d: int| 0 <= d < bw implies !#[trigger] g.spec_blocked(x + d, y as int) by {
                                assert(!row(x + d));
                            }
                        } else {
                            let k = choose|k: int| x <= k < x + body_width && #[trigger] row(k);
                            assert(g.spec_blocked(x + (k - x), y as int));
                        }
                    }
                }
                let ghost before = h@;
                h.set(idx, blocked_in_window == 0);
                proof {
                    assert forall|xx: int, yy: int|
                        #![trigger spec_cell_index(bounds, xx, yy)]
                        bounds.spec_contains(xx, yy) implies h@[spec_cell_index(bounds, xx, yy).unwrap()]
                            == ((yy < y || (yy == y && xx < x + 1)) && spec_row_clear(g, bw, xx, yy)) by {
                        lemma_cell_index_bounds(bounds, xx, yy);
                        if xx != x || yy != y {
                            lemma_cell_index_injective(bounds, xx, yy, x as int, y as int);
                        }
                    }
                }
                let leaving = x;
                let entering = x + body_width;
                if entering < bounds.x1 {
                    proof {
                        lemma_count_drop_front(row, x as int, x + body_width + 1);
                    }
                    if grid.is_blocked(leaving, y) {
                        blocked_in_window -= 1;
                    }
                    if grid.is_blocked(entering, y) {
                        blocked_in_window += 1;
                    }
                    proof {
                        lemma_count_zero(row, x + 1, x + 1 + body_width);
                        lemma_count_bound(row, x + 1, x + 1 + body_width);
                    }
                }
                x += 1;
            }
            y += 1;
        }
    } else {
        proof {
            assert forall|xx: int, yy: int|
                #![trigger spec_cell_index(bounds, xx, yy)]
                bounds.spec_contains(xx, yy) implies h@[spec_cell_index(bounds, xx, yy).unwrap()]
                    == spec_row_clear(g, bw, xx, yy) by {
                lemma_cell_index_bounds(bounds, xx, yy);
            }
        }
    }
    proof {
        assert forall|xx: int, yy: int|
            #![trigger spec_cell_index(bounds, xx, yy)]
            bounds.spec_contains(xx, yy) implies h@[spec_cell_index(bounds, xx, yy).unwrap()]
                == spec_row_clear(g, bw, xx, yy) by {
            if !(body_width >= 1 && (body_width as i64) <= width) {
                lemma_cell_index_bounds(bounds, xx, yy);
            }
        }
    }

    // Vertical pass over h: eroded[x, y] = every h[x, y'] for y' in
    // [y, y+body_height) is true, and the window fits before bounds.y1.
    let mut eroded_passable: Vec<bool> = vec![false; total];
    proof {
        assert forall|k: int| 0 <= k < total implies !eroded_passable@[k] by {
            assert(vstd::pervasive::cloned(false, eroded_passable@[k]));
        }
    }
    if body_height >= 1 && (body_height as i64) <= height {
        proof {
            assert forall|xx: int, yy: int|
                #![trigger spec_cell_index(bounds, xx, yy)]
                bounds.spec_contains(xx, yy) implies eroded_passable@[spec_cell_index(bounds, xx, yy).unwrap()]
                    == (xx < bounds.x0 && spec_body_fits(g, bw, bh, xx, yy)) by {
                lemma_cell_index_bounds(bounds, xx, yy);
            }
        }
        let mut x = bounds.x0;
        while x < bounds.x1
            invariant
                grid.wf(),
                g == *grid,
                bounds == grid.spec_bounds(),
                total == bounds.spec_width() * bounds.spec_height(),
                h.len() == total,
                eroded_passable.len() == total,
                bw == body_width,
                bh == body_height,
                1 <= body_height <= bounds.spec_height(),
                bounds.x0 <= x <= bounds.x1,
                forall|xx: int, yy: int|
                    #![trigger spec_cell_index(bounds, xx, yy)]
                    bounds.spec_contains(xx, yy) ==> h@[spec_cell_index(bounds, xx, yy).unwrap()]
                        == spec_row_clear(g, bw, xx, yy),
                forall|xx: int, yy: int|
                    #![trigger spec_cell_index(bounds, xx, yy)]
                    bounds.spec_contains(xx, yy) ==> eroded_passable@[spec_cell_index(bounds, xx, yy).unwrap()]
                        == (xx < x && spec_body_fits(g, bw, bh, xx, yy)),
            decreases bounds.x1 - x,
        {
            let ghost col = |k: int| !(bounds.spec_contains(x as int, k) && spec_row_clear(g, bw, x as int, k));
            let mut not_h_in_window: i64 = 0;
            let mut dy: i32 = 0;
            while dy < body_height
                invariant
                    bits::grid_bounds_ok(bounds, MAX_SUBCELLS as int),
                    h.len() == total,
                    total == bounds.spec_width() * bounds.spec_height(),
                    bounds.x0 <= x < bounds.x1,
                    forall|xx: int, yy: int|
                        #![trigger spec_cell_index(bounds, xx, yy)]
                        bounds.spec_contains(xx, yy) ==> h@[spec_cell_index(bounds, xx, yy).unwrap()]
                            == spec_row_clear(g, bw, xx, yy),
                    col == (|k: int| !(bounds.spec_contains(x as int, k) && spec_row_clear(g, bw, x as int, k))),
                    1 <= body_height <= bounds.spec_height(),
                    0 <= dy <= body_height,
                    not_h_in_window == count_true(col, bounds.y0 as int, bounds.y0 + dy),
                    0 <= not_h_in_window <= dy,
                decreases body_height - dy,
            {
                if !h_at(&h, bounds, x, bounds.y0 + dy) {
                    not_h_in_window += 1;
                }
                dy += 1;
            }
            let mut y = bounds.y0;
            loop
                invariant
                    grid.wf(),
                    g == *grid,
                    bounds == grid.spec_bounds(),
                    total == bounds.spec_width() * bounds.spec_height(),
                    h.len() == total,
                    eroded_passable.len() == total,
                    bw == body_width,
                    bh == body_height,
                    col == (|k: int| !(bounds.spec_contains(x as int, k) && spec_row_clear(g, bw, x as int, k))),
                    1 <= body_height <= bounds.spec_height(),
                    bounds.x0 <= x < bounds.x1,
                    bounds.y0 <= y <= bounds.y1,
                    y + body_height <= bounds.y1 ==> not_h_in_window == count_true(
                        col,
                        y as int,
                        y + body_height,
                    ),
                    0 <= not_h_in_window <= body_height,
                    forall|xx: int, yy: int|
                        #![trigger spec_cell_index(bounds, xx, yy)]
                        bounds.spec_contains(xx, yy) ==> h@[spec_cell_index(bounds, xx, yy).unwrap()]
                            == spec_row_clear(g, bw, xx, yy),
                    forall|xx: int, yy: int|
                        #![trigger spec_cell_index(bounds, xx, yy)]
                        bounds.spec_contains(xx, yy) ==> eroded_passable@[spec_cell_index(bounds, xx, yy).unwrap()]
                            == ((xx < x || (xx == x && yy < y)) && spec_body_fits(g, bw, bh, xx, yy)),
                ensures
                    h.len() == total,
                    eroded_passable.len() == total,
                    forall|xx: int, yy: int|
                        #![trigger spec_cell_index(bounds, xx, yy)]
                        bounds.spec_contains(xx, yy) ==> h@[spec_cell_index(bounds, xx, yy).unwrap()]
                            == spec_row_clear(g, bw, xx, yy),
                    forall|xx: int, yy: int|
                        #![trigger spec_cell_index(bounds, xx, yy)]
                        bounds.spec_contains(xx, yy) ==> eroded_passable@[spec_cell_index(bounds, xx, yy).unwrap()]
                            == (xx < x + 1 && spec_body_fits(g, bw, bh, xx, yy)),
                decreases bounds.y1 - y,
            {
                if (y as i64) + body_height as i64 > bounds.y1 as i64 {
                    proof {
                        assert forall|xx: int, yy: int|
                            #![trigger spec_cell_index(bounds, xx, yy)]
                            bounds.spec_contains(xx, yy) implies eroded_passable@[spec_cell_index(bounds, xx, yy).unwrap()]
                                == (xx < x + 1 && spec_body_fits(g, bw, bh, xx, yy)) by {
                            if xx == x && yy >= y {
                                assert(!spec_body_fits(g, bw, bh, xx, yy));
                            }
                        }
                    }
                    break;
                }
                proof {
                    lemma_count_zero(col, y as int, y + body_height);
                    assert((not_h_in_window == 0) == spec_body_fits(g, bw, bh, x as int, y as int)) by {
                        if not_h_in_window == 0 {
                            assert(!col(y as int));
                            assert(spec_row_clear(g, bw, x as int, y as int));
                            assert forall|dx: int, dy2: int|
                                0 <= dx < bw && 0 <= dy2 < bh implies !#[trigger] g.spec_blocked(x + dx, y + dy2) by {
                                assert(!col(y + dy2));
                                assert(spec_row_clear(g, bw, x as int, y + dy2));
                            }
                        } else {
                            let k = choose|k: int| y <= k < y + body_height && #[trigger] col(k);
                            if spec_body_fits(g, bw, bh, x as int, y as int) {
                                assert forall|dx: int| 0 <= dx < bw implies !#[trigger] g.spec_blocked(x + dx, k) by {
                                    assert(!g.spec_blocked(x + dx, y + (k - y)));
                                }
                                assert(spec_row_clear(g, bw, x as int, k));
                            }
                        }
                    }
                }
                if not_h_in_window == 0 {
                    let idx = idx_of(bounds, x, y);
                    let ghost before = eroded_passable@;
                    eroded_passable.set(idx, true);
                    proof {
                        assert forall|xx: int, yy: int|
                            #![trigger spec_cell_index(bounds, xx, yy)]
                            bounds.spec_contains(xx, yy) implies eroded_passable@[spec_cell_index(bounds, xx, yy).unwrap()]
                                == ((xx < x || (xx == x && yy < y + 1)) && spec_body_fits(g, bw, bh, xx, yy)) by {
                            lemma_cell_index_bounds(bounds, xx, yy);
                            if xx != x || yy != y {
                                lemma_cell_index_injective(bounds, xx, yy, x as int, y as int);
                            }
                        }
                    }
                }
                let leaving = y;
                let entering = y + body_height;
                if entering < bounds.y1 {
                    proof {
                        lemma_count_drop_front(col, y as int, y + body_height + 1);
                    }
                    if !h_at(&h, bounds, x, leaving) {
                        not_h_in_window -= 1;
                    }
                    if !h_at(&h, bounds, x, entering) {
                        not_h_in_window += 1;
                    }
                    proof {
                        lemma_count_bound(col, y + 1, y + 1 + body_height);
                    }
                }
                y += 1;
            }
            x += 1;
        }
    }
    proof {
        assert forall|xx: int, yy: int|
            #![trigger spec_cell_index(bounds, xx, yy)]
            bounds.spec_contains(xx, yy) implies eroded_passable@[spec_cell_index(bounds, xx, yy).unwrap()]
                == spec_body_fits(g, bw, bh, xx, yy) by {
            if !(body_height >= 1 && (body_height as i64) <= height) {
                lemma_cell_index_bounds(bounds, xx, yy);
            }
        }
    }
    let e = WalkabilityGrid::from_passable(bounds, &eroded_passable);
    proof {
        assert forall|x: int, y: int|
            #[trigger] e.spec_passable(x, y) == spec_body_fits(g, bw, bh, x, y) by {
            if bounds.spec_contains(x, y) {
                assert(e.spec_blocked(x, y) == !eroded_passable@[spec_cell_index(bounds, x, y).unwrap()]);
            }
        }
    }
    e
}

pub proof fn lemma_count_bound(p: spec_fn(int) -> bool, a: int, b: int)
    requires
        a <= b,
    ensures
        0 <= count_true(p, a, b) <= b - a,
    decreases b - a,
{
    if b > a {
        lemma_count_bound(p, a, b - 1);
    }
}


/// One reported finding: a connected region's bounding rect (sub-cells)
/// and its own cell count.
#[derive(Debug, Clone, Copy, PartialEq, Eq, Structural)]
pub struct Finding {
    pub bounds: Rect,
    pub cell_count: u64,
}

/// `mask` holds, cell by cell of `bounds`, what `pass` says.
pub open spec fn mask_matches(bounds: Rect, mask: Seq<bool>, pass: spec_fn(int, int) -> bool) -> bool {
    forall|x: int, y: int|
        #![trigger pass(x, y)]
        bounds.spec_contains(x, y) ==> mask[spec_cell_index(bounds, x, y).unwrap()] == pass(x, y)
}

/// `(x, y)` is in `bounds` and `pass` holds there.
pub open spec fn mpass(bounds: Rect, pass: spec_fn(int, int) -> bool, x: int, y: int) -> bool {
    bounds.spec_contains(x, y) && pass(x, y)
}

/// The two cells are 4-neighbours.
pub open spec fn adj(a: (int, int), b: (int, int)) -> bool {
    (a.0 == b.0 && (a.1 - b.1 == 1 || b.1 - a.1 == 1)) || (a.1 == b.1 && (a.0 - b.0 == 1 || b.0
        - a.0 == 1))
}

/// `p` is a walk of 4-neighbouring passable cells.
pub open spec fn is_walk(bounds: Rect, pass: spec_fn(int, int) -> bool, p: Seq<(int, int)>) -> bool {
    &&& p.len() >= 1
    &&& forall|i: int| 0 <= i < p.len() ==> mpass(bounds, pass, (#[trigger] p[i]).0, p[i].1)
    &&& forall|i: int| 0 <= i < p.len() - 1 ==> adj(#[trigger] p[i], p[i + 1])
}

/// Some walk of passable cells leads from `a` to `b`.
pub open spec fn reachable(bounds: Rect, pass: spec_fn(int, int) -> bool, a: (int, int), b: (int, int)) -> bool {
    exists|p: Seq<(int, int)>| #[trigger] is_walk(bounds, pass, p) && p[0] == a && p.last() == b
}

pub proof fn lemma_reach_refl(bounds: Rect, pass: spec_fn(int, int) -> bool, a: (int, int))
    requires
        mpass(bounds, pass, a.0, a.1),
    ensures
        reachable(bounds, pass, a, a),
{
    let p = seq![a];
    assert(is_walk(bounds, pass, p));
}

pub proof fn lemma_reach_extend(bounds: Rect, pass: spec_fn(int, int) -> bool, a: (int, int), c: (int, int), n: (int, int))
    requires
        reachable(bounds, pass, a, c),
        adj(c, n),
        mpass(bounds, pass, n.0, n.1),
    ensures
        reachable(bounds, pass, a, n),
{
    let p = choose|p: Seq<(int, int)>| #[trigger] is_walk(bounds, pass, p) && p[0] == a && p.last() == c;
    let q = p.push(n);
    assert forall|i: int| 0 <= i < q.len() - 1 implies adj(#[trigger] q[i], q[i + 1]) by {
        if i < p.len() - 1 {
            assert(q[i] == p[i] && q[i + 1] == p[i + 1]);
        }
    }
    assert(is_walk(bounds, pass, q));
}

pub proof fn lemma_reach_sym(bounds: Rect, pass: spec_fn(int, int) -> bool, a: (int, int), b: (int, int))
    requires
        reachable(bounds, pass, a, b),
    ensures
        reachable(bounds, pass, b, a),
{
    let p = choose|p: Seq<(int, int)>| #[trigger] is_walk(bounds, pass, p) && p[0] == a && p.last() == b;
    let q = p.reverse();
    assert forall|i: int| 0 <= i < q.len() - 1 implies adj(#[trigger] q[i], q[i + 1]) by {
        let j = p.len() - 2 - i;
        assert(adj(p[j], p[j + 1]));
    }
    assert forall|i: int| 0 <= i < q.len() implies mpass(bounds, pass, (#[trigger] q[i]).0, q[i].1) by {
        assert(q[i] == p[p.len() - 1 - i]);
    }
    assert(is_walk(bounds, pass, q));
}

pub proof fn lemma_reach_trans(bounds: Rect, pass: spec_fn(int, int) -> bool, a: (int, int), b: (int, int), c: (int, int))
    requires
        reachable(bounds, pass, a, b),
        reachable(bounds, pass, b, c),
    ensures
        reachable(bounds, pass, a, c),
{
    let p = choose|p: Seq<(int, int)>| #[trigger] is_walk(bounds, pass, p) && p[0] == a && p.last() == b;
    let r = choose|r: Seq<(int, int)>| #[trigger] is_walk(bounds, pass, r) && r[0] == b && r.last() == c;
    let q = p + r.drop_first();
    assert forall|i: int| 0 <= i < q.len() implies mpass(bounds, pass, (#[trigger] q[i]).0, q[i].1) by {
        if i < p.len() {
            assert(q[i] == p[i]);
        } else {
            assert(q[i] == r[i - p.len() + 1]);
        }
    }
    assert forall|i: int| 0 <= i < q.len() - 1 implies adj(#[trigger] q[i], q[i + 1]) by {
        if i < p.len() - 1 {
            assert(q[i] == p[i] && q[i + 1] == p[i + 1]);
        } else if i == p.len() - 1 {
            assert(q[i] == b && q[i + 1] == r[1]);
            assert(adj(r[0], r[1]));
        } else {
            assert(q[i] == r[i - p.len() + 1] && q[i + 1] == r[i - p.len() + 2]);
        }
    }
    if r.len() == 1 {
        assert(q =~= p);
    } else {
        assert(q.last() == r.last());
    }
    assert(is_walk(bounds, pass, q));
}

/// The label a cell carries.
pub open spec fn at(labels: Seq<i32>, bounds: Rect, x: int, y: int) -> i32 {
    labels[spec_cell_index(bounds, x, y).unwrap()]
}

/// The cells of `bounds` that carry label `k`.
pub open spec fn cells_labelled(labels: Seq<i32>, bounds: Rect, k: int) -> Set<(int, int)> {
    Set::new(|c: (int, int)| bounds.spec_contains(c.0, c.1) && at(labels, bounds, c.0, c.1) == k)
}

/// What [`label_components`] promises of its labels: `-1` exactly on the
/// impassable cells; every passable cell labelled; every label reached by
/// a walk from its own start cell; 4-neighbouring passable cells share a
/// label.
pub open spec fn labelling_ok(bounds: Rect, pass: spec_fn(int, int) -> bool, labels: Seq<i32>, starts: Seq<(int, int)>) -> bool {
    &&& labels.len() == bounds.spec_width() * bounds.spec_height()
    &&& forall|x: int, y: int|
        #![trigger at(labels, bounds, x, y)]
        bounds.spec_contains(x, y) ==> {
            &&& (at(labels, bounds, x, y) == -1 <==> !mpass(bounds, pass, x, y))
            &&& -1 <= at(labels, bounds, x, y) < starts.len()
            &&& at(labels, bounds, x, y) != -1 ==> reachable(
                bounds,
                pass,
                starts[at(labels, bounds, x, y) as int],
                (x, y),
            )
        }
    &&& forall|x: int, y: int, nx: int, ny: int|
        #![trigger at(labels, bounds, x, y), at(labels, bounds, nx, ny)]
        mpass(bounds, pass, x, y) && mpass(bounds, pass, nx, ny) && adj((x, y), (nx, ny)) ==> at(
            labels,
            bounds,
            x,
            y,
        ) == at(labels, bounds, nx, ny)
    &&& forall|k: int| 0 <= k < starts.len() ==> at(labels, bounds, (#[trigger] starts[k]).0, starts[k].1) == k
    &&& forall|k: int| 0 <= k < starts.len() ==> bounds.spec_contains((#[trigger] starts[k]).0, starts[k].1)
}

/// The finding bounds and counts exactly the cells carrying label `k`.
pub open spec fn finding_ok(bounds: Rect, labels: Seq<i32>, f: Finding, k: int) -> bool {
    &&& cells_labelled(labels, bounds, k).finite()
    &&& f.cell_count == cells_labelled(labels, bounds, k).len()
    &&& forall|x: int, y: int|
        #![trigger at(labels, bounds, x, y)]
        bounds.spec_contains(x, y) && at(labels, bounds, x, y) == k ==> f.bounds.spec_contains(x, y)
    &&& exists|c: (int, int)| #[trigger] cells_labelled(labels, bounds, k).contains(c) && c.0 == f.bounds.x0
    &&& exists|c: (int, int)| #[trigger] cells_labelled(labels, bounds, k).contains(c) && c.1 == f.bounds.y0
    &&& exists|c: (int, int)| #[trigger] cells_labelled(labels, bounds, k).contains(c) && c.0 == f.bounds.x1 - 1
    &&& exists|c: (int, int)| #[trigger] cells_labelled(labels, bounds, k).contains(c) && c.1 == f.bounds.y1 - 1
}

/// Four cells carrying label `k` lie on the four edges of `bx`.
pub open spec fn box_attained(bounds: Rect, labels: Seq<i32>, k: int, bx: Rect, w: Seq<(int, int)>) -> bool {
    &&& w.len() == 4
    &&& forall|i: int| 0 <= i < 4 ==> #[trigger] cells_labelled(labels, bounds, k).contains(w[i])
    &&& w[0].0 == bx.x0
    &&& w[1].1 == bx.y0
    &&& w[2].0 == bx.x1 - 1
    &&& w[3].1 == bx.y1 - 1
}

/// Each finding bounds and counts exactly the cells of its own label.
pub open spec fn findings_ok(bounds: Rect, labels: Seq<i32>, findings: Seq<Finding>) -> bool {
    forall|k: int| 0 <= k < findings.len() ==> #[trigger] finding_ok(bounds, labels, findings[k], k)
}


/// Every labelled cell that is neither on the stack nor `pend` has all
/// its passable neighbours carrying its own label.
pub open spec fn closed_except(bounds: Rect, pass: spec_fn(int, int) -> bool, labels: Seq<i32>, stack: Seq<(i32, i32)>, pend: Option<(int, int)>) -> bool {
    forall|x: int, y: int, nx: int, ny: int|
        #![trigger at(labels, bounds, x, y), at(labels, bounds, nx, ny)]
        bounds.spec_contains(x, y) && at(labels, bounds, x, y) != -1 && !stack.contains((x as i32, y as i32))
            && pend != Some((x, y)) && mpass(bounds, pass, nx, ny) && adj((x, y), (nx, ny)) ==> at(
            labels,
            bounds,
            x,
            y,
        ) == at(labels, bounds, nx, ny)
}

/// The labels so far: in range, only on passable cells, each reached from
/// its own start.
pub open spec fn base_ok(bounds: Rect, pass: spec_fn(int, int) -> bool, labels: Seq<i32>, starts: Seq<(int, int)>) -> bool {
    &&& labels.len() == bounds.spec_width() * bounds.spec_height()
    &&& forall|x: int, y: int|
        #![trigger at(labels, bounds, x, y)]
        bounds.spec_contains(x, y) ==> {
            &&& -1 <= at(labels, bounds, x, y) < starts.len()
            &&& at(labels, bounds, x, y) != -1 ==> mpass(bounds, pass, x, y)
            &&& at(labels, bounds, x, y) != -1 ==> reachable(
                bounds,
                pass,
                starts[at(labels, bounds, x, y) as int],
                (x, y),
            )
        }
    &&& forall|k: int| 0 <= k < starts.len() ==> at(labels, bounds, (#[trigger] starts[k]).0, starts[k].1) == k
    &&& forall|k: int| 0 <= k < starts.len() ==> bounds.spec_contains((#[trigger] starts[k]).0, starts[k].1)
}

pub open spec fn stack_ok(bounds: Rect, labels: Seq<i32>, stack: Seq<(i32, i32)>, cur: int) -> bool {
    &&& stack.no_duplicates()
    &&& forall|i: int|
        0 <= i < stack.len() ==> bounds.spec_contains((#[trigger] stack[i]).0 as int, stack[i].1 as int)
            && at(labels, bounds, stack[i].0 as int, stack[i].1 as int) == cur
}

/// Every passable cell before `(x, y)` in raster order is labelled.
pub open spec fn progress_ok(bounds: Rect, pass: spec_fn(int, int) -> bool, labels: Seq<i32>, x: int, y: int) -> bool {
    forall|cx: int, cy: int|
        #![trigger at(labels, bounds, cx, cy)]
        bounds.spec_contains(cx, cy) && (cy < y || (cy == y && cx < x)) && mpass(bounds, pass, cx, cy)
            ==> at(labels, bounds, cx, cy) != -1
}

/// The current label's popped cells: exactly those carrying it and off the
/// stack, all inside the running box.
pub open spec fn popped_ok(bounds: Rect, labels: Seq<i32>, stack: Seq<(i32, i32)>, cur: int, popped: Set<(int, int)>, bx: Rect) -> bool {
    &&& popped.finite()
    &&& forall|c: (int, int)|
        #[trigger] popped.contains(c) <==> (bounds.spec_contains(c.0, c.1) && at(labels, bounds, c.0, c.1)
            == cur && !stack.contains((c.0 as i32, c.1 as i32)))
    &&& forall|c: (int, int)| #[trigger] popped.contains(c) ==> bx.spec_contains(c.0, c.1)
}

/// The cell indices that carry a label.
pub open spec fn labelled_set(labels: Seq<i32>) -> Set<int> {
    Set::new(|i: int| 0 <= i < labels.len() && labels[i] != -1)
}

pub proof fn lemma_labelled_bound(labels: Seq<i32>)
    ensures
        labelled_set(labels).finite(),
        labelled_set(labels).len() <= labels.len(),
{
    let r = vstd::set_lib::set_int_range(0, labels.len() as int);
    vstd::set_lib::lemma_int_range(0, labels.len() as int);
    assert(labelled_set(labels).subset_of(r));
    vstd::set_lib::lemma_len_subset(labelled_set(labels), r);
}

pub proof fn lemma_labelled_insert(labels: Seq<i32>, i: int, v: i32)
    requires
        0 <= i < labels.len(),
        labels[i] == -1,
        v != -1,
    ensures
        labelled_set(labels.update(i, v)) == labelled_set(labels).insert(i),
        !labelled_set(labels).contains(i),
        labelled_set(labels.update(i, v)).len() == labelled_set(labels).len() + 1,
{
    lemma_labelled_bound(labels);
    assert(labelled_set(labels.update(i, v)) =~= labelled_set(labels).insert(i));
}

/// Updating one cell's label leaves every other cell's label unchanged.
pub proof fn lemma_at_update(bounds: Rect, labels: Seq<i32>, x: int, y: int, v: i32, x2: int, y2: int)
    requires
        bits::grid_bounds_ok(bounds, LABEL_MAX_CELLS as int),
        labels.len() == bounds.spec_width() * bounds.spec_height(),
        bounds.spec_contains(x, y),
        bounds.spec_contains(x2, y2),
    ensures
        at(labels.update(spec_cell_index(bounds, x, y).unwrap(), v), bounds, x2, y2) == if x == x2 && y == y2 {
            v
        } else {
            at(labels, bounds, x2, y2)
        },
{
    lemma_cell_index_bounds(bounds, x, y);
    lemma_cell_index_bounds(bounds, x2, y2);
    if x != x2 || y != y2 {
        lemma_cell_index_injective(bounds, x, y, x2, y2);
    }
}

/// Labelling one unlabelled cell with a label no finding has yet keeps
/// every finding exact.
pub proof fn lemma_findings_frame(bounds: Rect, b: Seq<i32>, a: Seq<i32>, findings: Seq<Finding>, nx: int, ny: int, v: i32)
    requires
        bits::grid_bounds_ok(bounds, LABEL_MAX_CELLS as int),
        b.len() == bounds.spec_width() * bounds.spec_height(),
        bounds.spec_contains(nx, ny),
        at(b, bounds, nx, ny) == -1,
        v >= findings.len(),
        a == b.update(spec_cell_index(bounds, nx, ny).unwrap(), v),
        findings_ok(bounds, b, findings),
    ensures
        findings_ok(bounds, a, findings),
{
    lemma_cell_index_bounds(bounds, nx, ny);
    assert forall|x2: int, y2: int|
        #![trigger at(a, bounds, x2, y2)]
        bounds.spec_contains(x2, y2) implies at(a, bounds, x2, y2) == if x2 == nx && y2 == ny {
            v
        } else {
            at(b, bounds, x2, y2)
        } by {
        lemma_at_update(bounds, b, nx, ny, v, x2, y2);
    }
    assert forall|k: int| 0 <= k < findings.len() implies #[trigger] cells_labelled(a, bounds, k) == cells_labelled(b, bounds, k) by {
        assert forall|c: (int, int)| cells_labelled(a, bounds, k).contains(c) == cells_labelled(b, bounds, k).contains(c) by {
            if bounds.spec_contains(c.0, c.1) {
                assert(at(a, bounds, c.0, c.1) == at(a, bounds, c.0, c.1));
            }
        }
        assert(cells_labelled(a, bounds, k) =~= cells_labelled(b, bounds, k));
    }
    assert forall|k: int| 0 <= k < findings.len() implies #[trigger] finding_ok(bounds, a, findings[k], k) by {
        assert(finding_ok(bounds, b, findings[k], k));
        assert(cells_labelled(a, bounds, k) == cells_labelled(b, bounds, k));
        assert forall|x2: int, y2: int|
            #![trigger at(a, bounds, x2, y2)]
            bounds.spec_contains(x2, y2) && at(a, bounds, x2, y2) == k implies findings[k].bounds.spec_contains(
                x2,
                y2,
            ) by {
            assert(at(b, bounds, x2, y2) == k);
        }
    }
}

/// Labelling a fresh neighbour of a popped cell keeps every invariant of
/// the flood fill.
pub proof fn lemma_visit(
    bounds: Rect,
    pass: spec_fn(int, int) -> bool,
    b: Seq<i32>,
    a: Seq<i32>,
    bs: Seq<(i32, i32)>,
    as_: Seq<(i32, i32)>,
    starts: Seq<(int, int)>,
    label: int,
    cx: int,
    cy: int,
    nx: int,
    ny: int,
    popped: Set<(int, int)>,
    bx: Rect,
    findings: Seq<Finding>,
    px: int,
    py: int,
)
    requires
        bits::grid_bounds_ok(bounds, LABEL_MAX_CELLS as int),
        bounds.spec_contains(nx, ny),
        bounds.spec_contains(cx, cy),
        a == b.update(spec_cell_index(bounds, nx, ny).unwrap(), label as i32),
        as_ == bs.push((nx as i32, ny as i32)),
        at(b, bounds, nx, ny) == -1,
        mpass(bounds, pass, nx, ny),
        adj((cx, cy), (nx, ny)),
        at(b, bounds, cx, cy) == label,
        label == starts.len() - 1,
        label == findings.len(),
        base_ok(bounds, pass, b, starts),
        closed_except(bounds, pass, b, bs, Some((cx, cy))),
        stack_ok(bounds, b, bs, label),
        progress_ok(bounds, pass, b, px, py),
        findings_ok(bounds, b, findings),
        popped_ok(bounds, b, bs, label, popped, bx),
    ensures
        base_ok(bounds, pass, a, starts),
        closed_except(bounds, pass, a, as_, Some((cx, cy))),
        stack_ok(bounds, a, as_, label),
        progress_ok(bounds, pass, a, px, py),
        findings_ok(bounds, a, findings),
        popped_ok(bounds, a, as_, label, popped, bx),
        at(a, bounds, nx, ny) == label,
        at(a, bounds, cx, cy) == label,
        forall|x2: int, y2: int|
            #![trigger at(a, bounds, x2, y2)]
            bounds.spec_contains(x2, y2) && (x2 != nx || y2 != ny) ==> at(a, bounds, x2, y2) == at(
                b,
                bounds,
                x2,
                y2,
            ),
        labelled_set(a) == labelled_set(b).insert(spec_cell_index(bounds, nx, ny).unwrap()),
        labelled_set(a).len() == labelled_set(b).len() + 1,
{
    let ni = spec_cell_index(bounds, nx, ny).unwrap();
    lemma_cell_index_bounds(bounds, nx, ny);
    assert forall|x2: int, y2: int|
        #![trigger at(a, bounds, x2, y2)]
        bounds.spec_contains(x2, y2) implies at(a, bounds, x2, y2) == if x2 == nx && y2 == ny {
            label as i32
        } else {
            at(b, bounds, x2, y2)
        } by {
        lemma_at_update(bounds, b, nx, ny, label as i32, x2, y2);
    }
    lemma_labelled_insert(b, ni, label as i32);
    // base
    assert forall|x2: int, y2: int|
        #![trigger at(a, bounds, x2, y2)]
        bounds.spec_contains(x2, y2) implies {
            &&& -1 <= at(a, bounds, x2, y2) < starts.len()
            &&& at(a, bounds, x2, y2) != -1 ==> mpass(bounds, pass, x2, y2)
            &&& at(a, bounds, x2, y2) != -1 ==> reachable(
                bounds,
                pass,
                starts[at(a, bounds, x2, y2) as int],
                (x2, y2),
            )
        } by {
        assert(at(b, bounds, x2, y2) == at(b, bounds, x2, y2));
        if x2 == nx && y2 == ny {
            assert(at(b, bounds, cx, cy) == label);
            lemma_reach_extend(bounds, pass, starts[label], (cx, cy), (nx, ny));
        }
    }
    assert forall|k: int| 0 <= k < starts.len() implies at(a, bounds, (#[trigger] starts[k]).0, starts[k].1) == k by {
        assert(at(b, bounds, starts[k].0, starts[k].1) == k);
    }
    // closure
    assert forall|x2: int, y2: int, mx: int, my: int|
        #![trigger at(a, bounds, x2, y2), at(a, bounds, mx, my)]
        bounds.spec_contains(x2, y2) && at(a, bounds, x2, y2) != -1 && !as_.contains((x2 as i32, y2 as i32))
            && Some((cx, cy)) != Some((x2, y2)) && mpass(bounds, pass, mx, my) && adj((x2, y2), (mx, my)) implies at(
            a,
            bounds,
            x2,
            y2,
        ) == at(a, bounds, mx, my) by {
        if x2 == nx && y2 == ny {
            assert(as_[as_.len() - 1] == (nx as i32, ny as i32));
        } else {
            assert(!bs.contains((x2 as i32, y2 as i32))) by {
                if bs.contains((x2 as i32, y2 as i32)) {
                    let i = choose|i: int| 0 <= i < bs.len() && bs[i] == (x2 as i32, y2 as i32);
                    assert(as_[i] == bs[i]);
                }
            }
            assert(at(b, bounds, x2, y2) == at(b, bounds, mx, my));
            assert(at(b, bounds, mx, my) == at(b, bounds, mx, my));
        }
    }
    // stack
    assert(!bs.contains((nx as i32, ny as i32))) by {
        if bs.contains((nx as i32, ny as i32)) {
            let i = choose|i: int| 0 <= i < bs.len() && bs[i] == (nx as i32, ny as i32);
            assert(at(b, bounds, bs[i].0 as int, bs[i].1 as int) == label);
        }
    }
    assert forall|i: int|
        0 <= i < as_.len() implies bounds.spec_contains((#[trigger] as_[i]).0 as int, as_[i].1 as int)
            && at(a, bounds, as_[i].0 as int, as_[i].1 as int) == label by {
        if i < bs.len() {
            assert(as_[i] == bs[i]);
            assert(at(b, bounds, bs[i].0 as int, bs[i].1 as int) == label);
        }
    }
    assert(as_.no_duplicates()) by {
        assert forall|i: int, j: int| 0 <= i < as_.len() && 0 <= j < as_.len() && i != j implies as_[i] != as_[j] by {
            if i < bs.len() && j < bs.len() {
                assert(as_[i] == bs[i] && as_[j] == bs[j]);
            } else if i < bs.len() {
                assert(as_[i] == bs[i]);
                assert(bs.contains(bs[i]));
            } else {
                assert(as_[j] == bs[j]);
                assert(bs.contains(bs[j]));
            }
        }
    }
    // progress
    assert forall|x2: int, y2: int|
        #![trigger at(a, bounds, x2, y2)]
        bounds.spec_contains(x2, y2) && (y2 < py || (y2 == py && x2 < px)) && mpass(bounds, pass, x2, y2)
            implies at(a, bounds, x2, y2) != -1 by {
        assert(at(b, bounds, x2, y2) == at(b, bounds, x2, y2));
    }
    lemma_findings_frame(bounds, b, a, findings, nx, ny, label as i32);
    // popped
    assert forall|c: (int, int)|
        #[trigger] popped.contains(c) <==> (bounds.spec_contains(c.0, c.1) && at(a, bounds, c.0, c.1)
            == label && !as_.contains((c.0 as i32, c.1 as i32))) by {
        if bounds.spec_contains(c.0, c.1) {
            assert(at(a, bounds, c.0, c.1) == at(a, bounds, c.0, c.1));
            if c.0 == nx && c.1 == ny {
                assert(as_[as_.len() - 1] == (nx as i32, ny as i32));
            } else {
                assert(as_.contains((c.0 as i32, c.1 as i32)) == bs.contains((c.0 as i32, c.1 as i32))) by {
                    if as_.contains((c.0 as i32, c.1 as i32)) {
                        let i = choose|i: int| 0 <= i < as_.len() && as_[i] == (c.0 as i32, c.1 as i32);
                        assert(i < bs.len());
                        assert(bs[i] == as_[i]);
                    }
                    if bs.contains((c.0 as i32, c.1 as i32)) {
                        let i = choose|i: int| 0 <= i < bs.len() && bs[i] == (c.0 as i32, c.1 as i32);
                        assert(as_[i] == bs[i]);
                    }
                }
            }
        }
    }
}

fn neighbour(cx: i32, cy: i32, d: u32) -> (r: (i64, i64))
    requires
        d < 4,
    ensures
        adj((cx as int, cy as int), (r.0 as int, r.1 as int)),
        d == 0 ==> r.0 == cx + 1 && r.1 == cy,
        d == 1 ==> r.0 == cx - 1 && r.1 == cy,
        d == 2 ==> r.0 == cx && r.1 == cy + 1,
        d == 3 ==> r.0 == cx && r.1 == cy - 1,
{
    if d == 0 {
        (cx as i64 + 1, cy as i64)
    } else if d == 1 {
        (cx as i64 - 1, cy as i64)
    } else if d == 2 {
        (cx as i64, cy as i64 + 1)
    } else {
        (cx as i64, cy as i64 - 1)
    }
}

/// Labelling the first unlabelled passable cell starts a new component
/// and keeps every invariant of the flood fill.
pub proof fn lemma_start(
    bounds: Rect,
    pass: spec_fn(int, int) -> bool,
    b: Seq<i32>,
    a: Seq<i32>,
    starts: Seq<(int, int)>,
    findings: Seq<Finding>,
    x: int,
    y: int,
)
    requires
        bits::grid_bounds_ok(bounds, LABEL_MAX_CELLS as int),
        bounds.spec_contains(x, y),
        a == b.update(spec_cell_index(bounds, x, y).unwrap(), starts.len() as i32),
        at(b, bounds, x, y) == -1,
        mpass(bounds, pass, x, y),
        starts.len() == findings.len(),
        starts.len() < i32::MAX,
        base_ok(bounds, pass, b, starts),
        closed_except(bounds, pass, b, Seq::empty(), None),
        progress_ok(bounds, pass, b, x, y),
        findings_ok(bounds, b, findings),
    ensures
        base_ok(bounds, pass, a, starts.push((x, y))),
        closed_except(bounds, pass, a, seq![(x as i32, y as i32)], None),
        stack_ok(bounds, a, seq![(x as i32, y as i32)], starts.len() as int),
        progress_ok(bounds, pass, a, x + 1, y),
        findings_ok(bounds, a, findings),
        popped_ok(bounds, a, seq![(x as i32, y as i32)], starts.len() as int, Set::empty(), Rect { x0: x as i32, y0: y as i32, x1: (x + 1) as i32, y1: (y + 1) as i32 }),
        labelled_set(a) == labelled_set(b).insert(spec_cell_index(bounds, x, y).unwrap()),
        labelled_set(a).len() == labelled_set(b).len() + 1,
{
    let label = starts.len() as i32;
    let ns = starts.push((x, y));
    let st = seq![(x as i32, y as i32)];
    let ni = spec_cell_index(bounds, x, y).unwrap();
    lemma_cell_index_bounds(bounds, x, y);
    assert forall|x2: int, y2: int|
        #![trigger at(a, bounds, x2, y2)]
        bounds.spec_contains(x2, y2) implies at(a, bounds, x2, y2) == if x2 == x && y2 == y {
            label
        } else {
            at(b, bounds, x2, y2)
        } by {
        lemma_at_update(bounds, b, x, y, label, x2, y2);
    }
    lemma_labelled_insert(b, ni, label);
    assert forall|x2: int, y2: int|
        #![trigger at(a, bounds, x2, y2)]
        bounds.spec_contains(x2, y2) implies {
            &&& -1 <= at(a, bounds, x2, y2) < ns.len()
            &&& at(a, bounds, x2, y2) != -1 ==> mpass(bounds, pass, x2, y2)
            &&& at(a, bounds, x2, y2) != -1 ==> reachable(
                bounds,
                pass,
                ns[at(a, bounds, x2, y2) as int],
                (x2, y2),
            )
        } by {
        assert(at(b, bounds, x2, y2) == at(b, bounds, x2, y2));
        if x2 == x && y2 == y {
            lemma_reach_refl(bounds, pass, (x, y));
        } else if at(b, bounds, x2, y2) != -1 {
            assert(ns[at(b, bounds, x2, y2) as int] == starts[at(b, bounds, x2, y2) as int]);
        }
    }
    assert forall|k: int| 0 <= k < ns.len() implies at(a, bounds, (#[trigger] ns[k]).0, ns[k].1) == k by {
        if k < starts.len() {
            assert(ns[k] == starts[k]);
            assert(at(b, bounds, starts[k].0, starts[k].1) == k);
            assert(bounds.spec_contains(starts[k].0, starts[k].1));
        }
    }
    assert forall|k: int| 0 <= k < ns.len() implies bounds.spec_contains((#[trigger] ns[k]).0, ns[k].1) by {
        if k < starts.len() {
            assert(ns[k] == starts[k]);
        }
    }
    assert forall|x2: int, y2: int, mx: int, my: int|
        #![trigger at(a, bounds, x2, y2), at(a, bounds, mx, my)]
        bounds.spec_contains(x2, y2) && at(a, bounds, x2, y2) != -1 && !st.contains((x2 as i32, y2 as i32))
            && None::<(int, int)> != Some((x2, y2)) && mpass(bounds, pass, mx, my) && adj((x2, y2), (mx, my)) implies at(
            a,
            bounds,
            x2,
            y2,
        ) == at(a, bounds, mx, my) by {
        if x2 == x && y2 == y {
            assert(st[0] == (x as i32, y as i32));
        } else {
            assert(!Seq::<(i32, i32)>::empty().contains((x2 as i32, y2 as i32)));
            assert(at(b, bounds, x2, y2) == at(b, bounds, mx, my));
            assert(at(b, bounds, mx, my) == at(b, bounds, mx, my));
        }
    }
    assert forall|x2: int, y2: int|
        #![trigger at(a, bounds, x2, y2)]
        bounds.spec_contains(x2, y2) && (y2 < y || (y2 == y && x2 < x + 1)) && mpass(bounds, pass, x2, y2)
            implies at(a, bounds, x2, y2) != -1 by {
        assert(at(b, bounds, x2, y2) == at(b, bounds, x2, y2));
    }
    lemma_findings_frame(bounds, b, a, findings, x, y, label);
    assert forall|c: (int, int)|
        #[trigger] Set::<(int, int)>::empty().contains(c) <==> (bounds.spec_contains(c.0, c.1) && at(a, bounds, c.0, c.1)
            == label && !st.contains((c.0 as i32, c.1 as i32))) by {
        if bounds.spec_contains(c.0, c.1) && at(a, bounds, c.0, c.1) == label {
            assert(at(a, bounds, c.0, c.1) == at(a, bounds, c.0, c.1));
            if c.0 != x || c.1 != y {
                assert(at(b, bounds, c.0, c.1) == label);
            }
            assert(st[0] == (c.0 as i32, c.1 as i32));
        }
    }
}

/// Labels every cell `mask` accepts into 4-connected components, in raster
/// order (row-major from `bounds`'s own north-west corner), iteratively
/// with an explicit stack. Returns a label per cell (`-1` = not passable)
/// and one [`Finding`] per label, in label order, with each label's start
/// cell as a ghost.
pub(crate) fn label_components(bounds: Rect, mask: &Vec<bool>, Ghost(pass): Ghost<spec_fn(int, int) -> bool>) -> (r: (Vec<i32>, Vec<Finding>, Ghost<Seq<(int, int)>>))
    requires
        bits::grid_bounds_ok(bounds, LABEL_MAX_CELLS as int),
        mask.len() == bounds.spec_width() * bounds.spec_height(),
        mask_matches(bounds, mask@, pass),
    ensures
        labelling_ok(bounds, pass, r.0@, r.2@),
        r.1.len() == r.2@.len(),
        r.1.len() <= mask.len(),
        findings_ok(bounds, r.0@, r.1@),
{
    let total = mask.len();
    let mut labels: Vec<i32> = vec![-1i32; total];
    let mut findings: Vec<Finding> = Vec::new();
    let mut stack: Vec<(i32, i32)> = Vec::new();
    let ghost mut starts: Seq<(int, int)> = Seq::empty();
    proof {
        assert forall|k: int| 0 <= k < total implies labels@[k] == -1 by {
            assert(vstd::pervasive::cloned(-1i32, labels@[k]));
        }
        assert forall|x: int, y: int|
            #![trigger at(labels@, bounds, x, y)]
            bounds.spec_contains(x, y) implies at(labels@, bounds, x, y) == -1 by {
            lemma_cell_index_bounds(bounds, x, y);
        }
        assert(labelled_set(labels@) =~= Set::<int>::empty());
    }
    let mut y = bounds.y0;
    while y < bounds.y1
        invariant
            bits::grid_bounds_ok(bounds, LABEL_MAX_CELLS as int),
            mask.len() == total,
            mask_matches(bounds, mask@, pass),
            total == bounds.spec_width() * bounds.spec_height(),
            bounds.y0 <= y <= bounds.y1,
            base_ok(bounds, pass, labels@, starts),
            closed_except(bounds, pass, labels@, stack@, None),
            stack@ == Seq::<(i32, i32)>::empty(),
            progress_ok(bounds, pass, labels@, bounds.x0 as int, y as int),
            findings.len() == starts.len(),
            findings_ok(bounds, labels@, findings@),
            starts.len() <= labelled_set(labels@).len(),
        decreases bounds.y1 - y,
    {
        let mut x = bounds.x0;
        while x < bounds.x1
            invariant
                bits::grid_bounds_ok(bounds, LABEL_MAX_CELLS as int),
                mask.len() == total,
                mask_matches(bounds, mask@, pass),
                total == bounds.spec_width() * bounds.spec_height(),
                bounds.y0 <= y < bounds.y1,
                bounds.x0 <= x <= bounds.x1,
                base_ok(bounds, pass, labels@, starts),
                closed_except(bounds, pass, labels@, stack@, None),
                stack@ == Seq::<(i32, i32)>::empty(),
                progress_ok(bounds, pass, labels@, x as int, y as int),
                findings.len() == starts.len(),
                findings_ok(bounds, labels@, findings@),
                starts.len() <= labelled_set(labels@).len(),
            decreases bounds.x1 - x,
        {
            let start_idx = idx_of(bounds, x, y);
            proof {
                assert(mask@[start_idx as int] == pass(x as int, y as int));
            }
            if labels[start_idx] != -1 || !mask[start_idx] {
                proof {
                    assert forall|cx: int, cy: int|
                        #![trigger at(labels@, bounds, cx, cy)]
                        bounds.spec_contains(cx, cy) && (cy < y || (cy == y && cx < x + 1)) && mpass(bounds, pass, cx, cy)
                            implies at(labels@, bounds, cx, cy) != -1 by {
                        if cx == x && cy == y {
                            lemma_cell_index_bounds(bounds, x as int, y as int);
                        }
                    }
                }
                x += 1;
                continue;
            }
            proof {
                lemma_cell_index_bounds(bounds, x as int, y as int);
                lemma_labelled_insert(labels@, start_idx as int, 0i32);
                lemma_labelled_bound(labels@.update(start_idx as int, 0i32));
            }
            let label = findings.len() as i32;
            let ghost b = labels@;
            let ghost base_l = labelled_set(labels@).len();
            labels.set(start_idx, label);
            proof {
                lemma_start(bounds, pass, b, labels@, starts, findings@, x as int, y as int);
                starts = starts.push((x as int, y as int));
            }
            stack.push((x, y));
            let (mut x0, mut y0, mut x1, mut y1) = (x, y, x + 1, y + 1);
            let ghost mut w: Seq<(int, int)> = seq![(x as int, y as int), (x as int, y as int), (x as int, y as int), (x as int, y as int)];
            proof {
                assert(cells_labelled(labels@, bounds, label as int).contains((x as int, y as int)));
            }
            let mut count: u64 = 0;
            let ghost mut popped: Set<(int, int)> = Set::empty();
            proof {
                assert(stack@ =~= seq![(x, y)]);
                lemma_labelled_bound(labels@);
            }
            while stack.len() > 0
                invariant
                    bits::grid_bounds_ok(bounds, LABEL_MAX_CELLS as int),
                    mask.len() == total,
                    mask_matches(bounds, mask@, pass),
                    total == bounds.spec_width() * bounds.spec_height(),
                    bounds.y0 <= y < bounds.y1,
                    bounds.x0 <= x < bounds.x1,
                    label == findings.len(),
                    starts.len() == findings.len() + 1,
                    base_ok(bounds, pass, labels@, starts),
                    closed_except(bounds, pass, labels@, stack@, None),
                    stack_ok(bounds, labels@, stack@, label as int),
                    progress_ok(bounds, pass, labels@, x as int + 1, y as int),
                    findings_ok(bounds, labels@, findings@),
                    popped_ok(bounds, labels@, stack@, label as int, popped, Rect { x0, y0, x1, y1 }),
                    box_attained(bounds, labels@, label as int, Rect { x0, y0, x1, y1 }, w),
                    count == popped.len(),
                    popped.len() + stack@.len() + base_l == labelled_set(labels@).len(),
                    labelled_set(labels@).len() <= total,
                    starts.len() <= labelled_set(labels@).len(),
                    bounds.x0 <= x0 < x1 <= bounds.x1,
                    bounds.y0 <= y0 < y1 <= bounds.y1,
                decreases 2 * (total - labelled_set(labels@).len()) + stack@.len(),
            {
                let ghost m0 = 2 * (total - labelled_set(labels@).len()) + stack@.len();
                let ghost before_pop = stack@;
                let (cx, cy) = stack.pop().unwrap();
                proof {
                    assert(stack@ =~= before_pop.drop_last());
                    assert(before_pop[before_pop.len() - 1] == (cx, cy));
                    assert(!stack@.contains((cx, cy))) by {
                        if stack@.contains((cx, cy)) {
                            let i = choose|i: int| 0 <= i < stack@.len() && stack@[i] == (cx, cy);
                            assert(before_pop[i] == before_pop[before_pop.len() - 1]);
                        }
                    }
                    assert(before_pop.contains((cx, cy)));
                    assert(!popped.contains((cx as int, cy as int)));
                    assert(bounds.spec_contains(cx as int, cy as int) && at(labels@, bounds, cx as int, cy as int) == label);
                    let old_popped = popped;
                    popped = popped.insert((cx as int, cy as int));
                    assert forall|c: (int, int)|
                        #[trigger] popped.contains(c) <==> (bounds.spec_contains(c.0, c.1) && at(labels@, bounds, c.0, c.1)
                            == label && !stack@.contains((c.0 as i32, c.1 as i32))) by {
                        if c != (cx as int, cy as int) && bounds.spec_contains(c.0, c.1) {
                            assert(stack@.contains((c.0 as i32, c.1 as i32)) == before_pop.contains((c.0 as i32, c.1 as i32))) by {
                                if before_pop.contains((c.0 as i32, c.1 as i32)) {
                                    let i = choose|i: int| 0 <= i < before_pop.len() && before_pop[i] == (c.0 as i32, c.1 as i32);
                                    assert(i < stack@.len());
                                    assert(stack@[i] == before_pop[i]);
                                }
                            }
                        }
                    }
                    assert forall|i: int|
                        0 <= i < stack@.len() implies bounds.spec_contains((#[trigger] stack@[i]).0 as int, stack@[i].1 as int)
                            && at(labels@, bounds, stack@[i].0 as int, stack@[i].1 as int) == label by {
                        assert(stack@[i] == before_pop[i]);
                    }
                    assert forall|x_: int, y_: int, nx: int, ny: int|
                        #![trigger at(labels@, bounds, x_, y_), at(labels@, bounds, nx, ny)]
                        bounds.spec_contains(x_, y_) && at(labels@, bounds, x_, y_) != -1 && !stack@.contains((x_ as i32, y_ as i32))
                            && Some((cx as int, cy as int)) != Some((x_, y_)) && mpass(bounds, pass, nx, ny) && adj((x_, y_), (nx, ny)) implies at(
                            labels@,
                            bounds,
                            x_,
                            y_,
                        ) == at(labels@, bounds, nx, ny) by {
                        if before_pop.contains((x_ as i32, y_ as i32)) {
                            let i = choose|i: int| 0 <= i < before_pop.len() && before_pop[i] == (x_ as i32, y_ as i32);
                            if i < stack@.len() {
                                assert(stack@[i] == before_pop[i]);
                            }
                        }
                    }
                }
                count += 1;
                proof {
                    assert(cells_labelled(labels@, bounds, label as int).contains((cx as int, cy as int)));
                }
                if cx < x0 {
                    x0 = cx;
                    proof { w = w.update(0, (cx as int, cy as int)); }
                }
                if cy < y0 {
                    y0 = cy;
                    proof { w = w.update(1, (cx as int, cy as int)); }
                }
                if cx + 1 > x1 {
                    x1 = cx + 1;
                    proof { w = w.update(2, (cx as int, cy as int)); }
                }
                if cy + 1 > y1 {
                    y1 = cy + 1;
                    proof { w = w.update(3, (cx as int, cy as int)); }
                }
                proof {
                    assert forall|c: (int, int)| #[trigger] popped.contains(c) implies (Rect { x0, y0, x1, y1 }).spec_contains(c.0, c.1) by {}
                }
                let mut d: u32 = 0;
                while d < 4
                    invariant
                        bits::grid_bounds_ok(bounds, LABEL_MAX_CELLS as int),
                        mask.len() == total,
                        mask_matches(bounds, mask@, pass),
                        total == bounds.spec_width() * bounds.spec_height(),
                        bounds.y0 <= y < bounds.y1,
                        bounds.x0 <= x < bounds.x1,
                        label == findings.len(),
                        starts.len() == findings.len() + 1,
                        bounds.spec_contains(cx as int, cy as int),
                        at(labels@, bounds, cx as int, cy as int) == label,
                        !stack@.contains((cx, cy)),
                        0 <= d <= 4,
                        base_ok(bounds, pass, labels@, starts),
                        closed_except(bounds, pass, labels@, stack@, Some((cx as int, cy as int))),
                        stack_ok(bounds, labels@, stack@, label as int),
                        progress_ok(bounds, pass, labels@, x as int + 1, y as int),
                        findings_ok(bounds, labels@, findings@),
                        popped_ok(bounds, labels@, stack@, label as int, popped, Rect { x0, y0, x1, y1 }),
                        box_attained(bounds, labels@, label as int, Rect { x0, y0, x1, y1 }, w),
                        popped.contains((cx as int, cy as int)),
                        count == popped.len(),
                        popped.len() + stack@.len() + base_l == labelled_set(labels@).len(),
                        labelled_set(labels@).len() <= total,
                        starts.len() <= labelled_set(labels@).len(),
                        2 * (total - labelled_set(labels@).len()) + stack@.len() < m0,
                        bounds.x0 <= x0 < x1 <= bounds.x1,
                        bounds.y0 <= y0 < y1 <= bounds.y1,
                        forall|nx: int, ny: int|
                            #![trigger at(labels@, bounds, nx, ny)]
                            mpass(bounds, pass, nx, ny) && adj((cx as int, cy as int), (nx, ny)) && (
                            (d > 0 && nx == cx + 1 && ny == cy) || (d > 1 && nx == cx - 1 && ny == cy)
                                || (d > 2 && nx == cx && ny == cy + 1) || (d > 3 && nx == cx && ny == cy - 1)) ==> at(labels@, bounds, nx, ny)
                                == label,
                    decreases 4 - d,
                {
                    let (nx, ny) = neighbour(cx, cy, d);
                    if nx >= bounds.x0 as i64 && nx < bounds.x1 as i64 && ny >= bounds.y0 as i64 && ny < bounds.y1 as i64 {
                        let nxi = nx as i32;
                        let nyi = ny as i32;
                        let nidx = idx_of(bounds, nxi, nyi);
                        proof {
                            assert(mask@[nidx as int] == pass(nx as int, ny as int));
                        }
                        if labels[nidx] == -1 && mask[nidx] {
                            let ghost b = labels@;
                            let ghost bs = stack@;
                            labels.set(nidx, label);
                            stack.push((nxi, nyi));
                            proof {
                                lemma_visit(bounds, pass, b, labels@, bs, stack@, starts, label as int, cx as int, cy as int, nx as int, ny as int, popped, Rect { x0, y0, x1, y1 }, findings@, x as int + 1, y as int);
                                lemma_labelled_bound(labels@);
                                assert forall|i: int| 0 <= i < 4 implies #[trigger] cells_labelled(labels@, bounds, label as int).contains(w[i]) by {
                                    assert(cells_labelled(b, bounds, label as int).contains(w[i]));
                                }
                                assert(!stack@.contains((cx, cy))) by {
                                    if stack@.contains((cx, cy)) {
                                        let i = choose|i: int| 0 <= i < stack@.len() && stack@[i] == (cx, cy);
                                        if i < bs.len() {
                                            assert(bs[i] == stack@[i]);
                                        }
                                    }
                                }
                            }
                        } else {
                            proof {
                                lemma_cell_index_bounds(bounds, nx as int, ny as int);
                            }
                        }
                    }
                    d += 1;
                }
                proof {
                    assert forall|x_: int, y_: int, nx: int, ny: int|
                        #![trigger at(labels@, bounds, x_, y_), at(labels@, bounds, nx, ny)]
                        bounds.spec_contains(x_, y_) && at(labels@, bounds, x_, y_) != -1 && !stack@.contains((x_ as i32, y_ as i32))
                            && None::<(int, int)> != Some((x_, y_)) && mpass(bounds, pass, nx, ny) && adj((x_, y_), (nx, ny)) implies at(
                            labels@,
                            bounds,
                            x_,
                            y_,
                        ) == at(labels@, bounds, nx, ny) by {
                        if (x_, y_) == (cx as int, cy as int) {
                            assert(at(labels@, bounds, nx, ny) == label);
                        }
                    }
                }
            }
            proof {
                assert(popped =~= cells_labelled(labels@, bounds, label as int)) by {
                    assert forall|c: (int, int)| popped.contains(c) <==> cells_labelled(labels@, bounds, label as int).contains(c) by {
                        assert(!Seq::<(i32, i32)>::empty().contains((c.0 as i32, c.1 as i32)));
                    }
                }
                assert(stack@ =~= Seq::<(i32, i32)>::empty());
            }
            let ghost fb = findings@;
            findings.push(Finding { bounds: Rect { x0, y0, x1, y1 }, cell_count: count });
            proof {
                assert forall|k: int| 0 <= k < findings.len() implies #[trigger] finding_ok(bounds, labels@, findings@[k], k) by {
                    if k == label {
                        assert forall|xx: int, yy: int|
                            #![trigger at(labels@, bounds, xx, yy)]
                            bounds.spec_contains(xx, yy) && at(labels@, bounds, xx, yy) == k implies findings@[k].bounds.spec_contains(
                                xx,
                                yy,
                            ) by {
                            assert(!Seq::<(i32, i32)>::empty().contains((xx as i32, yy as i32)));
                            assert(popped.contains((xx, yy)));
                        }
                        assert(cells_labelled(labels@, bounds, k).contains(w[0]));
                        assert(cells_labelled(labels@, bounds, k).contains(w[1]));
                        assert(cells_labelled(labels@, bounds, k).contains(w[2]));
                        assert(cells_labelled(labels@, bounds, k).contains(w[3]));
                    } else {
                        assert(findings@[k] == fb[k]);
                        assert(finding_ok(bounds, labels@, fb[k], k));
                    }
                }
            }
            x += 1;
        }
        y += 1;
    }
    proof {
        assert forall|xx: int, yy: int|
            #![trigger at(labels@, bounds, xx, yy)]
            bounds.spec_contains(xx, yy) implies (at(labels@, bounds, xx, yy) == -1 <==> !mpass(bounds, pass, xx, yy)) by {}
        assert forall|xx: int, yy: int, nx: int, ny: int|
            #![trigger at(labels@, bounds, xx, yy), at(labels@, bounds, nx, ny)]
            mpass(bounds, pass, xx, yy) && mpass(bounds, pass, nx, ny) && adj((xx, yy), (nx, ny)) implies at(
                labels@,
                bounds,
                xx,
                yy,
            ) == at(labels@, bounds, nx, ny) by {
            assert(at(labels@, bounds, xx, yy) != -1);
            assert(!Seq::<(i32, i32)>::empty().contains((xx as i32, yy as i32)));
        }
    }
    proof {
        lemma_labelled_bound(labels@);
    }
    (labels, findings, Ghost(starts))
}

/// Along a walk every cell carries the label of the walk's first cell.
proof fn lemma_walk_label(
    bounds: Rect,
    pass: spec_fn(int, int) -> bool,
    labels: Seq<i32>,
    starts: Seq<(int, int)>,
    p: Seq<(int, int)>,
    n: int,
)
    requires
        labelling_ok(bounds, pass, labels, starts),
        is_walk(bounds, pass, p),
        0 <= n < p.len(),
    ensures
        at(labels, bounds, p[n].0, p[n].1) == at(labels, bounds, p[0].0, p[0].1),
    decreases n,
{
    if n > 0 {
        lemma_walk_label(bounds, pass, labels, starts, p, n - 1);
        assert(adj(p[n - 1], p[n]));
        assert(mpass(bounds, pass, p[n - 1].0, p[n - 1].1));
        assert(mpass(bounds, pass, p[n].0, p[n].1));
        assert(at(labels, bounds, p[n - 1].0, p[n - 1].1) == at(labels, bounds, p[n].0, p[n].1));
    }
}

/// Cells joined by a walk are passable and carry one label.
pub proof fn lemma_reach_label(
    bounds: Rect,
    pass: spec_fn(int, int) -> bool,
    labels: Seq<i32>,
    starts: Seq<(int, int)>,
    a: (int, int),
    b: (int, int),
)
    requires
        labelling_ok(bounds, pass, labels, starts),
        reachable(bounds, pass, a, b),
    ensures
        mpass(bounds, pass, a.0, a.1),
        mpass(bounds, pass, b.0, b.1),
        at(labels, bounds, a.0, a.1) == at(labels, bounds, b.0, b.1),
{
    let p = choose|p: Seq<(int, int)>| #[trigger] is_walk(bounds, pass, p) && p[0] == a && p.last() == b;
    assert(mpass(bounds, pass, p[0].0, p[0].1));
    assert(mpass(bounds, pass, p[p.len() - 1].0, p[p.len() - 1].1));
    lemma_walk_label(bounds, pass, labels, starts, p, p.len() - 1);
}

/// The cells a walk from `c` reaches.
pub open spec fn component(bounds: Rect, pass: spec_fn(int, int) -> bool, c: (int, int)) -> Set<(int, int)> {
    Set::new(|d: (int, int)| reachable(bounds, pass, c, d))
}

/// The component of a passable cell is exactly the cells sharing its label.
pub proof fn lemma_component_label(
    bounds: Rect,
    pass: spec_fn(int, int) -> bool,
    labels: Seq<i32>,
    starts: Seq<(int, int)>,
    c: (int, int),
)
    requires
        labelling_ok(bounds, pass, labels, starts),
        mpass(bounds, pass, c.0, c.1),
    ensures
        0 <= at(labels, bounds, c.0, c.1) < starts.len(),
        component(bounds, pass, c) == cells_labelled(labels, bounds, at(labels, bounds, c.0, c.1) as int),
{
    let k = at(labels, bounds, c.0, c.1) as int;
    assert forall|d: (int, int)|
        component(bounds, pass, c).contains(d) == cells_labelled(labels, bounds, k).contains(d) by {
        if reachable(bounds, pass, c, d) {
            lemma_reach_label(bounds, pass, labels, starts, c, d);
        }
        if bounds.spec_contains(d.0, d.1) && at(labels, bounds, d.0, d.1) == k {
            lemma_reach_sym(bounds, pass, starts[k], c);
            lemma_reach_trans(bounds, pass, c, starts[k], d);
        }
    }
    assert(component(bounds, pass, c) =~= cells_labelled(labels, bounds, k));
}

/// `f` counts the cells of the component of `rep` and is their bounding
/// rect.
pub open spec fn region_matches(bounds: Rect, pass: spec_fn(int, int) -> bool, rep: (int, int), f: Finding) -> bool {
    let comp = component(bounds, pass, rep);
    &&& comp.finite()
    &&& f.cell_count == comp.len()
    &&& forall|d: (int, int)| #[trigger] comp.contains(d) ==> f.bounds.spec_contains(d.0, d.1)
    &&& exists|d: (int, int)| #[trigger] comp.contains(d) && d.0 == f.bounds.x0
    &&& exists|d: (int, int)| #[trigger] comp.contains(d) && d.1 == f.bounds.y0
    &&& exists|d: (int, int)| #[trigger] comp.contains(d) && d.0 == f.bounds.x1 - 1
    &&& exists|d: (int, int)| #[trigger] comp.contains(d) && d.1 == f.bounds.y1 - 1
}

/// `a`'s north-west corner comes no later than `b`'s: by row, then by
/// column.
pub open spec fn corner_le(a: Finding, b: Finding) -> bool {
    a.bounds.y0 < b.bounds.y0 || (a.bounds.y0 == b.bounds.y0 && a.bounds.x0 <= b.bounds.x0)
}

/// `reps` names one cell of each reported component: each passable, none
/// reached from `seed`, each component once, and every passable cell not
/// reached from `seed` in one of them.
#[verifier::opaque]
pub open spec fn reps_ok(
    bounds: Rect,
    pass: spec_fn(int, int) -> bool,
    seed: (int, int),
    r: Seq<Finding>,
    reps: Seq<(int, int)>,
) -> bool {
    &&& reps.len() == r.len()
    &&& forall|i: int|
        0 <= i < r.len() ==> {
            &&& mpass(bounds, pass, (#[trigger] reps[i]).0, reps[i].1)
            &&& !reachable(bounds, pass, seed, reps[i])
            &&& region_matches(bounds, pass, reps[i], r[i])
        }
    &&& forall|i: int, j: int|
        0 <= i < r.len() && 0 <= j < r.len() && i != j ==> !reachable(bounds, pass, #[trigger] reps[i], #[trigger] reps[j])
    &&& forall|c: (int, int)|
        mpass(bounds, pass, c.0, c.1) && !#[trigger] reachable(bounds, pass, seed, c) ==> exists|i: int|
            0 <= i < r.len() && reachable(bounds, pass, #[trigger] reps[i], c)
}

/// `r` reports one finding per component of the `pass` cells that no walk
/// from `seed` reaches, sorted by north-west corner.
pub open spec fn regions_report(bounds: Rect, pass: spec_fn(int, int) -> bool, seed: (int, int), r: Seq<Finding>) -> bool {
    &&& forall|i: int, j: int| 0 <= i < j < r.len() ==> corner_le(#[trigger] r[i], #[trigger] r[j])
    &&& exists|reps: Seq<(int, int)>| #[trigger] reps_ok(bounds, pass, seed, r, reps)
}

fn corner_le_exec(a: &Finding, b: &Finding) -> (r: bool)
    ensures
        r == corner_le(*a, *b),
{
    a.bounds.y0 < b.bounds.y0 || (a.bounds.y0 == b.bounds.y0 && a.bounds.x0 <= b.bounds.x0)
}

/// Every component but the one labelled `seed_label`, sorted by
/// north-west corner (a stable insertion sort: ties keep label order).
fn report_regions(
    bounds: Rect,
    labels: &Vec<i32>,
    findings: &Vec<Finding>,
    seed_label: i32,
    Ghost(pass): Ghost<spec_fn(int, int) -> bool>,
    Ghost(starts): Ghost<Seq<(int, int)>>,
    Ghost(seed): Ghost<(int, int)>,
) -> (r: Vec<Finding>)
    requires
        labelling_ok(bounds, pass, labels@, starts),
        findings_ok(bounds, labels@, findings@),
        findings.len() == starts.len(),
        findings.len() < i32::MAX,
        mpass(bounds, pass, seed.0, seed.1) ==> seed_label == at(labels@, bounds, seed.0, seed.1),
        !mpass(bounds, pass, seed.0, seed.1) ==> seed_label == -1,
    ensures
        regions_report(bounds, pass, seed, r@),
{
    let mut out: Vec<Finding> = Vec::new();
    let ghost mut ks: Seq<int> = Seq::empty();
    let n = findings.len();
    let mut k: usize = 0;
    while k < n
        invariant
            n == findings.len(),
            n == starts.len(),
            n < i32::MAX,
            k <= n,
            out.len() == ks.len(),
            forall|j: int|
                0 <= j < ks.len() ==> 0 <= #[trigger] ks[j] < k && ks[j] != seed_label && out@[j]
                    == findings@[ks[j]],
            ks.no_duplicates(),
            forall|kk: int| 0 <= kk < k && kk != seed_label ==> ks.contains(kk),
            forall|i: int, j: int| 0 <= i < j < out.len() ==> corner_le(#[trigger] out@[i], #[trigger] out@[j]),
        decreases n - k,
    {
        if k as i32 != seed_label {
            let f = findings[k];
            let mut p: usize = 0;
            while p < out.len() && corner_le_exec(&out[p], &f)
                invariant
                    p <= out.len(),
                    forall|j: int| 0 <= j < p ==> corner_le(#[trigger] out@[j], f),
                decreases out.len() - p,
            {
                p += 1;
            }
            proof {
                if p < out.len() {
                    assert forall|j: int| p <= j < out.len() implies corner_le(f, #[trigger] out@[j]) by {
                        if j > p {
                            assert(corner_le(out@[p as int], out@[j]));
                        }
                    }
                }
            }
            let ghost old_out = out@;
            let ghost old_ks = ks;
            out.insert(p, f);
            proof {
                ks = ks.insert(p as int, k as int);
                assert forall|j: int| 0 <= j < out.len() implies #[trigger] out@[j] == if j < p {
                    old_out[j]
                } else if j == p {
                    f
                } else {
                    old_out[j - 1]
                } by {}
                assert forall|j: int| 0 <= j < ks.len() implies #[trigger] ks[j] == if j < p {
                    old_ks[j]
                } else if j == p {
                    k as int
                } else {
                    old_ks[j - 1]
                } by {}
                assert forall|i: int, j: int| 0 <= i < j < out.len() implies corner_le(#[trigger] out@[i], #[trigger] out@[j]) by {
                    if j < p {
                        assert(corner_le(old_out[i], old_out[j]));
                    } else if j == p {
                        assert(corner_le(old_out[i], f));
                    } else if i < p {
                        assert(corner_le(old_out[i], old_out[j - 1]));
                    } else if i == p {
                        assert(corner_le(f, old_out[j - 1]));
                    } else {
                        assert(corner_le(old_out[i - 1], old_out[j - 1]));
                    }
                }
                assert forall|j: int|
                    0 <= j < ks.len() implies 0 <= #[trigger] ks[j] < k + 1 && ks[j] != seed_label && out@[j]
                        == findings@[ks[j]] by {
                    if j < p {
                        assert(old_ks[j] < k && old_ks[j] != seed_label && old_out[j] == findings@[old_ks[j]]);
                    } else if j > p {
                        assert(old_ks[j - 1] < k && old_ks[j - 1] != seed_label && old_out[j - 1] == findings@[old_ks[j - 1]]);
                    }
                }
                assert(ks.no_duplicates()) by {
                    assert forall|i: int, j: int| 0 <= i < ks.len() && 0 <= j < ks.len() && i != j implies ks[i] != ks[j] by {
                        if i != p && j != p {
                            let oi = if i < p { i } else { i - 1 };
                            let oj = if j < p { j } else { j - 1 };
                            assert(old_ks[oi] != old_ks[oj]);
                        } else if i == p {
                            let oj = if j < p { j } else { j - 1 };
                            assert(old_ks[oj] < k);
                        } else {
                            let oi = if i < p { i } else { i - 1 };
                            assert(old_ks[oi] < k);
                        }
                    }
                }
                assert forall|kk: int| 0 <= kk < k + 1 && kk != seed_label implies ks.contains(kk) by {
                    if kk == k {
                        assert(ks[p as int] == kk);
                    } else {
                        assert(old_ks.contains(kk));
                        let j = choose|j: int| 0 <= j < old_ks.len() && old_ks[j] == kk;
                        if j < p {
                            assert(ks[j] == kk);
                        } else {
                            assert(ks[j + 1] == kk);
                        }
                    }
                }
            }
        }
        k += 1;
    }
    proof {
        let reps = Seq::new(ks.len(), |j: int| starts[ks[j]]);
        assert forall|i: int| 0 <= i < out.len() implies {
            &&& mpass(bounds, pass, (#[trigger] reps[i]).0, reps[i].1)
            &&& !reachable(bounds, pass, seed, reps[i])
            &&& region_matches(bounds, pass, reps[i], out@[i])
        } by {
            let kk = ks[i];
            let st = starts[kk];
            assert(reps[i] == st);
            assert(at(labels@, bounds, st.0, st.1) == kk);
            assert(bounds.spec_contains(st.0, st.1));
            assert(mpass(bounds, pass, st.0, st.1));
            if reachable(bounds, pass, seed, st) {
                lemma_reach_label(bounds, pass, labels@, starts, seed, st);
            }
            lemma_component_label(bounds, pass, labels@, starts, st);
            assert(finding_ok(bounds, labels@, findings@[kk], kk));
            let comp = component(bounds, pass, st);
            assert(comp == cells_labelled(labels@, bounds, kk));
            assert forall|d: (int, int)| #[trigger] comp.contains(d) implies out@[i].bounds.spec_contains(d.0, d.1) by {
                assert(cells_labelled(labels@, bounds, kk).contains(d));
                assert(at(labels@, bounds, d.0, d.1) == kk);
            }
        }
        assert forall|i: int, j: int|
            0 <= i < out.len() && 0 <= j < out.len() && i != j implies !reachable(bounds, pass, #[trigger] reps[i], #[trigger] reps[j]) by {
            let si = starts[ks[i]];
            let sj = starts[ks[j]];
            assert(reps[i] == si && reps[j] == sj);
            if reachable(bounds, pass, si, sj) {
                lemma_reach_label(bounds, pass, labels@, starts, si, sj);
                assert(at(labels@, bounds, si.0, si.1) == ks[i]);
                assert(at(labels@, bounds, sj.0, sj.1) == ks[j]);
            }
        }
        assert forall|c: (int, int)|
            mpass(bounds, pass, c.0, c.1) && !#[trigger] reachable(bounds, pass, seed, c) implies exists|i: int|
                0 <= i < out.len() && reachable(bounds, pass, #[trigger] reps[i], c) by {
            let kc = at(labels@, bounds, c.0, c.1) as int;
            assert(at(labels@, bounds, c.0, c.1) == at(labels@, bounds, c.0, c.1));
            assert(0 <= kc < n);
            assert(reachable(bounds, pass, starts[kc], c));
            if kc == seed_label {
                assert(mpass(bounds, pass, seed.0, seed.1));
                assert(at(labels@, bounds, seed.0, seed.1) == kc);
                assert(reachable(bounds, pass, starts[kc], seed));
                lemma_reach_sym(bounds, pass, starts[kc], seed);
                lemma_reach_trans(bounds, pass, seed, starts[kc], c);
            }
            assert(ks.contains(kc));
            let j = choose|j: int| 0 <= j < ks.len() && ks[j] == kc;
            assert(reps[j] == starts[kc]);
        }
        assert(reps_ok(bounds, pass, seed, out@, reps)) by {
            reveal(reps_ok);
        }
    }
    out
}

/// Every walkable region with no path back to `(seed_x, seed_y)` -- the
/// caller's own start position -- reported, sorted by north-west corner.
/// A fully open grid, or one whose every walkable cell reaches the seed
/// through a door, reports nothing.
pub fn enclosed_regions(grid: &WalkabilityGrid, seed_x: i32, seed_y: i32) -> (r: Vec<Finding>)
    requires
        grid.wf(),
    ensures
        regions_report(
            grid.spec_bounds(),
            |x: int, y: int| grid.spec_passable(x, y),
            (seed_x as int, seed_y as int),
            r@,
        ),
{
    let bounds = grid.bounds;
    let ghost pass = |x: int, y: int| grid.spec_passable(x, y);
    let mask = grid.passable_mask();
    let (labels, findings, Ghost(starts)) = label_components(bounds, &mask, Ghost(pass));
    let seed_label = if grid.is_passable(seed_x, seed_y) {
        let idx = idx_of(bounds, seed_x, seed_y);
        labels[idx]
    } else {
        -1
    };
    proof {
        assert(pass(seed_x as int, seed_y as int) == grid.spec_passable(seed_x as int, seed_y as int));
        lemma_labelled_bound(labels@);
    }
    report_regions(bounds, &labels, &findings, seed_label, Ghost(pass), Ghost(starts), Ghost((seed_x as int, seed_y as int)))
}

/// The cells where a `bw x bh` body fits that a raw walk from `seed`
/// reaches.
pub open spec fn reachable_fit(grid: WalkabilityGrid, seed: (int, int), bw: int, bh: int) -> spec_fn(int, int) -> bool {
    |x: int, y: int|
        grid.spec_passable(x, y) && reachable(
            grid.spec_bounds(),
            |a: int, b: int| grid.spec_passable(a, b),
            seed,
            (x, y),
        ) && spec_body_fits(grid, bw, bh, x, y)
}

/// Within the raw region reachable from `(seed_x, seed_y)`, every pocket
/// that a `body_width x body_height` body can no longer reach once erosion
/// is applied -- a passage too narrow for the body -- reported the way
/// [`enclosed_regions`] reports a missing door: [`erode`] plus the same
/// component labelling, restricted to the raw-reachable cells.
pub fn narrow_passages(
    grid: &WalkabilityGrid,
    seed_x: i32,
    seed_y: i32,
    body_width: i32,
    body_height: i32,
) -> (r: Vec<Finding>)
    requires
        grid.wf(),
    ensures
        regions_report(
            grid.spec_bounds(),
            reachable_fit(*grid, (seed_x as int, seed_y as int), body_width as int, body_height as int),
            (seed_x as int, seed_y as int),
            r@,
        ),
{
    let bounds = grid.bounds;
    let ghost seed = (seed_x as int, seed_y as int);
    let ghost raw = |x: int, y: int| grid.spec_passable(x, y);
    let ghost fit = reachable_fit(*grid, seed, body_width as int, body_height as int);
    let raw_mask = grid.passable_mask();
    let (raw_labels, _, Ghost(raw_starts)) = label_components(bounds, &raw_mask, Ghost(raw));
    if !grid.is_passable(seed_x, seed_y) {
        proof {
            assert(reps_ok(bounds, fit, seed, Seq::<Finding>::empty(), Seq::<(int, int)>::empty())) by {
                reveal(reps_ok);
                assert forall|c: (int, int)| !mpass(bounds, fit, c.0, c.1) by {
                    if reachable(bounds, raw, seed, c) {
                        lemma_reach_label(bounds, raw, raw_labels@, raw_starts, seed, c);
                    }
                }
            }
        }
        return Vec::new();
    }
    let seed_idx = idx_of(bounds, seed_x, seed_y);
    let raw_seed_label = raw_labels[seed_idx];
    let eroded = erode(grid, body_width, body_height);
    let eroded_mask = eroded.passable_mask();
    let total = raw_mask.len();
    let mut mask: Vec<bool> = Vec::new();
    let mut i: usize = 0;
    while i < total
        invariant
            total == raw_labels.len(),
            total == eroded_mask.len(),
            i <= total,
            mask.len() == i,
            forall|j: int| 0 <= j < i ==> mask@[j] == (raw_labels@[j] == raw_seed_label && eroded_mask@[j]),
        decreases total - i,
    {
        mask.push(raw_labels[i] == raw_seed_label && eroded_mask[i]);
        i += 1;
    }
    proof {
        lemma_reach_refl(bounds, raw, seed);
        lemma_component_label(bounds, raw, raw_labels@, raw_starts, seed);
        assert(at(raw_labels@, bounds, seed_x as int, seed_y as int) == raw_seed_label);
        assert forall|x: int, y: int|
            #![trigger fit(x, y)]
            bounds.spec_contains(x, y) implies mask@[spec_cell_index(bounds, x, y).unwrap()] == fit(x, y) by {
            lemma_cell_index_bounds(bounds, x, y);
            assert(eroded_mask@[spec_cell_index(bounds, x, y).unwrap()] == eroded.spec_passable(x, y));
            assert(eroded.spec_passable(x, y) == spec_body_fits(*grid, body_width as int, body_height as int, x, y));
            assert(raw_labels@[spec_cell_index(bounds, x, y).unwrap()] == at(raw_labels@, bounds, x, y));
            if reachable(bounds, raw, seed, (x, y)) {
                lemma_reach_label(bounds, raw, raw_labels@, raw_starts, seed, (x, y));
            }
            if at(raw_labels@, bounds, x, y) == raw_seed_label {
                assert(cells_labelled(raw_labels@, bounds, raw_seed_label as int).contains((x, y)));
                assert(component(bounds, raw, seed).contains((x, y)));
                assert(at(raw_labels@, bounds, x, y) == at(raw_labels@, bounds, x, y));
            }
        }
    }
    let (labels, findings, Ghost(starts)) = label_components(bounds, &mask, Ghost(fit));
    let seed_label = if eroded.is_passable(seed_x, seed_y) {
        labels[seed_idx]
    } else {
        -1
    };
    proof {
        lemma_labelled_bound(labels@);
        assert(fit(seed_x as int, seed_y as int) == eroded.spec_passable(seed_x as int, seed_y as int));
    }
    report_regions(bounds, &labels, &findings, seed_label, Ghost(fit), Ghost(starts), Ghost(seed))
}

/// Cells joined by a walk have one component.
pub proof fn lemma_component_same(bounds: Rect, pass: spec_fn(int, int) -> bool, a: (int, int), b: (int, int))
    requires
        reachable(bounds, pass, a, b),
    ensures
        component(bounds, pass, a) == component(bounds, pass, b),
{
    assert forall|d: (int, int)| component(bounds, pass, a).contains(d) == component(bounds, pass, b).contains(d) by {
        if reachable(bounds, pass, a, d) {
            lemma_reach_sym(bounds, pass, a, b);
            lemma_reach_trans(bounds, pass, b, a, d);
        }
        if reachable(bounds, pass, b, d) {
            lemma_reach_trans(bounds, pass, a, b, d);
        }
    }
    assert(component(bounds, pass, a) =~= component(bounds, pass, b));
}

/// Two findings that match one component have one bounding rect.
pub proof fn lemma_region_bounds_unique(bounds: Rect, pass: spec_fn(int, int) -> bool, rep: (int, int), f: Finding, g: Finding)
    requires
        region_matches(bounds, pass, rep, f),
        region_matches(bounds, pass, rep, g),
    ensures
        f.bounds == g.bounds,
{
    let comp = component(bounds, pass, rep);
    let a0 = choose|d: (int, int)| #[trigger] comp.contains(d) && d.0 == f.bounds.x0;
    let b0 = choose|d: (int, int)| #[trigger] comp.contains(d) && d.0 == g.bounds.x0;
    let a1 = choose|d: (int, int)| #[trigger] comp.contains(d) && d.1 == f.bounds.y0;
    let b1 = choose|d: (int, int)| #[trigger] comp.contains(d) && d.1 == g.bounds.y0;
    let a2 = choose|d: (int, int)| #[trigger] comp.contains(d) && d.0 == f.bounds.x1 - 1;
    let b2 = choose|d: (int, int)| #[trigger] comp.contains(d) && d.0 == g.bounds.x1 - 1;
    let a3 = choose|d: (int, int)| #[trigger] comp.contains(d) && d.1 == f.bounds.y1 - 1;
    let b3 = choose|d: (int, int)| #[trigger] comp.contains(d) && d.1 == g.bounds.y1 - 1;
    assert(f.bounds.spec_contains(b0.0, b0.1) && g.bounds.spec_contains(a0.0, a0.1));
    assert(f.bounds.spec_contains(b1.0, b1.1) && g.bounds.spec_contains(a1.0, a1.1));
    assert(f.bounds.spec_contains(b2.0, b2.1) && g.bounds.spec_contains(a2.0, a2.1));
    assert(f.bounds.spec_contains(b3.0, b3.1) && g.bounds.spec_contains(a3.0, a3.1));
}

proof fn lemma_rep_facts(
    bounds: Rect,
    pass: spec_fn(int, int) -> bool,
    seed: (int, int),
    r: Seq<Finding>,
    reps: Seq<(int, int)>,
    i: int,
)
    requires
        reps_ok(bounds, pass, seed, r, reps),
        0 <= i < r.len(),
    ensures
        mpass(bounds, pass, reps[i].0, reps[i].1),
        !reachable(bounds, pass, seed, reps[i]),
        region_matches(bounds, pass, reps[i], r[i]),
{
    reveal(reps_ok);
}

proof fn lemma_rep_complete(
    bounds: Rect,
    pass: spec_fn(int, int) -> bool,
    seed: (int, int),
    r: Seq<Finding>,
    reps: Seq<(int, int)>,
    c: (int, int),
) -> (j: int)
    requires
        reps_ok(bounds, pass, seed, r, reps),
        mpass(bounds, pass, c.0, c.1),
        !reachable(bounds, pass, seed, c),
    ensures
        0 <= j < r.len(),
        reachable(bounds, pass, reps[j], c),
{
    reveal(reps_ok);
    choose|j: int| 0 <= j < r.len() && reachable(bounds, pass, #[trigger] reps[j], c)
}

/// Two reports over the same cells name the same bounding rects.
pub proof fn lemma_report_bounds(
    bounds: Rect,
    pass: spec_fn(int, int) -> bool,
    seed: (int, int),
    r1: Seq<Finding>,
    r2: Seq<Finding>,
    i: int,
)
    requires
        regions_report(bounds, pass, seed, r1),
        regions_report(bounds, pass, seed, r2),
        0 <= i < r1.len(),
    ensures
        exists|j: int| 0 <= j < r2.len() && (#[trigger] r2[j]).bounds == r1[i].bounds,
{
    let reps1 = choose|reps: Seq<(int, int)>| #[trigger] reps_ok(bounds, pass, seed, r1, reps);
    let reps2 = choose|reps: Seq<(int, int)>| #[trigger] reps_ok(bounds, pass, seed, r2, reps);
    lemma_rep_facts(bounds, pass, seed, r1, reps1, i);
    let rep = reps1[i];
    let j = lemma_rep_complete(bounds, pass, seed, r2, reps2, rep);
    lemma_rep_facts(bounds, pass, seed, r2, reps2, j);
    lemma_component_same(bounds, pass, reps2[j], rep);
    lemma_region_bounds_unique(bounds, pass, rep, r1[i], r2[j]);
    assert(r2[j].bounds == r1[i].bounds);
}


/// Law: placements on other floors never change what [`rasterise`] stamps
/// on `floor` -- its colliders are exactly those of the placements on
/// `floor` alone.
pub proof fn lemma_raster_floor_only(floor: i8, placements: Seq<Placement>, objects: Seq<ObjectDef>)
    ensures
        raster_colliders(floor, placements, objects) == raster_colliders(
            floor,
            placements.filter(|p: Placement| p.floor == floor),
            objects,
        ),
    decreases placements.len(),
{
    let pred = |p: Placement| p.floor == floor;
    reveal(Seq::filter);
    if placements.len() > 0 {
        lemma_raster_floor_only(floor, placements.drop_last(), objects);
        let f = placements.filter(pred);
        let g = placements.drop_last().filter(pred);
        if pred(placements.last()) {
            assert(f == g.push(placements.last()));
            assert(f.drop_last() =~= g);
            assert(f.last() == placements.last());
        } else {
            assert(f == g);
        }
    }
}

} // verus!
