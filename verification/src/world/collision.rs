//! The addressing/collision/transition/ownership model itself. Ordered
//! collections only, so iteration order is deterministic.

use vstd::prelude::*;
use crate::text::decimal;
use super::bits::{self, bit, spec_words_for, grid_matches, any_covers};

verus! {

/// An axis-aligned, half-open rectangle: contains `x0..x1`, `y0..y1`.
/// Every comparison widens first, so no combination of `i32` inputs can
/// overflow a comparison or subtraction.
#[derive(Debug, Clone, Copy, PartialEq, Eq, PartialOrd, Ord, Structural)]
pub struct Rect {
    pub x0: i32,
    pub y0: i32,
    pub x1: i32,
    pub y1: i32,
}

impl Rect {
    pub open spec fn spec_is_valid(self) -> bool {
        self.x1 > self.x0 && self.y1 > self.y0
    }

    pub open spec fn spec_contains(self, x: int, y: int) -> bool {
        self.x0 <= x < self.x1 && self.y0 <= y < self.y1
    }

    pub open spec fn spec_width(self) -> int {
        self.x1 - self.x0
    }

    pub open spec fn spec_height(self) -> int {
        self.y1 - self.y0
    }

    pub open spec fn spec_overlaps(self, other: Rect) -> bool {
        self.x0 < other.x1 && other.x0 < self.x1 && self.y0 < other.y1 && other.y0 < self.y1
    }

    /// A rect is valid only if it encloses at least one cell.
    pub fn is_valid(&self) -> (b: bool)
        ensures
            b == self.spec_is_valid(),
    {
        self.x1 as i64 > self.x0 as i64 && self.y1 as i64 > self.y0 as i64
    }

    pub fn contains(&self, x: i32, y: i32) -> (b: bool)
        ensures
            b == self.spec_contains(x as int, y as int),
    {
        let (x, y) = (x as i64, y as i64);
        x >= self.x0 as i64 && x < self.x1 as i64 && y >= self.y0 as i64 && y < self.y1 as i64
    }

    pub fn width(&self) -> (w: i64)
        ensures
            w == self.spec_width(),
    {
        self.x1 as i64 - self.x0 as i64
    }

    pub fn height(&self) -> (h: i64)
        ensures
            h == self.spec_height(),
    {
        self.y1 as i64 - self.y0 as i64
    }

    pub fn overlaps(&self, other: &Rect) -> (b: bool)
        ensures
            b == self.spec_overlaps(*other),
    {
        self.x0 < other.x1 && other.x0 < self.x1 && self.y0 < other.y1 && other.y0 < self.y1
    }
}

/// The largest number of cells a single floor's collision grid may cover:
/// 64 Mi cells, one bit each.
pub const MAX_CELLS_PER_FLOOR: u64 = 67_108_864;

/// The dense-storage index of `(x, y)` within `bounds`: `None` outside
/// `bounds`, or when the index would not fit `i64`/`usize`.
pub open spec fn spec_cell_index(bounds: Rect, x: int, y: int) -> Option<int> {
    if bounds.spec_contains(x, y) {
        let idx = (y - bounds.y0) * bounds.spec_width() + (x - bounds.x0);
        if idx <= i64::MAX && idx <= usize::MAX {
            Some(idx)
        } else {
            None
        }
    } else {
        None
    }
}

/// Inside a bounds of at most 2^32 cells, every contained cell has an
/// index, and it is below the cell count.
pub proof fn lemma_cell_index_bounds(bounds: Rect, x: int, y: int)
    requires
        bounds.spec_is_valid(),
        bounds.spec_width() * bounds.spec_height() <= 0x1_0000_0000,
        bounds.spec_contains(x, y),
    ensures
        spec_cell_index(bounds, x, y) is Some,
        0 <= spec_cell_index(bounds, x, y).unwrap() < bounds.spec_width() * bounds.spec_height(),
        spec_cell_index(bounds, x, y).unwrap() == (y - bounds.y0) * bounds.spec_width() + (x
            - bounds.x0),
{
    let w = bounds.spec_width();
    let h = bounds.spec_height();
    let ly = y - bounds.y0;
    let lx = x - bounds.x0;
    assert(0 <= ly * w + lx < w * h) by (nonlinear_arith)
        requires
            0 <= ly < h,
            0 <= lx < w,
    ;
}

/// Two distinct cells of `bounds` have distinct raw indices.
pub proof fn lemma_cell_index_injective(bounds: Rect, xa: int, ya: int, xb: int, yb: int)
    requires
        bounds.spec_contains(xa, ya),
        bounds.spec_contains(xb, yb),
        xa != xb || ya != yb,
    ensures
        (ya - bounds.y0) * bounds.spec_width() + (xa - bounds.x0) != (yb - bounds.y0)
            * bounds.spec_width() + (xb - bounds.x0),
{
    let w = bounds.spec_width();
    let la = ya - bounds.y0;
    let lb = yb - bounds.y0;
    let ka = xa - bounds.x0;
    let kb = xb - bounds.x0;
    assert(la * w + ka != lb * w + kb) by (nonlinear_arith)
        requires
            0 <= ka < w,
            0 <= kb < w,
            0 <= la,
            0 <= lb,
            ka != kb || la != lb,
    {
        if la < lb {
            assert(la * w + w <= lb * w);
        } else if lb < la {
            assert(lb * w + w <= la * w);
        }
    }
}

/// The cell index dense storage uses for `(x, y)` within `bounds` -- a
/// pure function of its three inputs, total and never allocating.
pub fn cell_index(bounds: Rect, x: i32, y: i32) -> (r: Option<usize>)
    ensures
        match r {
            Some(i) => spec_cell_index(bounds, x as int, y as int) == Some(i as int),
            None => spec_cell_index(bounds, x as int, y as int) is None,
        },
{
    if !bounds.contains(x, y) {
        return None;
    }
    let local_x = x as i64 - bounds.x0 as i64;
    let local_y = y as i64 - bounds.y0 as i64;
    let w = bounds.width();
    let ghost idx = local_y * w + local_x;
    assert(local_y * w >= 0) by (nonlinear_arith)
        requires
            local_y >= 0,
            w >= 0,
    ;
    match local_y.checked_mul(w) {
        Some(m) => {
            match m.checked_add(local_x) {
                Some(i) => {
                    if (i as u128) <= (usize::MAX as u128) {
                        Some(i as usize)
                    } else {
                        None
                    }
                },
                None => None,
            }
        },
        None => None,
    }
}

/// One floor's collision set, dense so a query is one arithmetic index.
/// One bit per cell. Cells outside `bounds` are never blocked.
#[derive(Debug, Clone)]
pub struct FloorCollision {
    bounds: Rect,
    blocked: Vec<u64>,
}

impl FloorCollision {
    /// The floor's known extent.
    pub closed spec fn spec_bounds(&self) -> Rect {
        self.bounds
    }

    /// Whether the collision set blocks `(x, y)`.
    pub closed spec fn spec_blocked(&self, x: int, y: int) -> bool {
        match spec_cell_index(self.bounds, x, y) {
            Some(i) => bit(self.blocked@, i),
            None => false,
        }
    }

    /// The storage is exactly one bit per cell of a valid, bounded extent.
    pub closed spec fn wf(&self) -> bool {
        &&& bits::grid_bounds_ok(self.bounds, MAX_CELLS_PER_FLOOR as int)
        &&& self.blocked.len() == spec_words_for(
            self.bounds.spec_width() * self.bounds.spec_height(),
        )
    }

    pub open spec fn spec_standable(&self, x: int, y: int) -> bool {
        self.spec_bounds().spec_contains(x, y) && !self.spec_blocked(x, y)
    }

    /// Builds a dense collision grid covering `bounds`, blocked wherever any
    /// of `colliders` overlaps. Total: `Err` on an invalid `bounds` or one
    /// covering more than [`MAX_CELLS_PER_FLOOR`] cells.
    pub fn build(bounds: Rect, colliders: &[Rect]) -> (r: Result<Self, String>)
        ensures
            r is Ok <==> bits::grid_bounds_ok(bounds, MAX_CELLS_PER_FLOOR as int),
            r matches Ok(fc) ==> {
                &&& fc.wf()
                &&& fc.spec_bounds() == bounds
                &&& forall|x: int, y: int|
                    #[trigger] fc.spec_blocked(x, y) == (bounds.spec_contains(x, y) && any_covers(
                        colliders@,
                        x,
                        y,
                    ))
            },
    {
        if !bounds.is_valid() {
            return Err(invalid_bounds_message(bounds));
        }
        let w = bounds.width();
        let h = bounds.height();
        match w.checked_mul(h) {
            None => {
                assert(w * h > MAX_CELLS_PER_FLOOR);
                return Err(overflow_message(bounds));
            },
            Some(cell_count) => {
                if cell_count as u64 > MAX_CELLS_PER_FLOOR {
                    return Err(too_many_cells_message(bounds, cell_count as u64));
                }
                let blocked = bits::stamp(bounds, cell_count as u64, colliders);
                let fc = FloorCollision { bounds, blocked };
                proof {
                    assert forall|x: int, y: int|
                        #[trigger] fc.spec_blocked(x, y) == (bounds.spec_contains(x, y) && any_covers(
                            colliders@,
                            x,
                            y,
                        )) by {
                        if bounds.spec_contains(x, y) {
                            lemma_cell_index_bounds(bounds, x, y);
                        }
                    }
                }
                Ok(fc)
            },
        }
    }

    /// `(x, y)` is inside the floor's known extent at all.
    pub fn in_bounds(&self, x: i32, y: i32) -> (b: bool)
        ensures
            b == self.spec_bounds().spec_contains(x as int, y as int),
    {
        self.bounds.contains(x, y)
    }

    /// The collision query itself: a bounds check plus at most one word
    /// read. Out of bounds is simply unblocked, never a panic.
    pub fn is_blocked(&self, x: i32, y: i32) -> (b: bool)
        requires
            self.wf(),
        ensures
            b == self.spec_blocked(x as int, y as int),
    {
        match cell_index(self.bounds, x, y) {
            None => false,
            Some(idx) => {
                proof {
                    lemma_cell_index_bounds(self.bounds, x as int, y as int);
                    let count = self.bounds.spec_width() * self.bounds.spec_height();
                    assert(idx / 64 < self.blocked.len()) by (nonlinear_arith)
                        requires
                            idx < count,
                            self.blocked.len() == (count + 63) / 64,
                    ;
                }
                bits::get_bit(&self.blocked, idx)
            },
        }
    }

    /// In bounds and not blocked -- what a floor transition's anchor and
    /// target must both be.
    pub fn is_standable(&self, x: i32, y: i32) -> (b: bool)
        requires
            self.wf(),
        ensures
            b == self.spec_standable(x as int, y as int),
    {
        self.in_bounds(x, y) && !self.is_blocked(x, y)
    }

    /// Bytes the dense per-cell collision bitset itself occupies.
    pub fn dense_storage_bytes(&self) -> (n: usize)
        requires
            self.wf(),
        ensures
            n == 8 * spec_words_for(self.spec_bounds().spec_width() * self.spec_bounds().spec_height()),
    {
        self.blocked.len() * 8
    }
}

/// The text [`invalid_bounds_message`] produces.
pub open spec fn spec_invalid_bounds_message(bounds: Rect) -> Seq<char> {
    "FloorCollision::build: invalid bounds "@ + "Rect { x0: "@ + decimal(bounds.x0 as int) + ", y0: "@ + decimal(bounds.y0 as int) + ", x1: "@ + decimal(bounds.x1 as int) + ", y1: "@ + decimal(bounds.y1 as int) + " }"@
}

/// The refusal text for an invalid extent.
///
/// Formats with `format!`; the contract claims what std documents of
/// `Display`: the literal text, each integer in decimal (a leading `-`
/// when negative) and each string as it is.
#[verifier::external_body]
pub fn invalid_bounds_message(bounds: Rect) -> (s: String)
    ensures
        s@ == spec_invalid_bounds_message(bounds),
{
    format!("FloorCollision::build: invalid bounds Rect {{ x0: {}, y0: {}, x1: {}, y1: {} }}", bounds.x0, bounds.y0, bounds.x1, bounds.y1)
}

/// The text [`overflow_message`] produces.
pub open spec fn spec_overflow_message(bounds: Rect) -> Seq<char> {
    "FloorCollision::build: "@ + "Rect { x0: "@ + decimal(bounds.x0 as int) + ", y0: "@ + decimal(bounds.y0 as int) + ", x1: "@ + decimal(bounds.x1 as int) + ", y1: "@ + decimal(bounds.y1 as int) + " }"@ + " overflows a cell count"@
}

/// The refusal text for an extent whose cell count overflows.
///
/// Formats with `format!`; the contract claims what std documents of
/// `Display`: the literal text, each integer in decimal (a leading `-`
/// when negative) and each string as it is.
#[verifier::external_body]
pub fn overflow_message(bounds: Rect) -> (s: String)
    ensures
        s@ == spec_overflow_message(bounds),
{
    format!("FloorCollision::build: Rect {{ x0: {}, y0: {}, x1: {}, y1: {} }} overflows a cell count", bounds.x0, bounds.y0, bounds.x1, bounds.y1)
}

/// The text [`too_many_cells_message`] produces.
pub open spec fn spec_too_many_cells_message(bounds: Rect, cell_count: int) -> Seq<char> {
    "FloorCollision::build: "@ + "Rect { x0: "@ + decimal(bounds.x0 as int) + ", y0: "@ + decimal(bounds.y0 as int) + ", x1: "@ + decimal(bounds.x1 as int) + ", y1: "@ + decimal(bounds.y1 as int) + " }"@ + " covers "@ + decimal(cell_count as int) + " cells, over the "@ + decimal(MAX_CELLS_PER_FLOOR as int) + "-cell ceiling"@
}

/// The refusal text for an extent over the cell ceiling.
///
/// Formats with `format!`; the contract claims what std documents of
/// `Display`: the literal text, each integer in decimal (a leading `-`
/// when negative) and each string as it is.
#[verifier::external_body]
pub fn too_many_cells_message(bounds: Rect, cell_count: u64) -> (s: String)
    ensures
        s@ == spec_too_many_cells_message(bounds, cell_count as int),
{
    format!("FloorCollision::build: Rect {{ x0: {}, y0: {}, x1: {}, y1: {} }} covers {cell_count} cells, over the {MAX_CELLS_PER_FLOOR}-cell ceiling", bounds.x0, bounds.y0, bounds.x1, bounds.y1)
}

} // verus!

verus! {

/// A floor transition's far side: entering the anchor cell moves the
/// entity here, in the same step that swaps in the target floor's
/// collision set.
#[derive(Debug, Clone, Copy, PartialEq, Eq, Structural)]
pub struct Transition {
    pub target_x: i32,
    pub target_y: i32,
    pub target_floor: i8,
}

/// The sentinel building/room ownership id for "no owner".
pub const NO_OWNER: u64 = 0;

/// The building/room ownership id for one cell, queried independently: a
/// cell can be inside a building but not inside any one room of it.
#[derive(Debug, Clone, Copy, PartialEq, Eq, Structural)]
pub struct Ownership {
    pub building_id: u64,
    pub room_id: u64,
}

#[derive(Debug, Clone, Copy)]
pub struct Area {
    pub owner_id: u64,
    pub rect: Rect,
}

/// One floor's declared extent and colliders.
#[derive(Debug, Clone)]
pub struct FloorSpec {
    pub floor: i8,
    pub bounds: Rect,
    pub colliders: Vec<Rect>,
}

/// One floor transition's anchor and target.
#[derive(Debug, Clone, Copy)]
pub struct TransitionSpec {
    pub x: i32,
    pub y: i32,
    pub floor: i8,
    pub target_x: i32,
    pub target_y: i32,
    pub target_floor: i8,
}

/// One ownership rect, `chunk_key` included: [`WorldSpec::build`] checks
/// that `chunk_key` really is the key of `rect`'s own first cell and that
/// `rect` fits entirely inside that chunk.
#[derive(Debug, Clone, Copy)]
pub struct AreaSpec {
    pub owner_id: u64,
    pub floor: i8,
    pub rect: Rect,
    pub chunk_key: u64,
}

/// The declarative description of a [`World`]: plain data, easy to
/// hand-author and easy to serialise.
#[derive(Debug, Clone)]
pub struct WorldSpec {
    pub floors: Vec<FloorSpec>,
    pub transitions: Vec<TransitionSpec>,
    pub building_areas: Vec<AreaSpec>,
    pub room_areas: Vec<AreaSpec>,
}

/// The addressed world model: one collision set per floor, floor
/// transitions keyed by their anchor cell, and the building/room ownership
/// areas bucketed by chunk key. Built only through [`WorldSpec::build`].
#[derive(Debug)]
pub struct World {
    floors: std::collections::BTreeMap<i8, FloorCollision>,
    transitions: std::collections::BTreeMap<(i32, i32, i8), Transition>,
    building_areas: std::collections::BTreeMap<u64, Vec<Area>>,
    room_areas: std::collections::BTreeMap<u64, Vec<Area>>,
}

/// The floor spec a floor number resolves to: the last one declaring it.
pub open spec fn last_floor_spec(specs: Seq<FloorSpec>, floor: i8) -> Option<FloorSpec>
    decreases specs.len(),
{
    if specs.len() == 0 {
        None
    } else if specs.last().floor == floor {
        Some(specs.last())
    } else {
        last_floor_spec(specs.drop_last(), floor)
    }
}

/// Whether `(x, y)` is standable on the declared `floor` of `specs`.
pub open spec fn spec_standable_on(specs: Seq<FloorSpec>, x: int, y: int, floor: i8) -> bool {
    match last_floor_spec(specs, floor) {
        Some(f) => f.bounds.spec_contains(x, y) && !any_covers(f.colliders@, x, y),
        None => false,
    }
}

/// The transition a cell resolves to: the last one anchored there.
pub open spec fn last_transition(ts: Seq<TransitionSpec>, x: int, y: int, floor: i8) -> Option<
    Transition,
>
    decreases ts.len(),
{
    if ts.len() == 0 {
        None
    } else if ts.last().x == x && ts.last().y == y && ts.last().floor == floor {
        Some(
            Transition {
                target_x: ts.last().target_x,
                target_y: ts.last().target_y,
                target_floor: ts.last().target_floor,
            },
        )
    } else {
        last_transition(ts.drop_last(), x, y, floor)
    }
}

/// Every area spec is acceptable on its own and overlaps no earlier spec
/// sharing its chunk key.
pub open spec fn areas_ok(specs: Seq<AreaSpec>) -> bool {
    &&& forall|i: int|
        0 <= i < specs.len() ==> {
            let a = #[trigger] specs[i];
            &&& super::chunk::spec_within_one_chunk(a.rect, a.floor)
            &&& a.chunk_key == super::chunk::spec_chunk_key(a.rect.x0 as int, a.rect.y0 as int, a.floor)
        }
    &&& forall|i: int, j: int|
        0 <= j < i < specs.len() && (#[trigger] specs[i]).chunk_key == (#[trigger] specs[j]).chunk_key
            ==> !specs[j].rect.spec_overlaps(specs[i].rect)
}

/// The owner the areas give `(x, y)` among those keyed `key`: the first
/// (in declaration order) whose rect contains the cell, or [`NO_OWNER`].
pub open spec fn spec_owner(specs: Seq<AreaSpec>, key: u64, x: int, y: int) -> u64
    decreases specs.len(),
{
    if specs.len() == 0 {
        NO_OWNER
    } else if specs[0].chunk_key == key && specs[0].rect.spec_contains(x, y) {
        specs[0].owner_id
    } else {
        spec_owner(specs.drop_first(), key, x, y)
    }
}

/// The number of areas keyed `key`.
pub open spec fn spec_bucket_len(specs: Seq<AreaSpec>, key: u64) -> int
    decreases specs.len(),
{
    if specs.len() == 0 {
        0
    } else {
        (if specs[0].chunk_key == key { 1int } else { 0 }) + spec_bucket_len(specs.drop_first(), key)
    }
}

/// What [`WorldSpec::build`] accepts: every floor builds, every transition
/// anchors and lands on a standable cell of a declared floor, and both
/// area lists are acceptable.
pub open spec fn spec_buildable(spec: WorldSpec) -> bool {
    &&& forall|i: int|
        0 <= i < spec.floors@.len() ==> bits::grid_bounds_ok(
            (#[trigger] spec.floors@[i]).bounds,
            MAX_CELLS_PER_FLOOR as int,
        )
    &&& forall|i: int|
        0 <= i < spec.transitions@.len() ==> {
            let t = #[trigger] spec.transitions@[i];
            &&& spec_standable_on(spec.floors@, t.x as int, t.y as int, t.floor)
            &&& spec_standable_on(spec.floors@, t.target_x as int, t.target_y as int, t.target_floor)
        }
    &&& areas_ok(spec.building_areas@)
    &&& areas_ok(spec.room_areas@)
}

/// The buckets of an area index hold exactly the specs keyed to them, in
/// declaration order.
pub open spec fn bucket_of(specs: Seq<AreaSpec>, key: u64) -> Seq<Area>
    decreases specs.len(),
{
    if specs.len() == 0 {
        Seq::empty()
    } else {
        let rest = bucket_of(specs.drop_last(), key);
        if specs.last().chunk_key == key {
            rest.push(Area { owner_id: specs.last().owner_id, rect: specs.last().rect })
        } else {
            rest
        }
    }
}

pub open spec fn index_matches(
    index: Map<u64, Vec<Area>>,
    specs: Seq<AreaSpec>,
) -> bool {
    forall|key: u64|
        #![trigger index.contains_key(key)]
        #![trigger bucket_of(specs, key)]
        (index.contains_key(key) ==> index[key]@ == bucket_of(specs, key)) && (!index.contains_key(key)
            ==> bucket_of(specs, key).len() == 0)
}

/// The first area of `areas` containing `(x, y)`, or [`NO_OWNER`].
pub open spec fn first_owner(areas: Seq<Area>, x: int, y: int) -> u64
    decreases areas.len(),
{
    if areas.len() == 0 {
        NO_OWNER
    } else if areas[0].rect.spec_contains(x, y) {
        areas[0].owner_id
    } else {
        first_owner(areas.drop_first(), x, y)
    }
}

impl World {
    /// The world this model answers for: its floors, transitions and area
    /// buckets.
    pub closed spec fn floors_map(&self) -> Map<i8, FloorCollision> {
        self.floors@
    }

    pub closed spec fn transitions_map(&self) -> Map<(i32, i32, i8), Transition> {
        self.transitions@
    }

    pub closed spec fn building_index(&self) -> Map<u64, Vec<Area>> {
        self.building_areas@
    }

    pub closed spec fn room_index(&self) -> Map<u64, Vec<Area>> {
        self.room_areas@
    }

    pub open spec fn wf(&self) -> bool {
        forall|f: i8| #[trigger] self.floors_map().contains_key(f) ==> self.floors_map()[f].wf()
    }

    pub open spec fn spec_is_blocked(&self, x: int, y: int, floor: i8) -> bool {
        self.floors_map().contains_key(floor) && self.floors_map()[floor].spec_blocked(x, y)
    }

    pub open spec fn spec_transition_at(&self, x: i32, y: i32, floor: i8) -> Option<Transition> {
        if self.transitions_map().contains_key((x, y, floor)) {
            Some(self.transitions_map()[(x, y, floor)])
        } else {
            None
        }
    }

    pub open spec fn spec_owner_in(index: Map<u64, Vec<Area>>, key: u64, x: int, y: int) -> u64 {
        if index.contains_key(key) {
            first_owner(index[key]@, x, y)
        } else {
            NO_OWNER
        }
    }

    /// The collision query for an entity on `floor`: an entity on a floor
    /// tests collision only against that floor. A floor this world never
    /// declared is simply empty.
    pub fn is_blocked(&self, x: i32, y: i32, floor: i8) -> (b: bool)
        requires
            self.wf(),
        ensures
            b == self.spec_is_blocked(x as int, y as int, floor),
    {
        match self.floors.get(&floor) {
            Some(fc) => fc.is_blocked(x, y),
            None => false,
        }
    }

    /// The floor transition anchored at this cell, if any. A door is never
    /// one of these -- it is simply a walkable cell.
    pub fn transition_at(&self, x: i32, y: i32, floor: i8) -> (t: Option<Transition>)
        ensures
            t == self.spec_transition_at(x, y, floor),
    {
        match self.transitions.get(&(x, y, floor)) {
            Some(t) => Some(*t),
            None => None,
        }
    }

    /// Entering a transition cell: the target floor and that same floor's
    /// collision set, from one function application. `None` if the cell is
    /// not a transition's anchor (or, which a built world rules out, its
    /// target floor is undeclared).
    pub fn enter_transition(&self, x: i32, y: i32, floor: i8) -> (r: Option<(i8, &FloorCollision)>)
        ensures
            match r {
                Some((f, fc)) => {
                    &&& self.spec_transition_at(x, y, floor) matches Some(t)
                    &&& t.target_floor == f
                    &&& self.floors_map().contains_key(f)
                    &&& *fc == self.floors_map()[f]
                },
                None => match self.spec_transition_at(x, y, floor) {
                    Some(t) => !self.floors_map().contains_key(t.target_floor),
                    None => true,
                },
            },
    {
        let transition = match self.transitions.get(&(x, y, floor)) {
            Some(t) => t,
            None => return None,
        };
        let target_floor = transition.target_floor;
        match self.floors.get(&target_floor) {
            Some(fc) => Some((target_floor, fc)),
            None => None,
        }
    }

    fn find_owner(index: &std::collections::BTreeMap<u64, Vec<Area>>, key: u64, x: i32, y: i32) -> (o: u64)
        ensures
            o == Self::spec_owner_in(index@, key, x as int, y as int),
    {
        match index.get(&key) {
            None => NO_OWNER,
            Some(areas) => {
                assert(areas@.skip(0) =~= areas@);
                let mut i: usize = 0;
                while i < areas.len()
                    invariant
                        0 <= i <= areas.len(),
                        index@.contains_key(key),
                        index@[key] == *areas,
                        first_owner(areas@, x as int, y as int) == first_owner(
                            areas@.skip(i as int),
                            x as int,
                            y as int,
                        ),
                    decreases areas.len() - i,
                {
                    assert(areas@.skip(i as int).drop_first() =~= areas@.skip(i + 1));
                    assert(areas@.skip(i as int)[0] == areas@[i as int]);
                    if areas[i].rect.contains(x, y) {
                        return areas[i].owner_id;
                    }
                    i += 1;
                }
                assert(areas@.skip(i as int).len() == 0);
                NO_OWNER
            },
        }
    }

    /// The building/room ownership id for `(x, y, floor)`, total over every
    /// input: [`NO_OWNER`] where nothing owns the cell.
    pub fn ownership_at(&self, x: i32, y: i32, floor: i8) -> (o: Ownership)
        ensures
            o.building_id == Self::spec_owner_in(
                self.building_index(),
                super::chunk::spec_chunk_key(x as int, y as int, floor),
                x as int,
                y as int,
            ),
            o.room_id == Self::spec_owner_in(
                self.room_index(),
                super::chunk::spec_chunk_key(x as int, y as int, floor),
                x as int,
                y as int,
            ),
    {
        let key = super::chunk::chunk_key(x, y, floor);
        Ownership {
            building_id: Self::find_owner(&self.building_areas, key, x, y),
            room_id: Self::find_owner(&self.room_areas, key, x, y),
        }
    }

    /// The number of building areas sharing the chunk `(x, y, floor)` names.
    pub fn building_areas_in_chunk_of(&self, x: i32, y: i32, floor: i8) -> (n: usize)
        ensures
            n == (if self.building_index().contains_key(
                super::chunk::spec_chunk_key(x as int, y as int, floor),
            ) {
                self.building_index()[super::chunk::spec_chunk_key(x as int, y as int, floor)].len()
            } else {
                0
            }),
    {
        match self.building_areas.get(&super::chunk::chunk_key(x, y, floor)) {
            Some(v) => v.len(),
            None => 0,
        }
    }

    /// The room-area counterpart of [`Self::building_areas_in_chunk_of`].
    pub fn room_areas_in_chunk_of(&self, x: i32, y: i32, floor: i8) -> (n: usize)
        ensures
            n == (if self.room_index().contains_key(
                super::chunk::spec_chunk_key(x as int, y as int, floor),
            ) {
                self.room_index()[super::chunk::spec_chunk_key(x as int, y as int, floor)].len()
            } else {
                0
            }),
    {
        match self.room_areas.get(&super::chunk::chunk_key(x, y, floor)) {
            Some(v) => v.len(),
            None => 0,
        }
    }
}

} // verus!

verus! {

/// Some spec keyed `key` has rect `r`.
pub open spec fn from_spec(specs: Seq<AreaSpec>, key: u64, r: Rect) -> bool {
    exists|j: int| 0 <= j < specs.len() && (#[trigger] specs[j]).chunk_key == key && specs[j].rect == r
}

/// Some area of `b` has rect `r`.
pub open spec fn in_bucket(b: Seq<Area>, r: Rect) -> bool {
    exists|k: int| 0 <= k < b.len() && (#[trigger] b[k]).rect == r
}

/// Every member of a bucket comes from a spec with that key, and every
/// spec with that key has its rect in the bucket.
pub proof fn lemma_bucket_members(specs: Seq<AreaSpec>, key: u64)
    ensures
        forall|j: int|
            0 <= j < specs.len() && (#[trigger] specs[j]).chunk_key == key ==> in_bucket(
                bucket_of(specs, key),
                specs[j].rect,
            ),
        forall|k: int|
            0 <= k < bucket_of(specs, key).len() ==> from_spec(
                specs,
                key,
                (#[trigger] bucket_of(specs, key)[k]).rect,
            ),
    decreases specs.len(),
{
    if specs.len() > 0 {
        let prev = specs.drop_last();
        lemma_bucket_members(prev, key);
        let b = bucket_of(specs, key);
        let pb = bucket_of(prev, key);
        assert forall|j: int|
            0 <= j < specs.len() && (#[trigger] specs[j]).chunk_key == key implies in_bucket(
                b,
                specs[j].rect,
            ) by {
            if j < specs.len() - 1 {
                assert(prev[j] == specs[j]);
                assert(in_bucket(pb, prev[j].rect));
                let k = choose|k: int| 0 <= k < pb.len() && (#[trigger] pb[k]).rect == prev[j].rect;
                assert(b[k] == pb[k]);
            } else {
                assert(b[pb.len() as int].rect == specs[j].rect);
            }
        }
        assert forall|k: int| 0 <= k < b.len() implies from_spec(specs, key, (#[trigger] b[k]).rect) by {
            if k < pb.len() {
                assert(b[k] == pb[k]);
                assert(from_spec(prev, key, pb[k].rect));
                let j = choose|j: int|
                    0 <= j < prev.len() && (#[trigger] prev[j]).chunk_key == key && prev[j].rect
                        == pb[k].rect;
                assert(specs[j] == prev[j]);
            } else {
                let j = specs.len() - 1;
                assert(specs[j].chunk_key == key);
                assert(b[k].rect == specs[j].rect);
            }
        }
    }
}

/// The text [`not_standable_message`] produces.
pub open spec fn spec_not_standable_message(x: int, y: int, floor: int) -> Seq<char> {
    "a transition end ("@ + decimal(x as int) + ", "@ + decimal(y as int) + ", "@ + decimal(floor as int) + ") is not standable on a declared floor"@
}

/// The refusal text for a transition end that is not standable.
///
/// Formats with `format!`; the contract claims what std documents of
/// `Display`: the literal text, each integer in decimal (a leading `-`
/// when negative) and each string as it is.
#[verifier::external_body]
pub fn not_standable_message(x: i32, y: i32, floor: i8) -> (s: String)
    ensures
        s@ == spec_not_standable_message(x as int, y as int, floor as int),
{
    format!("a transition end ({x}, {y}, {floor}) is not standable on a declared floor")
}

/// The text [`bad_area_message`] produces.
pub open spec fn spec_bad_area_message(rect: Rect, floor: int) -> Seq<char> {
    "an area "@ + "Rect { x0: "@ + decimal(rect.x0 as int) + ", y0: "@ + decimal(rect.y0 as int) + ", x1: "@ + decimal(rect.x1 as int) + ", y1: "@ + decimal(rect.y1 as int) + " }"@ + " on floor "@ + decimal(floor as int) + " is invalid, spans more than one chunk, declares the wrong chunk_key or overlaps another in its chunk"@
}

/// The refusal text for an unacceptable ownership area.
///
/// Formats with `format!`; the contract claims what std documents of
/// `Display`: the literal text, each integer in decimal (a leading `-`
/// when negative) and each string as it is.
#[verifier::external_body]
pub fn bad_area_message(rect: Rect, floor: i8) -> (s: String)
    ensures
        s@ == spec_bad_area_message(rect, floor as int),
{
    format!("an area Rect {{ x0: {}, y0: {}, x1: {}, y1: {} }} on floor {floor} is invalid, spans more than one chunk, declares the wrong chunk_key or overlaps another in its chunk", rect.x0, rect.y0, rect.x1, rect.y1)
}

/// The floors map holds, per floor number, the collision set the last
/// spec declaring it builds.
pub open spec fn floors_match(floors: Map<i8, FloorCollision>, specs: Seq<FloorSpec>) -> bool {
    forall|f: i8|
        #![trigger floors.contains_key(f)]
        #![trigger last_floor_spec(specs, f)]
        match last_floor_spec(specs, f) {
            Some(s) => {
                &&& floors.contains_key(f)
                &&& floors[f].wf()
                &&& floors[f].spec_bounds() == s.bounds
                &&& forall|x: int, y: int|
                    #[trigger] floors[f].spec_blocked(x, y) == (s.bounds.spec_contains(x, y)
                        && any_covers(s.colliders@, x, y))
            },
            None => !floors.contains_key(f),
        }
}

pub open spec fn transitions_match(
    ts: Map<(i32, i32, i8), Transition>,
    specs: Seq<TransitionSpec>,
) -> bool {
    forall|x: i32, y: i32, f: i8|
        #![trigger ts.contains_key((x, y, f))]
        #![trigger last_transition(specs, x as int, y as int, f)]
        match last_transition(specs, x as int, y as int, f) {
            Some(t) => ts.contains_key((x, y, f)) && ts[(x, y, f)] == t,
            None => !ts.contains_key((x, y, f)),
        }
}

impl WorldSpec {
    fn check_standable(
        floors: &std::collections::BTreeMap<i8, FloorCollision>,
        specs: Ghost<Seq<FloorSpec>>,
        x: i32,
        y: i32,
        floor: i8,
    ) -> (r: Result<(), String>)
        requires
            floors_match(floors@, specs@),
        ensures
            r is Ok <==> spec_standable_on(specs@, x as int, y as int, floor),
    {
        match floors.get(&floor) {
            None => {
                assert(last_floor_spec(specs@, floor) is None);
                Err(not_standable_message(x, y, floor))
            },
            Some(fc) => {
                assert(last_floor_spec(specs@, floor) is Some);
                if fc.is_standable(x, y) {
                    Ok(())
                } else {
                    Err(not_standable_message(x, y, floor))
                }
            },
        }
    }

    fn build_area_index(specs: &Vec<AreaSpec>) -> (r: Result<
        std::collections::BTreeMap<u64, Vec<Area>>,
        String,
    >)
        ensures
            r is Ok <==> areas_ok(specs@),
            r matches Ok(index) ==> index_matches(index@, specs@),
    {
        let mut index: std::collections::BTreeMap<u64, Vec<Area>> = std::collections::BTreeMap::new();
        let mut i: usize = 0;
        proof {
            assert(specs@.take(0) =~= Seq::<AreaSpec>::empty());
        }
        while i < specs.len()
            invariant
                0 <= i <= specs.len(),
                areas_ok(specs@.take(i as int)),
                index_matches(index@, specs@.take(i as int)),
            decreases specs.len() - i,
        {
            let spec = specs[i];
            let ghost prefix = specs@.take(i as int);
            let ghost next = specs@.take(i + 1);
            proof {
                assert(next.drop_last() =~= prefix);
                assert(next.last() == spec);
                assert forall|j: int| 0 <= j < i implies next[j] == #[trigger] prefix[j] by {}
            }
            if !super::chunk::rect_is_within_one_chunk(spec.rect, spec.floor) {
                proof {
                    assert(specs@[i as int] == spec);
                }
                return Err(bad_area_message(spec.rect, spec.floor));
            }
            let real_key = super::chunk::chunk_key(spec.rect.x0, spec.rect.y0, spec.floor);
            if real_key != spec.chunk_key {
                proof {
                    assert(specs@[i as int] == spec);
                }
                return Err(bad_area_message(spec.rect, spec.floor));
            }
            let mut bucket = match index.remove(&spec.chunk_key) {
                Some(b) => b,
                None => Vec::new(),
            };
            let ghost b0 = bucket@;
            proof {
                assert(b0 == bucket_of(prefix, spec.chunk_key));
                lemma_bucket_members(prefix, spec.chunk_key);
            }
            let mut k: usize = 0;
            while k < bucket.len()
                invariant
                    0 <= k <= bucket.len(),
                    bucket@ == b0,
                    0 <= i < specs.len(),
                    spec == specs@[i as int],
                    prefix == specs@.take(i as int),
                    next == specs@.take(i + 1),
                    forall|m: int|
                        0 <= m < b0.len() ==> from_spec(prefix, spec.chunk_key, (#[trigger] b0[m]).rect),
                    forall|m: int| 0 <= m < k ==> !(#[trigger] b0[m]).rect.spec_overlaps(spec.rect),
                decreases bucket.len() - k,
            {
                if bucket[k].rect.overlaps(&spec.rect) {
                    proof {
                        assert(from_spec(prefix, spec.chunk_key, b0[k as int].rect));
                        let j = choose|j: int|
                            0 <= j < prefix.len() && (#[trigger] prefix[j]).chunk_key == spec.chunk_key
                                && prefix[j].rect == b0[k as int].rect;
                        assert(next[j] == prefix[j]);
                        assert(specs@[i as int] == spec);
                        assert(!areas_ok(specs@));
                    }
                    return Err(bad_area_message(spec.rect, spec.floor));
                }
                k += 1;
            }
            bucket.push(Area { owner_id: spec.owner_id, rect: spec.rect });
            let ghost old_index = index@;
            index.insert(spec.chunk_key, bucket);
            proof {
                assert forall|j: int, jj: int|
                    0 <= jj < j < next.len() && (#[trigger] next[j]).chunk_key == (
                    #[trigger] next[jj]).chunk_key implies !next[jj].rect.spec_overlaps(
                    next[j].rect,
                ) by {
                    if j == i {
                        assert(prefix[jj] == next[jj]);
                        assert(in_bucket(b0, prefix[jj].rect));
                        let m = choose|m: int| 0 <= m < b0.len() && (#[trigger] b0[m]).rect == prefix[jj].rect;
                        assert(!b0[m].rect.spec_overlaps(spec.rect));
                    } else {
                        assert(prefix[jj] == next[jj] && prefix[j] == next[j]);
                    }
                }
                assert forall|j: int| 0 <= j < next.len() implies {
                    let a = #[trigger] next[j];
                    &&& super::chunk::spec_within_one_chunk(a.rect, a.floor)
                    &&& a.chunk_key == super::chunk::spec_chunk_key(a.rect.x0 as int, a.rect.y0 as int, a.floor)
                } by {
                    if j < i {
                        assert(prefix[j] == next[j]);
                    }
                }
                assert forall|key: u64|
                    #![trigger index@.contains_key(key)]
                    #![trigger bucket_of(next, key)]
                    (index@.contains_key(key) ==> index@[key]@ == bucket_of(next, key)) && (!index@.contains_key(key)
                        ==> bucket_of(next, key).len() == 0) by {
                    assert(bucket_of(next, key) == (if spec.chunk_key == key {
                        bucket_of(prefix, key).push(Area { owner_id: spec.owner_id, rect: spec.rect })
                    } else {
                        bucket_of(prefix, key)
                    }));
                    if key != spec.chunk_key {
                        assert(old_index.contains_key(key) == index@.contains_key(key));
                    }
                }
            }
            i += 1;
        }
        assert(specs@.take(specs.len() as int) =~= specs@);
        Ok(index)
    }

    /// Builds the [`World`], refusing (`Err`, never a panic) a floor whose
    /// extent is invalid or too large, a transition whose anchor or target
    /// is not standable on a declared floor, an ownership area that is
    /// invalid, spans more than one chunk or declares the wrong chunk key,
    /// and two same-kind areas sharing a chunk whose rects overlap. There is
    /// no other way to get a [`World`].
    pub fn build(&self) -> (r: Result<World, String>)
        ensures
            r is Ok <==> spec_buildable(*self),
            r matches Ok(w) ==> {
                &&& w.wf()
                &&& floors_match(w.floors_map(), self.floors@)
                &&& transitions_match(w.transitions_map(), self.transitions@)
                &&& index_matches(w.building_index(), self.building_areas@)
                &&& index_matches(w.room_index(), self.room_areas@)
            },
    {
        let mut floors: std::collections::BTreeMap<i8, FloorCollision> = std::collections::BTreeMap::new();
        let mut i: usize = 0;
        proof {
            assert(self.floors@.take(0) =~= Seq::<FloorSpec>::empty());
        }
        while i < self.floors.len()
            invariant
                0 <= i <= self.floors.len(),
                floors_match(floors@, self.floors@.take(i as int)),
                forall|j: int|
                    0 <= j < i ==> bits::grid_bounds_ok(
                        (#[trigger] self.floors@[j]).bounds,
                        MAX_CELLS_PER_FLOOR as int,
                    ),
            decreases self.floors.len() - i,
        {
            let spec = &self.floors[i];
            let fc = FloorCollision::build(spec.bounds, spec.colliders.as_slice())?;
            let ghost prefix = self.floors@.take(i as int);
            let ghost next = self.floors@.take(i + 1);
            let ghost old_floors = floors@;
            floors.insert(spec.floor, fc);
            proof {
                assert(next.drop_last() =~= prefix);
                assert(next.last() == *spec);
                assert forall|f: i8|
                    #![trigger floors@.contains_key(f)]
                    #![trigger last_floor_spec(next, f)]
                    match last_floor_spec(next, f) {
                        Some(s) => {
                            &&& floors@.contains_key(f)
                            &&& floors@[f].wf()
                            &&& floors@[f].spec_bounds() == s.bounds
                            &&& forall|x: int, y: int|
                                #[trigger] floors@[f].spec_blocked(x, y) == (s.bounds.spec_contains(x, y)
                                    && any_covers(s.colliders@, x, y))
                        },
                        None => !floors@.contains_key(f),
                    } by {
                    if f != spec.floor {
                        assert(last_floor_spec(next, f) == last_floor_spec(prefix, f));
                        assert(old_floors.contains_key(f) == floors@.contains_key(f));
                    }
                }
            }
            i += 1;
        }
        proof {
            assert(self.floors@.take(self.floors.len() as int) =~= self.floors@);
        }
        let mut transitions: std::collections::BTreeMap<(i32, i32, i8), Transition> = std::collections::BTreeMap::new();
        let mut t_i: usize = 0;
        proof {
            assert(self.transitions@.take(0) =~= Seq::<TransitionSpec>::empty());
        }
        while t_i < self.transitions.len()
            invariant
                0 <= t_i <= self.transitions.len(),
                floors_match(floors@, self.floors@),
                transitions_match(transitions@, self.transitions@.take(t_i as int)),
                forall|j: int|
                    0 <= j < t_i ==> {
                        let t = #[trigger] self.transitions@[j];
                        &&& spec_standable_on(self.floors@, t.x as int, t.y as int, t.floor)
                        &&& spec_standable_on(
                            self.floors@,
                            t.target_x as int,
                            t.target_y as int,
                            t.target_floor,
                        )
                    },
            decreases self.transitions.len() - t_i,
        {
            let t = self.transitions[t_i];
            Self::check_standable(&floors, Ghost(self.floors@), t.x, t.y, t.floor)?;
            Self::check_standable(&floors, Ghost(self.floors@), t.target_x, t.target_y, t.target_floor)?;
            let ghost prefix = self.transitions@.take(t_i as int);
            let ghost next = self.transitions@.take(t_i + 1);
            let ghost old_ts = transitions@;
            transitions.insert(
                (t.x, t.y, t.floor),
                Transition { target_x: t.target_x, target_y: t.target_y, target_floor: t.target_floor },
            );
            proof {
                assert(next.drop_last() =~= prefix);
                assert(next.last() == t);
                assert forall|x: i32, y: i32, f: i8|
                    #![trigger transitions@.contains_key((x, y, f))]
                    #![trigger last_transition(next, x as int, y as int, f)]
                    match last_transition(next, x as int, y as int, f) {
                        Some(tt) => transitions@.contains_key((x, y, f)) && transitions@[(x, y, f)] == tt,
                        None => !transitions@.contains_key((x, y, f)),
                    } by {
                    if (x, y, f) != (t.x, t.y, t.floor) {
                        assert(last_transition(next, x as int, y as int, f) == last_transition(
                            prefix,
                            x as int,
                            y as int,
                            f,
                        ));
                        assert(old_ts.contains_key((x, y, f)) == transitions@.contains_key((x, y, f)));
                    }
                }
            }
            t_i += 1;
        }
        proof {
            assert(self.transitions@.take(self.transitions.len() as int) =~= self.transitions@);
        }
        let building_areas = Self::build_area_index(&self.building_areas)?;
        let room_areas = Self::build_area_index(&self.room_areas)?;
        let w = World { floors, transitions, building_areas, room_areas };
        proof {
            assert forall|f: i8| #[trigger] w.floors_map().contains_key(f) implies w.floors_map()[f].wf() by {
                assert(last_floor_spec(self.floors@, f) is Some);
            }
        }
        Ok(w)
    }
}

} // verus!
