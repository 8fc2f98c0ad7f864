//! The canonical, hand-authored fixture world: one small world containing
//! every shape the addressing model must handle -- a road with a bridge
//! deck overhead one floor up, a building whose interior sits at its
//! footprint with a door on its perimeter, a manhole down to a subway floor,
//! and a staircase up to an upper storey. [`conformance_cases`]'s
//! `expect_*` fields are typed in by hand against this layout, never
//! derived by calling the functions under test.

use vstd::prelude::*;
use super::bits::any_covers;
use super::chunk::{chunk_key, spec_chunk_key};
use super::collision::{
    Area, AreaSpec, FloorSpec, NO_OWNER, Rect, Transition, TransitionSpec, World, WorldSpec, spec_buildable, bucket_of,
    last_transition, first_owner,
    floors_match, transitions_match, index_matches, last_floor_spec, spec_standable_on,
    areas_ok,
};

verus! {

/// Every floor the fixture declares.
pub const STREET: i8 = 0;
pub const SUBWAY: i8 = -1;
pub const UPPER: i8 = 1;

/// The single building's id.
pub const FIXTURE_BUILDING_ID: u64 = 1;
/// The single room's id, inside the building.
pub const FIXTURE_ROOM_ID: u64 = 1;

/// The door: the one walkable gap in the north wall -- an ordinary
/// walkable cell, never a transition.
pub const DOOR_X: i32 = 12;
pub const DOOR_Y: i32 = 1;

/// The bridge deck's extent on `UPPER`; its railings are its two edge
/// columns.
pub const BRIDGE_DECK_X0: i32 = 4;
pub const BRIDGE_DECK_X1: i32 = 8;
pub const BRIDGE_Y: i32 = 0;

/// The manhole: street to subway.
pub const MANHOLE_X: i32 = 18;
pub const MANHOLE_Y: i32 = 0;

/// The staircase: street to the upper storey.
pub const STAIR_X: i32 = 23;
pub const STAIR_Y: i32 = 0;

/// Shared extent for every floor.
pub fn floor_bounds() -> (r: Rect)
    ensures
        r == (Rect { x0: -5i32, y0: -5i32, x1: 40, y1: 10 }),
{
    Rect { x0: -5, y0: -5, x1: 40, y1: 10 }
}

/// The building's whole footprint, walls included: a 5x5 block south of
/// the road, door in the middle of its north wall.
pub fn building_footprint() -> (r: Rect)
    ensures
        r == (Rect { x0: 10, y0: 1, x1: 15, y1: 6 }),
{
    Rect { x0: 10, y0: 1, x1: 15, y1: 6 }
}

/// The building's interior, one ring in from every wall -- the room.
pub fn room_interior() -> (r: Rect)
    ensures
        r == (Rect { x0: 11, y0: 2, x1: 14, y1: 5 }),
{
    Rect { x0: 11, y0: 2, x1: 14, y1: 5 }
}

/// `(x, y)` is a wall cell: in the footprint, not the interior, not the
/// door.
pub open spec fn is_wall_cell(x: int, y: int) -> bool {
    &&& 10 <= x < 15 && 1 <= y < 6
    &&& !(11 <= x < 14 && 2 <= y < 5)
    &&& !(x == DOOR_X && y == DOOR_Y)
}

/// The building's perimeter wall cells, minus the door, one unit rect
/// each.
pub fn building_walls() -> (walls: Vec<Rect>)
    ensures
        forall|i: int|
            0 <= i < walls.len() ==> {
                let r = #[trigger] walls@[i];
                &&& r.x1 == r.x0 + 1 && r.y1 == r.y0 + 1
                &&& is_wall_cell(r.x0 as int, r.y0 as int)
            },
        forall|x: int, y: int| is_wall_cell(x, y) ==> any_covers(walls@, x, y),
        forall|x: int, y: int| any_covers(walls@, x, y) <==> is_wall_cell(x, y),
{
    let footprint = building_footprint();
    let interior = room_interior();
    let mut walls: Vec<Rect> = Vec::new();
    let mut y = footprint.y0;
    while y < footprint.y1
        invariant
            footprint == (Rect { x0: 10, y0: 1, x1: 15, y1: 6 }),
            interior == (Rect { x0: 11, y0: 2, x1: 14, y1: 5 }),
            1 <= y <= 6,
            forall|i: int|
                0 <= i < walls.len() ==> {
                    let r = #[trigger] walls@[i];
                    &&& r.x1 == r.x0 + 1 && r.y1 == r.y0 + 1
                    &&& is_wall_cell(r.x0 as int, r.y0 as int)
                },
            forall|xx: int, yy: int| is_wall_cell(xx, yy) && yy < y ==> any_covers(walls@, xx, yy),
        decreases 6 - y,
    {
        let mut x = footprint.x0;
        while x < footprint.x1
            invariant
                footprint == (Rect { x0: 10, y0: 1, x1: 15, y1: 6 }),
                interior == (Rect { x0: 11, y0: 2, x1: 14, y1: 5 }),
                1 <= y < 6,
                10 <= x <= 15,
                forall|i: int|
                    0 <= i < walls.len() ==> {
                        let r = #[trigger] walls@[i];
                        &&& r.x1 == r.x0 + 1 && r.y1 == r.y0 + 1
                        &&& is_wall_cell(r.x0 as int, r.y0 as int)
                    },
                forall|xx: int, yy: int|
                    is_wall_cell(xx, yy) && (yy < y || (yy == y && xx < x)) ==> any_covers(
                        walls@,
                        xx,
                        yy,
                    ),
            decreases 15 - x,
        {
            if !interior.contains(x, y) && !(x == DOOR_X && y == DOOR_Y) {
                let ghost before = walls@;
                walls.push(Rect { x0: x, y0: y, x1: x + 1, y1: y + 1 });
                proof {
                    assert forall|xx: int, yy: int|
                        is_wall_cell(xx, yy) && (yy < y || (yy == y && xx < x + 1)) implies any_covers(
                            walls@,
                            xx,
                            yy,
                        ) by {
                        if yy < y || (yy == y && xx < x) {
                            let k = choose|k: int|
                                0 <= k < before.len() && super::bits::covers(#[trigger] before[k], xx, yy);
                            assert(walls@[k] == before[k]);
                        } else {
                            assert(super::bits::covers(walls@[walls.len() - 1], xx, yy));
                        }
                    }
                }
            }
            x = x + 1;
        }
        y = y + 1;
    }
    proof {
        assert forall|x: int, y: int| any_covers(walls@, x, y) implies is_wall_cell(x, y) by {
            let k = choose|k: int| 0 <= k < walls@.len() && super::bits::covers(#[trigger] walls@[k], x, y);
            assert(walls@[k].x1 == walls@[k].x0 + 1 && walls@[k].y1 == walls@[k].y0 + 1);
        }
    }
    walls
}

/// The bridge's two railing posts on `UPPER`, directly above the road span
/// the street floor walks under.
pub fn bridge_railings() -> (r: Vec<Rect>)
    ensures
        r@ == seq![
            Rect { x0: 4, y0: 0, x1: 5, y1: 1 },
            Rect { x0: 7, y0: 0, x1: 8, y1: 1 },
        ],
{
    let r = vec![
        Rect { x0: BRIDGE_DECK_X0, y0: BRIDGE_Y, x1: BRIDGE_DECK_X0 + 1, y1: BRIDGE_Y + 1 },
        Rect { x0: BRIDGE_DECK_X1 - 1, y0: BRIDGE_Y, x1: BRIDGE_DECK_X1, y1: BRIDGE_Y + 1 },
    ];
    assert(r@ =~= seq![
        Rect { x0: 4, y0: 0, x1: 5, y1: 1 },
        Rect { x0: 7, y0: 0, x1: 8, y1: 1 },
    ]);
    r
}

/// The floors' shared extent.
pub open spec fn fixture_bounds() -> Rect {
    Rect { x0: -5i32, y0: -5i32, x1: 40, y1: 10 }
}

/// `s` is the canonical fixture: the street, upper and subway floors in
/// that order, all over [`fixture_bounds`]; the street's colliders cover
/// exactly the building's wall cells (the door left open), the upper
/// floor's are the two railing posts and the subway has none; a manhole
/// from the street down to the subway and a staircase up to the upper
/// floor, each landing on its own column; and the building and its room
/// on the street, each declaring the chunk of its north-west corner.
pub open spec fn is_canonical_spec(s: WorldSpec) -> bool {
    &&& s.floors@.len() == 3
    &&& s.floors@[0].floor == STREET
    &&& s.floors@[1].floor == UPPER
    &&& s.floors@[2].floor == SUBWAY
    &&& forall|i: int| 0 <= i < 3 ==> (#[trigger] s.floors@[i]).bounds == fixture_bounds()
    &&& forall|x: int, y: int| #[trigger] any_covers(s.floors@[0].colliders@, x, y) <==> is_wall_cell(x, y)
    &&& s.floors@[1].colliders@ == seq![
        Rect { x0: 4, y0: 0, x1: 5, y1: 1 },
        Rect { x0: 7, y0: 0, x1: 8, y1: 1 },
    ]
    &&& s.floors@[2].colliders@.len() == 0
    &&& s.transitions@ == seq![
        TransitionSpec { x: MANHOLE_X, y: MANHOLE_Y, floor: STREET, target_x: MANHOLE_X, target_y: MANHOLE_Y, target_floor: SUBWAY },
        TransitionSpec { x: STAIR_X, y: STAIR_Y, floor: STREET, target_x: STAIR_X, target_y: STAIR_Y, target_floor: UPPER },
    ]
    &&& s.building_areas@ == seq![
        AreaSpec {
            owner_id: FIXTURE_BUILDING_ID,
            floor: STREET,
            rect: Rect { x0: 10, y0: 1, x1: 15, y1: 6 },
            chunk_key: spec_chunk_key(10, 1, STREET),
        },
    ]
    &&& s.room_areas@ == seq![
        AreaSpec {
            owner_id: FIXTURE_ROOM_ID,
            floor: STREET,
            rect: Rect { x0: 11, y0: 2, x1: 14, y1: 5 },
            chunk_key: spec_chunk_key(11, 2, STREET),
        },
    ]
}

/// The declarative fixture, before it is built into a [`World`].
pub fn canonical_world_spec() -> (spec: WorldSpec)
    ensures
        spec_buildable(spec),
        is_canonical_spec(spec),
        spec.floors@.len() == 3,
        spec.floors@[0].floor == STREET,
        spec.floors@[1].floor == UPPER,
        spec.floors@[2].floor == SUBWAY,
        spec.transitions@.len() == 2,
        spec.building_areas@.len() == 1,
        spec.building_areas@[0].owner_id == FIXTURE_BUILDING_ID,
        spec.building_areas@[0].rect == (Rect { x0: 10, y0: 1, x1: 15, y1: 6 }),
        spec.room_areas@.len() == 1,
        spec.room_areas@[0].owner_id == FIXTURE_ROOM_ID,
        spec.room_areas@[0].rect == (Rect { x0: 11, y0: 2, x1: 14, y1: 5 }),
{
    let walls = building_walls();
    let railings = bridge_railings();
    let street = FloorSpec { floor: STREET, bounds: floor_bounds(), colliders: walls };
    let upper = FloorSpec { floor: UPPER, bounds: floor_bounds(), colliders: railings };
    let subway = FloorSpec { floor: SUBWAY, bounds: floor_bounds(), colliders: Vec::new() };
    let manhole = TransitionSpec {
        x: MANHOLE_X,
        y: MANHOLE_Y,
        floor: STREET,
        target_x: MANHOLE_X,
        target_y: MANHOLE_Y,
        target_floor: SUBWAY,
    };
    let stair = TransitionSpec {
        x: STAIR_X,
        y: STAIR_Y,
        floor: STREET,
        target_x: STAIR_X,
        target_y: STAIR_Y,
        target_floor: UPPER,
    };
    let footprint = building_footprint();
    let interior = room_interior();
    let building = AreaSpec {
        owner_id: FIXTURE_BUILDING_ID,
        floor: STREET,
        rect: footprint,
        chunk_key: chunk_key(footprint.x0, footprint.y0, STREET),
    };
    let room = AreaSpec {
        owner_id: FIXTURE_ROOM_ID,
        floor: STREET,
        rect: interior,
        chunk_key: chunk_key(interior.x0, interior.y0, STREET),
    };
    let spec = WorldSpec {
        floors: vec![street, upper, subway],
        transitions: vec![manhole, stair],
        building_areas: vec![building],
        room_areas: vec![room],
    };
    proof {
        let fs = spec.floors@;
        assert(fs.drop_last().drop_last().drop_last() =~= Seq::<FloorSpec>::empty());
        let f1 = fs.drop_last();
        let f0 = f1.drop_last();
        assert(fs.last() == fs[2] && f1.last() == fs[1] && f0.last() == fs[0]);
        assert(last_floor_spec(f0, STREET) == Some(fs[0]));
        assert(last_floor_spec(f1, STREET) == Some(fs[0]));
        assert(last_floor_spec(fs, STREET) == Some(fs[0]));
        assert(last_floor_spec(f1, UPPER) == Some(fs[1]));
        assert(last_floor_spec(fs, UPPER) == Some(fs[1]));
        assert(last_floor_spec(fs, SUBWAY) == Some(fs[2]));
        assert(!any_covers(fs[0].colliders@, 18, 0)) by {
            if any_covers(fs[0].colliders@, 18, 0) {
                let k = choose|k: int| 0 <= k < fs[0].colliders@.len() && super::bits::covers(#[trigger] fs[0].colliders@[k], 18, 0);
                assert(is_wall_cell(fs[0].colliders@[k].x0 as int, fs[0].colliders@[k].y0 as int));
            }
        }
        assert(!any_covers(fs[0].colliders@, 23, 0)) by {
            if any_covers(fs[0].colliders@, 23, 0) {
                let k = choose|k: int| 0 <= k < fs[0].colliders@.len() && super::bits::covers(#[trigger] fs[0].colliders@[k], 23, 0);
                assert(is_wall_cell(fs[0].colliders@[k].x0 as int, fs[0].colliders@[k].y0 as int));
            }
        }
        assert(!any_covers(fs[1].colliders@, 23, 0));
        assert(!any_covers(fs[2].colliders@, 18, 0));
        assert(spec_standable_on(fs, 18, 0, STREET));
        assert(spec_standable_on(fs, 23, 0, STREET));
        assert(spec_standable_on(fs, 18, 0, SUBWAY));
        assert(spec_standable_on(fs, 23, 0, UPPER));
        let fb = Rect { x0: -5i32, y0: -5i32, x1: 40, y1: 10 };
        assert(fb.spec_width() * fb.spec_height() == 675);
        assert(fs[0].bounds == fb && fs[1].bounds == fb && fs[2].bounds == fb);
        assert(forall|i: int| 0 <= i < fs.len() ==> super::bits::grid_bounds_ok(
            (#[trigger] fs[i]).bounds,
            super::collision::MAX_CELLS_PER_FLOOR as int,
        ));
        let ts = spec.transitions@;
        assert(ts[0] == manhole && ts[1] == stair);
        assert(forall|i: int|
            0 <= i < ts.len() ==> {
                let t = #[trigger] ts[i];
                &&& spec_standable_on(fs, t.x as int, t.y as int, t.floor)
                &&& spec_standable_on(fs, t.target_x as int, t.target_y as int, t.target_floor)
            });
        assert(areas_ok(spec.building_areas@));
        assert(areas_ok(spec.room_areas@));
        assert(spec.transitions@ =~= seq![manhole, stair]);
        assert(spec.building_areas@ =~= seq![building]);
        assert(spec.room_areas@ =~= seq![room]);
        assert(forall|i: int| 0 <= i < 3 ==> (#[trigger] fs[i]).bounds == fixture_bounds());
    }
    spec
}

/// Builds the fixture. It is a valid world by construction.
pub fn canonical_world() -> (w: World)
    ensures
        is_canonical_world(w),
{
    let spec = canonical_world_spec();
    spec.build().unwrap()
}

/// One hand-typed expectation against the canonical fixture.
#[derive(Debug, Clone, Copy)]
pub struct ConformanceCase {
    pub x: i32,
    pub y: i32,
    pub floor: i8,
    pub expect_blocked: bool,
    pub expect_transition: Option<(i32, i32, i8)>,
    pub expect_building_id: u64,
    pub expect_room_id: u64,
}

/// One case: cell, then the expected blocked flag, transition, building
/// and room.
pub open spec fn case(
    x: i32,
    y: i32,
    floor: i8,
    blocked: bool,
    transition: Option<(i32, i32, i8)>,
    building: u64,
    room: u64,
) -> ConformanceCase {
    ConformanceCase {
        x,
        y,
        floor,
        expect_blocked: blocked,
        expect_transition: transition,
        expect_building_id: building,
        expect_room_id: room,
    }
}

/// Every case the conformance fixture pins, in order.
pub open spec fn spec_conformance_cases() -> Seq<ConformanceCase> {
    seq![
        case(2, 0, 0, false, None, 0, 0),
        case(5, 0, 0, false, None, 0, 0),
        case(6, 0, 0, false, None, 0, 0),
        case(5, 0, 1, false, None, 0, 0),
        case(4, 0, 1, true, None, 0, 0),
        case(7, 0, 1, true, None, 0, 0),
        case(4, 0, 0, false, None, 0, 0),
        case(10, 1, 0, true, None, 1, 0),
        case(12, 0, 0, false, None, 0, 0),
        case(12, 1, 0, false, None, 1, 0),
        case(12, 2, 0, false, None, 1, 1),
        case(18, 0, 0, false, Some((18, 0, -1i8)), 0, 0),
        case(18, 0, -1i8, false, None, 0, 0),
        case(23, 0, 0, false, Some((23, 0, 1)), 0, 0),
        case(23, 0, 1, false, None, 0, 0),
    ]
}

fn mk(
    x: i32,
    y: i32,
    floor: i8,
    blocked: bool,
    transition: Option<(i32, i32, i8)>,
    building: u64,
    room: u64,
) -> (c: ConformanceCase)
    ensures
        c == case(x, y, floor, blocked, transition, building, room),
{
    ConformanceCase {
        x,
        y,
        floor,
        expect_blocked: blocked,
        expect_transition: transition,
        expect_building_id: building,
        expect_room_id: room,
    }
}

/// Every case the conformance fixture pins. Hand-authored against the
/// layout above -- never generated by calling the query functions.
pub fn conformance_cases() -> (v: Vec<ConformanceCase>)
    ensures
        v@ == spec_conformance_cases(),
{
    let v = vec![
        // Open road, street floor: walkable, unowned, no transition.
        mk(2, 0, STREET, false, None, NO_OWNER, NO_OWNER),
        // Under the bridge deck, street floor: walkable.
        mk(5, BRIDGE_Y, STREET, false, None, NO_OWNER, NO_OWNER),
        mk(6, BRIDGE_Y, STREET, false, None, NO_OWNER, NO_OWNER),
        // The same (x, y) one floor up, on the deck itself: open.
        mk(5, BRIDGE_Y, UPPER, false, None, NO_OWNER, NO_OWNER),
        // The deck's railing posts: blocked on UPPER...
        mk(BRIDGE_DECK_X0, BRIDGE_Y, UPPER, true, None, NO_OWNER, NO_OWNER),
        mk(BRIDGE_DECK_X1 - 1, BRIDGE_Y, UPPER, true, None, NO_OWNER, NO_OWNER),
        // ...but not on STREET.
        mk(BRIDGE_DECK_X0, BRIDGE_Y, STREET, false, None, NO_OWNER, NO_OWNER),
        // The building's north wall: blocked, inside the footprint.
        mk(10, DOOR_Y, STREET, true, None, FIXTURE_BUILDING_ID, NO_OWNER),
        // The exterior cell just outside the door: walkable, unowned.
        mk(DOOR_X, 0, STREET, false, None, NO_OWNER, NO_OWNER),
        // The door itself: walkable, no transition, in the building only.
        mk(DOOR_X, DOOR_Y, STREET, false, None, FIXTURE_BUILDING_ID, NO_OWNER),
        // One step past the door: inside the room.
        mk(DOOR_X, DOOR_Y + 1, STREET, false, None, FIXTURE_BUILDING_ID, FIXTURE_ROOM_ID),
        // The manhole anchor: walkable, and a transition to the subway.
        mk(MANHOLE_X, MANHOLE_Y, STREET, false, Some((MANHOLE_X, MANHOLE_Y, SUBWAY)), NO_OWNER, NO_OWNER),
        // The subway landing: standable, unowned, not itself a transition.
        mk(MANHOLE_X, MANHOLE_Y, SUBWAY, false, None, NO_OWNER, NO_OWNER),
        // The staircase anchor: a transition to the upper storey.
        mk(STAIR_X, STAIR_Y, STREET, false, Some((STAIR_X, STAIR_Y, UPPER)), NO_OWNER, NO_OWNER),
        // The staircase landing: standable.
        mk(STAIR_X, STAIR_Y, UPPER, false, None, NO_OWNER, NO_OWNER),
    ];
    assert(v@ =~= spec_conformance_cases());
    v
}


/// `w` is the canonical fixture built: its floors, transitions and area
/// indices are those a canonical spec ([`is_canonical_spec`]) builds.
pub open spec fn is_canonical_world(w: World) -> bool {
    &&& w.wf()
    &&& exists|s: WorldSpec|
        #[trigger] is_canonical_spec(s) && floors_match(w.floors_map(), s.floors@) && transitions_match(
            w.transitions_map(),
            s.transitions@,
        ) && index_matches(w.building_index(), s.building_areas@) && index_matches(w.room_index(), s.room_areas@)
}

/// Case `c` holds in `w`: its blocked flag, its transition (target cell
/// and floor, or none) and its building and room owners are what `w`
/// answers at its cell.
pub open spec fn case_holds(w: World, c: ConformanceCase) -> bool {
    let key = spec_chunk_key(c.x as int, c.y as int, c.floor);
    &&& w.spec_is_blocked(c.x as int, c.y as int, c.floor) == c.expect_blocked
    &&& match w.spec_transition_at(c.x, c.y, c.floor) {
        Some(t) => c.expect_transition == Some((t.target_x, t.target_y, t.target_floor)),
        None => c.expect_transition is None,
    }
    &&& World::spec_owner_in(w.building_index(), key, c.x as int, c.y as int) == c.expect_building_id
    &&& World::spec_owner_in(w.room_index(), key, c.x as int, c.y as int) == c.expect_room_id
}

/// What a canonical world answers, per floor, cell and chunk.
proof fn lemma_canonical_answers(w: World, s: WorldSpec)
    requires
        w.wf(),
        is_canonical_spec(s),
        floors_match(w.floors_map(), s.floors@),
        transitions_match(w.transitions_map(), s.transitions@),
        index_matches(w.building_index(), s.building_areas@),
        index_matches(w.room_index(), s.room_areas@),
    ensures
        forall|x: int, y: int|
            #[trigger] w.spec_is_blocked(x, y, STREET) == (fixture_bounds().spec_contains(x, y) && is_wall_cell(x, y)),
        forall|x: int, y: int|
            #[trigger] w.spec_is_blocked(x, y, UPPER) == (y == 0 && (x == 4 || x == 7)),
        forall|x: int, y: int| !#[trigger] w.spec_is_blocked(x, y, SUBWAY),
        forall|x: i32, y: i32, f: i8|
            #[trigger] w.spec_transition_at(x, y, f) == if x == MANHOLE_X && y == MANHOLE_Y && f == STREET {
                Some(Transition { target_x: MANHOLE_X, target_y: MANHOLE_Y, target_floor: SUBWAY })
            } else if x == STAIR_X && y == STAIR_Y && f == STREET {
                Some(Transition { target_x: STAIR_X, target_y: STAIR_Y, target_floor: UPPER })
            } else {
                None
            },
        forall|key: u64, x: int, y: int|
            #[trigger] World::spec_owner_in(w.building_index(), key, x, y) == if key == spec_chunk_key(10, 1, STREET)
                && 10 <= x < 15 && 1 <= y < 6 {
                FIXTURE_BUILDING_ID
            } else {
                NO_OWNER
            },
        forall|key: u64, x: int, y: int|
            #[trigger] World::spec_owner_in(w.room_index(), key, x, y) == if key == spec_chunk_key(11, 2, STREET) && 11
                <= x < 14 && 2 <= y < 5 {
                FIXTURE_ROOM_ID
            } else {
                NO_OWNER
            },
{
    let fs = s.floors@;
    let f1 = fs.drop_last();
    let f0 = f1.drop_last();
    assert(f0.drop_last() =~= Seq::<FloorSpec>::empty());
    assert(fs.last() == fs[2] && f1.last() == fs[1] && f0.last() == fs[0]);
    assert(last_floor_spec(f0, STREET) == Some(fs[0]));
    assert(last_floor_spec(f1, STREET) == Some(fs[0]));
    assert(last_floor_spec(fs, STREET) == Some(fs[0]));
    assert(last_floor_spec(f1, UPPER) == Some(fs[1]));
    assert(last_floor_spec(fs, UPPER) == Some(fs[1]));
    assert(last_floor_spec(fs, SUBWAY) == Some(fs[2]));
    assert(fs[0].bounds == fixture_bounds() && fs[1].bounds == fixture_bounds() && fs[2].bounds == fixture_bounds());
    assert forall|x: int, y: int| #[trigger] w.spec_is_blocked(x, y, UPPER) == (y == 0 && (x == 4 || x == 7)) by {
        let cs = fs[1].colliders@;
        if any_covers(cs, x, y) {
            let k = choose|k: int| 0 <= k < cs.len() && super::bits::covers(#[trigger] cs[k], x, y);
            assert(k == 0 || k == 1);
        }
        if y == 0 && x == 4 {
            assert(super::bits::covers(cs[0], x, y));
        }
        if y == 0 && x == 7 {
            assert(super::bits::covers(cs[1], x, y));
        }
    }
    assert forall|x: int, y: int| !#[trigger] w.spec_is_blocked(x, y, SUBWAY) by {
        if any_covers(fs[2].colliders@, x, y) {
            let k = choose|k: int| 0 <= k < fs[2].colliders@.len() && super::bits::covers(#[trigger] fs[2].colliders@[k], x, y);
        }
    }
    assert forall|x: int, y: int|
        #[trigger] w.spec_is_blocked(x, y, STREET) == (fixture_bounds().spec_contains(x, y) && is_wall_cell(x, y)) by {
        assert(any_covers(fs[0].colliders@, x, y) <==> is_wall_cell(x, y));
    }
    let ts = s.transitions@;
    assert(ts.drop_last().drop_last() =~= Seq::<TransitionSpec>::empty());
    let t0 = ts.drop_last();
    assert(ts.last() == ts[1] && t0.last() == ts[0]);
    assert(t0.drop_last() =~= Seq::<TransitionSpec>::empty());
    assert forall|x: i32, y: i32, f: i8|
        #[trigger] w.spec_transition_at(x, y, f) == if x == MANHOLE_X && y == MANHOLE_Y && f == STREET {
            Some(Transition { target_x: MANHOLE_X, target_y: MANHOLE_Y, target_floor: SUBWAY })
        } else if x == STAIR_X && y == STAIR_Y && f == STREET {
            Some(Transition { target_x: STAIR_X, target_y: STAIR_Y, target_floor: UPPER })
        } else {
            None
        } by {
        assert(last_transition(t0.drop_last(), x as int, y as int, f) is None);
        let l0 = last_transition(t0, x as int, y as int, f);
        let l = last_transition(ts, x as int, y as int, f);
        assert(w.transitions_map().contains_key((x, y, f)) == (l is Some));
    }
    let ba = s.building_areas@;
    let ra = s.room_areas@;
    assert(ba.drop_last() =~= Seq::<AreaSpec>::empty());
    assert(ra.drop_last() =~= Seq::<AreaSpec>::empty());
    assert forall|key: u64, x: int, y: int|
        #[trigger] World::spec_owner_in(w.building_index(), key, x, y) == if key == spec_chunk_key(10, 1, STREET)
            && 10 <= x < 15 && 1 <= y < 6 {
            FIXTURE_BUILDING_ID
        } else {
            NO_OWNER
        } by {
        lemma_single_owner(w.building_index(), ba, key, x, y);
    }
    assert forall|key: u64, x: int, y: int|
        #[trigger] World::spec_owner_in(w.room_index(), key, x, y) == if key == spec_chunk_key(11, 2, STREET) && 11
            <= x < 14 && 2 <= y < 5 {
            FIXTURE_ROOM_ID
        } else {
            NO_OWNER
        } by {
        lemma_single_owner(w.room_index(), ra, key, x, y);
    }
}

/// The owner an index built from one area answers.
proof fn lemma_single_owner(index: Map<u64, Vec<Area>>, specs: Seq<AreaSpec>, key: u64, x: int, y: int)
    requires
        index_matches(index, specs),
        specs.len() == 1,
    ensures
        World::spec_owner_in(index, key, x, y) == if key == specs[0].chunk_key && specs[0].rect.spec_contains(x, y) {
            specs[0].owner_id
        } else {
            NO_OWNER
        },
{
    assert(specs.drop_last() =~= Seq::<AreaSpec>::empty());
    assert(specs.last() == specs[0]);
    let b = bucket_of(specs, key);
    assert(bucket_of(specs.drop_last(), key) == Seq::<Area>::empty());
    if key == specs[0].chunk_key {
        assert(b == seq![Area { owner_id: specs[0].owner_id, rect: specs[0].rect }]);
        assert(index.contains_key(key));
        let areas = index[key]@;
        assert(areas == b);
        assert(areas.drop_first() =~= Seq::<Area>::empty());
        assert(first_owner(areas.drop_first(), x, y) == NO_OWNER);
    } else {
        assert(b == Seq::<Area>::empty());
        if index.contains_key(key) {
            assert(index[key]@ == b);
        }
    }
}

/// Law: every hand-typed conformance case holds in the canonical world --
/// its blocked flag, transition and owners are what the world answers.
pub proof fn lemma_conformance(w: World)
    requires
        is_canonical_world(w),
    ensures
        forall|i: int| 0 <= i < spec_conformance_cases().len() ==> case_holds(w, #[trigger] spec_conformance_cases()[i]),
{
    let s = choose|s: WorldSpec|
        #[trigger] is_canonical_spec(s) && floors_match(w.floors_map(), s.floors@) && transitions_match(
            w.transitions_map(),
            s.transitions@,
        ) && index_matches(w.building_index(), s.building_areas@) && index_matches(w.room_index(), s.room_areas@);
    lemma_canonical_answers(w, s);
    let k0 = spec_chunk_key(10, 1, STREET);
    let k1 = spec_chunk_key(11, 2, STREET);
    assert(spec_chunk_key(12, 1, STREET) == k0 && spec_chunk_key(12, 2, STREET) == k0);
    assert(spec_chunk_key(12, 2, STREET) == k1);
    assert forall|i: int| 0 <= i < spec_conformance_cases().len() implies case_holds(w, #[trigger] spec_conformance_cases()[i]) by {
        let c = spec_conformance_cases()[i];
        let key = spec_chunk_key(c.x as int, c.y as int, c.floor);
        assert(w.spec_is_blocked(c.x as int, c.y as int, c.floor) == c.expect_blocked);
        assert(World::spec_owner_in(w.building_index(), key, c.x as int, c.y as int) == c.expect_building_id);
        assert(World::spec_owner_in(w.room_index(), key, c.x as int, c.y as int) == c.expect_room_id);
        let _ = w.spec_transition_at(c.x, c.y, c.floor);
    }
}

} // verus!
