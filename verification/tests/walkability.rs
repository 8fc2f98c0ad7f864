use sim::defs;
use sim::world::walkability::{
    enclosed_regions, erode, footprint_origin, narrow_passages, player_body_subcells, rasterise,
    Placement, WalkabilityGrid,
};
use sim::world::Rect;


/// Parses a small ASCII-art grid (`#` blocked, `.` passable) into a
/// [`WalkabilityGrid`], top row first, so unit tests can be written as
/// pictures rather than lists of rects.
fn grid_from_art(rows: &[&str]) -> WalkabilityGrid {
    let height = rows.len() as i32;
    let width = rows[0].len() as i32;
    let bounds = Rect {
        x0: 0,
        y0: 0,
        x1: width,
        y1: height,
    };
    let mut colliders = Vec::new();
    for (y, row) in rows.iter().enumerate() {
        for (x, ch) in row.chars().enumerate() {
            if ch == '#' {
                colliders.push(Rect {
                    x0: x as i32,
                    y0: y as i32,
                    x1: x as i32 + 1,
                    y1: y as i32 + 1,
                });
            }
        }
    }
    WalkabilityGrid::build(bounds, &colliders).unwrap()
}

// --- WalkabilityGrid ----------------------------------------------

#[test]
fn out_of_bounds_is_never_blocked() {
    let grid = grid_from_art(&["..", ".."]);
    assert!(!grid.is_blocked(100, 100));
    assert!(!grid.is_blocked(-1, -1));
}

#[test]
fn a_stamped_collider_blocks_exactly_its_own_cells() {
    let grid = grid_from_art(&["#.", ".."]);
    assert!(grid.is_blocked(0, 0));
    assert!(!grid.is_blocked(1, 0));
    assert!(!grid.is_blocked(0, 1));
}

// --- footprint_origin ------------------------------------------------

#[test]
fn footprint_origin_matches_the_clients_own_footprintorigin() {
    // A 1-cell-tall object: origin equals the anchor exactly.
    assert_eq!(footprint_origin(5, 5, 3, 1), (5, 5));
    // A 3-cell-tall object anchored at (5, 5): origin moves north by
    // height - 1 = 2 cells, x unchanged.
    assert_eq!(footprint_origin(5, 5, 1, 3), (5, 3));
}

// --- rasterise ---------------------------------------------------

#[test]
fn rasterise_stamps_a_colliders_footprint_relative_rect() {
    let objects = &[defs::ObjectDef {
        id: 1,
        key: "wall_segment",
        name: "Wall Segment",
        layer: 0,
        sprite: defs::SpriteRect {
            sheet: "x",
            x: 0,
            y: 0,
            w: 16,
            h: 16,
        },
        width: 1,
        height: 1,
        collider: Some(defs::ColliderRect {
            x0: 0,
            y0: 0,
            x1: 16,
            y1: 16,
        }),
        interact_at: None,
        window: false,
        tags: &[],
    }];
    let bounds = Rect {
        x0: 0,
        y0: 0,
        x1: 32,
        y1: 32,
    };
    let placements = &[Placement {
        def_id: 1,
        anchor_x: 1,
        anchor_y: 1,
        floor: 0,
    }];
    let grid = rasterise(bounds, 0, placements, objects).unwrap();
    // Anchor cell (1, 1), one cell tall: origin sub-cell (16, 16).
    assert!(grid.is_blocked(16, 16));
    assert!(grid.is_blocked(31, 31));
    assert!(!grid.is_blocked(15, 15));
}

#[test]
fn rasterise_skips_a_placement_on_a_different_floor() {
    let objects = &[defs::ObjectDef {
        id: 1,
        key: "wall_segment",
        name: "Wall Segment",
        layer: 0,
        sprite: defs::SpriteRect {
            sheet: "x",
            x: 0,
            y: 0,
            w: 16,
            h: 16,
        },
        width: 1,
        height: 1,
        collider: Some(defs::ColliderRect {
            x0: 0,
            y0: 0,
            x1: 16,
            y1: 16,
        }),
        interact_at: None,
        window: false,
        tags: &[],
    }];
    let bounds = Rect {
        x0: 0,
        y0: 0,
        x1: 32,
        y1: 32,
    };
    let placements = &[Placement {
        def_id: 1,
        anchor_x: 1,
        anchor_y: 1,
        floor: 1,
    }];
    let grid = rasterise(bounds, 0, placements, objects).unwrap();
    assert!(!grid.is_blocked(16, 16));
}

#[test]
fn rasterise_errors_on_an_unknown_def_id() {
    let bounds = Rect {
        x0: 0,
        y0: 0,
        x1: 32,
        y1: 32,
    };
    let placements = &[Placement {
        def_id: 999,
        anchor_x: 0,
        anchor_y: 0,
        floor: 0,
    }];
    assert!(rasterise(bounds, 0, placements, &[]).is_err());
}

// --- erode / doorway width ------------------------------------------

/// A horizontal gap of exactly `gap` sub-cells in an otherwise solid
/// row 1, on a 3-row grid (rows 0 and 2 solid, row 1 the gap) --
/// `width` total columns.
fn grid_with_gap(width: i32, gap_start: i32, gap: i32) -> WalkabilityGrid {
    let bounds = Rect {
        x0: 0,
        y0: 0,
        x1: width,
        y1: 3,
    };
    let mut colliders = vec![
        Rect {
            x0: 0,
            y0: 0,
            x1: width,
            y1: 1,
        },
        Rect {
            x0: 0,
            y0: 2,
            x1: width,
            y1: 3,
        },
    ];
    if gap_start > 0 {
        colliders.push(Rect {
            x0: 0,
            y0: 1,
            x1: gap_start,
            y1: 2,
        });
    }
    if gap_start + gap < width {
        colliders.push(Rect {
            x0: gap_start + gap,
            y0: 1,
            x1: width,
            y1: 2,
        });
    }
    WalkabilityGrid::build(bounds, &colliders).unwrap()
}

#[test]
fn a_gap_of_exactly_the_body_width_erodes_to_one_passable_cell() {
    let grid = grid_with_gap(20, 8, 8);
    let eroded = erode(&grid, 8, 1);
    assert!(eroded.is_passable(8, 1));
    assert!(!eroded.is_passable(7, 1));
    assert!(!eroded.is_passable(9, 1));
}

#[test]
fn a_gap_one_sub_cell_narrower_than_the_body_erodes_to_nothing() {
    let grid = grid_with_gap(20, 8, 7);
    let eroded = erode(&grid, 8, 1);
    for x in 0..20 {
        assert!(!eroded.is_passable(x, 1), "x={x} should not be passable");
    }
}

#[test]
fn a_gap_offset_by_one_sub_cell_at_a_cell_boundary_is_handled() {
    // A gap starting mid-cell (sub-cell 15, one before a 16-sub-cell
    // cell boundary) of exactly the body width still erodes to a
    // single passable origin.
    let grid = grid_with_gap(40, 15, 8);
    let eroded = erode(&grid, 8, 1);
    assert!(eroded.is_passable(15, 1));
    assert!(!eroded.is_passable(14, 1));
    assert!(!eroded.is_passable(16, 1));
}

#[test]
fn changing_the_balance_value_changes_the_verdict() {
    let grid = grid_with_gap(20, 8, 8);
    let narrower_balance = [defs::BalanceSeed {
        key: "movement.player_body_width_subcells",
        value: 8,
        min: 1,
        max: 16,
    }];
    let wider_balance = [defs::BalanceSeed {
        key: "movement.player_body_width_subcells",
        value: 9,
        min: 1,
        max: 16,
    }];
    // At width 8 (read from the balance fixture, never a literal) the
    // exact-width gap passes...
    let (width_8, _) = player_body_subcells(&[
        narrower_balance[0],
        defs::BalanceSeed {
            key: "movement.player_body_height_subcells",
            value: 1,
            min: 1,
            max: 16,
        },
    ]);
    let eroded_8 = erode(&grid, width_8, 1);
    assert!(eroded_8.is_passable(8, 1));
    // ...but changing only the balance fixture's own value to 9 makes
    // the same gap fail: the verdict follows the value, never a
    // literal.
    let (width_9, _) = player_body_subcells(&[
        wider_balance[0],
        defs::BalanceSeed {
            key: "movement.player_body_height_subcells",
            value: 1,
            min: 1,
            max: 16,
        },
    ]);
    let eroded_9 = erode(&grid, width_9, 1);
    for x in 0..20 {
        assert!(
            !eroded_9.is_passable(x, 1),
            "x={x} should not be passable at body width 9"
        );
    }
}

// --- enclosed_regions --------------------------------------------

#[test]
fn a_fully_open_grid_reports_no_enclosed_region() {
    let grid = grid_from_art(&["....", "....", "....", "...."]);
    assert!(enclosed_regions(&grid, 0, 0).is_empty());
}

#[test]
fn a_room_with_no_door_is_reported() {
    let grid = grid_from_art(&["#####", "#...#", "#...#", "#####"]);
    let findings = enclosed_regions(&grid, 0, 0);
    assert_eq!(findings.len(), 1);
    assert_eq!(findings[0].cell_count, 3 * 2);
}

#[test]
fn the_same_room_with_a_door_is_not_reported() {
    // A gap in the north wall at x=2.
    let grid = grid_from_art(&["##.##", "#...#", "#...#", "#####"]);
    assert!(enclosed_regions(&grid, 2, 0).is_empty());
}

#[test]
fn two_separate_sealed_rooms_are_both_reported() {
    let grid = grid_from_art(&["###.###", "#.#.#.#", "###.###"]);
    // The seed sits in the open corridor column (x=3); both side
    // rooms are sealed.
    let findings = enclosed_regions(&grid, 3, 0);
    assert_eq!(findings.len(), 2);
}

#[test]
fn a_region_touching_the_grid_edge_is_not_reported() {
    // No wall at all along the west edge: the open area "touches"
    // bounds.x0, and is reachable from the seed like any other open
    // cell -- not a distinct component, so nothing is reported for
    // it specifically.
    let grid = grid_from_art(&["....", "....", "...."]);
    assert!(enclosed_regions(&grid, 3, 2).is_empty());
}

#[test]
fn removing_a_door_never_reduces_the_number_of_reported_regions() {
    // Sealed room -> one report. Opening a door in it -> zero.
    // Removing the door again (closing it) can only add reports back,
    // never remove one relative to the open state.
    let sealed = grid_from_art(&["#####", "#...#", "#####"]);
    let open = grid_from_art(&["##.##", "#...#", "#####"]);
    assert!(enclosed_regions(&sealed, 0, 0).len() >= enclosed_regions(&open, 2, 0).len());
}

// --- narrow_passages -----------------------------------------------

/// A walled box sitting in open exterior, with a one-sub-cell-wide
/// door -- wide enough for a single-subcell raw walker, but (the point
/// of these tests) not necessarily for a wider body.
fn grid_with_narrow_door() -> WalkabilityGrid {
    grid_from_art(&["......", ".#.##.", ".#..#.", ".####.", "......"])
}

#[test]
fn a_passage_too_narrow_for_the_body_is_reported_even_though_raw_reachable() {
    let grid = grid_with_narrow_door();
    // Raw-reachable: the 1-wide door connects exterior and interior.
    assert!(enclosed_regions(&grid, 0, 0).is_empty());
    // A 2-wide body cannot fit through a 1-wide door: the interior is
    // reported as cut off by a narrow passage.
    let findings = narrow_passages(&grid, 0, 0, 2, 1);
    assert!(!findings.is_empty());
}

#[test]
fn a_passage_at_least_the_body_width_reports_nothing() {
    let grid = grid_with_narrow_door();
    // A 1-wide body fits through the 1-wide door.
    let findings = narrow_passages(&grid, 0, 0, 1, 1);
    assert!(findings.is_empty());
}
