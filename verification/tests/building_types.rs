use sim::generation::building_types::{
    catchment_of, chebyshev, front_cell, hard_eligible, is_corner_envelope, is_workplace, weighted_pick, BuildingTypeMap,
    TypeAssignment,
};
use sim::generation::streets::{Side, Sides};
use sim::generation::SiteBounds;
use sim::world::Rect;

#[test]
fn catchment_of_a_512_site_at_a_256_extent_is_exactly_the_four_quadrants() {
    let site = SiteBounds { x0: 0, y0: 0, x1: 512, y1: 512 };
    assert_eq!(catchment_of(0, 0, site, 256), (0, 0));
    assert_eq!(catchment_of(255, 255, site, 256), (0, 0));
    assert_eq!(catchment_of(256, 0, site, 256), (1, 0));
    assert_eq!(catchment_of(0, 256, site, 256), (0, 1));
    assert_eq!(catchment_of(511, 511, site, 256), (1, 1));
}

#[test]
fn catchment_of_floors_below_the_site_corner_and_clamps_the_extent() {
    let site = SiteBounds { x0: 10, y0: 10, x1: 100, y1: 100 };
    assert_eq!(catchment_of(9, 10, site, 5), (-1, 0));
    assert_eq!(catchment_of(4, 5, site, 5), (-2, -1));
    assert_eq!(catchment_of(13, 12, site, 0), (3, 2));
}

#[test]
fn distinct_types_is_sorted_and_deduplicated() {
    let map = BuildingTypeMap::test_fixture(vec![
        TypeAssignment { plot: 0, building_type: 7 },
        TypeAssignment { plot: 1, building_type: 3 },
        TypeAssignment { plot: 2, building_type: 7 },
        TypeAssignment { plot: 3, building_type: 5 },
    ]);
    assert_eq!(map.distinct_types(), vec![3, 5, 7]);
    assert_eq!(map.assignments().len(), 4);
    assert!(BuildingTypeMap::test_fixture(Vec::new()).distinct_types().is_empty());
}

#[test]
fn a_corner_envelope_sits_at_its_rows_end_beside_a_street() {
    let all = Sides { north: true, east: true, south: true, west: true };
    let none = Sides { north: false, east: false, south: false, west: false };
    let row = Rect { x0: 0, y0: 80, x1: 100, y1: 100 };
    let end = Rect { x0: 0, y0: 80, x1: 20, y1: 100 };
    let middle = Rect { x0: 20, y0: 80, x1: 40, y1: 100 };
    assert!(is_corner_envelope(end, row, Side::South, all));
    assert!(!is_corner_envelope(middle, row, Side::South, all));
    assert!(!is_corner_envelope(end, row, Side::South, none));
    let side_row = Rect { x0: 80, y0: 20, x1: 100, y1: 80 };
    let top = Rect { x0: 80, y0: 20, x1: 100, y1: 30 };
    assert!(is_corner_envelope(top, side_row, Side::East, Sides { north: true, ..none }));
    assert!(!is_corner_envelope(top, side_row, Side::East, Sides { south: true, ..none }));
}

#[test]
fn chebyshev_and_front_cell_measure_cells() {
    assert_eq!(chebyshev((0, 0), (3, -7)), 7);
    assert_eq!(chebyshev((5, 5), (5, 5)), 0);
    let f = Rect { x0: 10, y0: 20, x1: 20, y1: 26 };
    assert_eq!(front_cell(f, Side::North), (14, 20));
    assert_eq!(front_cell(f, Side::South), (14, 25));
    assert_eq!(front_cell(f, Side::West), (10, 22));
    assert_eq!(front_cell(f, Side::East), (19, 22));
}

fn def(id: u32, weight: u32) -> sim::defs::BuildingTypeDef {
    sim::defs::BuildingTypeDef {
        id,
        weight,
        land_uses: [true, false, false, false],
        density_min: 10,
        density_max: 60,
        min_interior_width_cells: 4,
        min_interior_depth_cells: 5,
        requires_corner: false,
        density_affinity: 0,
        tags: &[],
        professions: &[],
    }
}

fn ctx(density: i32, w: i32, d: i32, corner: bool) -> sim::generation::building_types::Context {
    sim::generation::building_types::Context {
        land_use_idx: 0,
        density,
        interior_width: w,
        interior_depth: d,
        corner,
        x: 0,
        y: 0,
        catchment: (0, 0),
    }
}

#[test]
fn hard_eligible_checks_use_density_interior_and_corner() {
    let b = def(1, 3);
    assert!(hard_eligible(&b, &ctx(10, 4, 5, false)));
    assert!(hard_eligible(&b, &ctx(60, 9, 9, false)));
    assert!(!hard_eligible(&b, &ctx(9, 4, 5, false)));
    assert!(!hard_eligible(&b, &ctx(61, 4, 5, false)));
    assert!(!hard_eligible(&b, &ctx(30, 3, 5, false)));
    assert!(!hard_eligible(&b, &ctx(30, 4, 4, false)));
    let mut commercial = ctx(30, 4, 5, false);
    commercial.land_use_idx = 1;
    assert!(!hard_eligible(&b, &commercial));
    let mut corner_only = def(2, 1);
    corner_only.requires_corner = true;
    assert!(!hard_eligible(&corner_only, &ctx(30, 4, 5, false)));
    assert!(hard_eligible(&corner_only, &ctx(30, 4, 5, true)));
}

#[test]
fn is_workplace_is_employing_any_profession() {
    let mut b = def(1, 1);
    assert!(!is_workplace(&b));
    b.professions = &["baker"];
    assert!(is_workplace(&b));
}

#[test]
fn weighted_pick_gives_each_type_a_share_of_the_roll_its_weight() {
    let types = [def(7, 2), def(3, 0), def(9, 5)];
    assert_eq!(weighted_pick(&types, 0), 7);
    assert_eq!(weighted_pick(&types, 1), 7);
    assert_eq!(weighted_pick(&types, 2), 9);
    assert_eq!(weighted_pick(&types, 6), 9);
    // A roll past the total falls back to the first type.
    assert_eq!(weighted_pick(&types, 7), 7);
}
