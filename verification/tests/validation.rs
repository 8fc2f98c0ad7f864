use sim::defs::{BalanceSeed, ObjectDef, SpriteRect, TagDef};
use sim::rules::source::RuleSet;
use sim::rules::{Cell, RuleSite, TagId};
use sim::validation::{
    validate, Candidate, Check, Content, Location, PlacedSite, ValidationError,
};
use sim::world::walkability::Placement;
use sim::world::{chunk_key, AreaSpec, Rect};

const DEFS_VERSION: &str = "defs-under-test";

const TAGS: &[TagDef] = &[
    TagDef { id: 1, key: "lighting" },
    TagDef { id: 2, key: "waste" },
    TagDef { id: 3, key: "seating" },
];

fn object(id: u32, key: &'static str, width: u32, tags: &'static [u32]) -> ObjectDef {
    ObjectDef {
        id,
        key,
        name: key,
        layer: 0,
        sprite: SpriteRect { sheet: "x", x: 0, y: 0, w: 16, h: 16 },
        width,
        height: 1,
        collider: None,
        interact_at: None,
        window: false,
        tags,
    }
}

fn objects() -> Vec<ObjectDef> {
    vec![
        object(10, "lamppost", 1, &[1]),
        object(11, "trash_bin", 1, &[2]),
        object(12, "park_bench", 2, &[3]),
    ]
}

fn balance() -> Vec<BalanceSeed> {
    vec![
        BalanceSeed { key: "movement.player_body_width_subcells", value: 8, min: 1, max: 16 },
        BalanceSeed { key: "movement.player_body_height_subcells", value: 8, min: 1, max: 16 },
    ]
}

fn object_id(key: &str) -> u32 {
    objects().iter().find(|o| o.key == key).unwrap().id
}

#[test]
fn rule_source_mismatch_renders_both_versions() {
    let err = ValidationError::RuleSourceMismatch {
        expected: "aaaa",
        actual: "bbbb".to_string(),
    };
    let rendered = err.to_text();
    assert!(rendered.contains("aaaa"));
    assert!(rendered.contains("bbbb"));
}

#[test]
fn unreadable_renders_its_own_message() {
    let err = ValidationError::Unreadable("bad block".to_string());
    assert!(err.to_text().contains("bad block"));
}

#[test]
fn a_subcell_rect_location_renders_the_floor_and_rect() {
    let location = Location::SubcellRect {
        floor: 2,
        rect: Rect {
            x0: 0,
            y0: 0,
            x1: 16,
            y1: 16,
        },
    };
    assert_eq!(location.to_text(), "floor 2 sub-cells (0, 0)-(16, 16)");
}

#[test]
fn a_walkability_check_renders_its_own_fixed_name() {
    let rules = RuleSet::for_test(&[]);
    assert_eq!(Check::EnclosedRegion.name(&rules), "walkability.enclosed_region");
    assert_eq!(Check::NarrowPassage.name(&rules), "walkability.narrow_passage");
}

fn area(owner_id: u64, floor: i8, rect: Rect) -> AreaSpec {
    AreaSpec {
        owner_id,
        floor,
        rect,
        chunk_key: chunk_key(rect.x0, rect.y0, floor),
    }
}

fn lamppost_id() -> u32 {
    object_id("lamppost")
}

fn support_tag_id(key: &str) -> TagId {
    TAGS.iter().find(|t| t.key == key).unwrap().id
}

#[test]
fn placed_site_stamps_every_footprint_cell_with_every_tag() {
    let bench_id = object_id("park_bench");
    let placements = [Placement {
        def_id: bench_id,
        anchor_x: 0,
        anchor_y: 0,
        floor: 0,
    }];
    let site = PlacedSite::build(&placements, &[], &[], &objects()).unwrap();
    // width 2, height 1: both footprint cells carry the object's tags.
    assert!(!site.tags_at(Cell::new(0, 0, 0)).is_empty());
    assert!(!site.tags_at(Cell::new(1, 0, 0)).is_empty());
    assert_eq!(
        site.tags_at(Cell::new(0, 0, 0)),
        site.tags_at(Cell::new(1, 0, 0))
    );
}

#[test]
fn placed_site_unions_tags_where_two_objects_stack_on_the_same_cell() {
    let placements = [
        Placement {
            def_id: lamppost_id(),
            anchor_x: 0,
            anchor_y: 0,
            floor: 0,
        },
        Placement {
            def_id: object_id("trash_bin"),
            anchor_x: 0,
            anchor_y: 0,
            floor: 0,
        },
    ];
    let site = PlacedSite::build(&placements, &[], &[], &objects()).unwrap();
    let tags = site.tags_at(Cell::new(0, 0, 0));
    assert!(tags.contains(&support_tag_id("lighting")));
    assert!(tags.contains(&support_tag_id("waste")));
}

#[test]
fn placed_site_gives_building_owner_1_and_room_owner_1_distinct_area_ids() {
    let rect = Rect {
        x0: 0,
        y0: 0,
        x1: 1,
        y1: 1,
    };
    let placements = [Placement {
        def_id: lamppost_id(),
        anchor_x: 0,
        anchor_y: 0,
        floor: 0,
    }];
    let site = PlacedSite::build(&placements, &[area(1, 0, rect)], &[area(1, 0, rect)], &objects()).unwrap();
    let areas = site.areas_containing(Cell::new(0, 0, 0));
    assert_eq!(areas.len(), 2);
    assert_ne!(areas[0], areas[1]);
}

#[test]
fn placed_site_merges_an_owners_per_chunk_rects_into_one_area() {
    let placements = [
        Placement {
            def_id: lamppost_id(),
            anchor_x: 0,
            anchor_y: 0,
            floor: 0,
        },
        Placement {
            def_id: lamppost_id(),
            anchor_x: 10,
            anchor_y: 0,
            floor: 0,
        },
    ];
    let site = PlacedSite::build(
        &placements,
        &[
            area(
                1,
                0,
                Rect {
                    x0: 0,
                    y0: 0,
                    x1: 1,
                    y1: 1,
                },
            ),
            area(
                1,
                0,
                Rect {
                    x0: 10,
                    y0: 0,
                    x1: 11,
                    y1: 1,
                },
            ),
        ],
        &[],
        &objects(),
    )
    .unwrap();
    let a = site.areas_containing(Cell::new(0, 0, 0));
    let b = site.areas_containing(Cell::new(10, 0, 0));
    assert_eq!(a, b);
}

#[test]
fn placed_site_builds_correctly_over_a_chunk_scale_block() {
    const ROWS: i32 = 50;
    const COLS: i32 = 50; // 2500 placements
    const AREAS_PER_ROW: i32 = 5; // 250 areas, 10 cells wide each

    let mut placements = Vec::new();
    for y in 0..ROWS {
        for x in 0..COLS {
            placements.push(Placement {
                def_id: lamppost_id(),
                anchor_x: x,
                anchor_y: y,
                floor: 0,
            });
        }
    }

    let mut building_areas = Vec::new();
    for y in 0..ROWS {
        for band in 0..AREAS_PER_ROW {
            let owner_id = (y * AREAS_PER_ROW + band) as u64 + 1;
            building_areas.push(area(
                owner_id,
                0,
                Rect {
                    x0: band * 10,
                    y0: y,
                    x1: band * 10 + 10,
                    y1: y + 1,
                },
            ));
        }
    }

    let site = PlacedSite::build(&placements, &building_areas, &[], &objects()).unwrap();

    // Every placed cell falls in exactly one band's own area.
    for y in [0, ROWS / 2, ROWS - 1] {
        for x in [0, 15, 27, COLS - 1] {
            let areas = site.areas_containing(Cell::new(x, y, 0));
            assert_eq!(
                areas.len(),
                1,
                "cell ({x}, {y}) should sit in exactly one area, got {areas:?}"
            );
        }
    }
    // A cell no placement ever touched carries no area.
    assert!(site.areas_containing(Cell::new(-1, -1, 0)).is_empty());
}

fn content<'a>(objects: &'a [ObjectDef], balance: &'a [BalanceSeed]) -> Content<'a> {
    Content {
        defs_version: DEFS_VERSION,
        rules: RuleSet::for_test(&[]),
        objects,
        balance,
    }
}

#[test]
fn validate_refuses_a_defs_version_mismatch_rather_than_an_empty_report() {
    let candidate = Candidate {
        defs_version: "not-the-real-version",
        placements: &[],
        building_areas: &[],
        room_areas: &[],
        floors: &[],
    };
    let (objects, balance) = (objects(), balance());
    let err = validate(&candidate, &content(&objects, &balance)).unwrap_err();
    assert!(matches!(err, ValidationError::RuleSourceMismatch { .. }));
}

#[test]
fn validate_accepts_the_committed_defs_version_and_reports_no_defects_for_an_empty_block() {
    let candidate = Candidate {
        defs_version: DEFS_VERSION,
        placements: &[],
        building_areas: &[],
        room_areas: &[],
        floors: &[],
    };
    let (objects, balance) = (objects(), balance());
    assert_eq!(validate(&candidate, &content(&objects, &balance)).unwrap(), vec![]);
}

#[test]
fn validate_errors_rather_than_panics_on_an_unknown_object_def_id() {
    let candidate = Candidate {
        defs_version: DEFS_VERSION,
        placements: &[Placement {
            def_id: 999_999,
            anchor_x: 0,
            anchor_y: 0,
            floor: 0,
        }],
        building_areas: &[],
        room_areas: &[],
        floors: &[],
    };
    let (objects, balance) = (objects(), balance());
    assert!(matches!(
        validate(&candidate, &content(&objects, &balance)),
        Err(ValidationError::Unreadable(_))
    ));
}
