use sim::rules::source::RuleSet;
use sim::rules::testing::SiteBuilder;
use sim::rules::{
    evaluate, AdjacencyRelation, AreaId, Cell, CoherenceMode, Direction, NeighbourTerm, RuleDef,
    RuleKind, TagId, Violation,
};


const CAFE: TagId = 1;
const SEATING: TagId = 3;
const WASTE: TagId = 4;
const WALL: TagId = 5;
const ROOM: TagId = 6;
const VILLA: TagId = 7;
const SKYSCRAPER: TagId = 8;
const DOOR: TagId = 9;
const DWELLING: TagId = 10;
const BUILDING: TagId = 11;

const BUILDING_A: AreaId = 1;

fn c(x: i32, y: i32, floor: i8) -> Cell {
    Cell::new(x, y, floor)
}

// --- placement --------------------------------------------------------

fn no_cafe_above_floor_2() -> RuleDef {
    RuleDef {
        id: 1,
        key: "no_cafe_above_floor_2",
        kind: RuleKind::Placement {
            subject: CAFE,
            container: None,
            floor_min: None,
            floor_max: Some(2),
        },
    }
}

#[test]
fn placement_satisfied_fixture_has_no_violation() {
    let site = SiteBuilder::new().cell(c(0, 0, 2), &[CAFE]).build();
    assert_eq!(evaluate(&[no_cafe_above_floor_2()], &site), vec![]);
}

#[test]
fn placement_violated_fixture_names_the_rule_and_the_cell() {
    let site = SiteBuilder::new().cell(c(0, 0, 3), &[CAFE]).build();
    assert_eq!(
        evaluate(&[no_cafe_above_floor_2()], &site),
        vec![Violation {
            rule_id: 1,
            subject: c(0, 0, 3),
            other: None
        }]
    );
}

#[test]
fn placement_boundary_floor_equal_to_max_passes_max_plus_one_fails() {
    let at_max = SiteBuilder::new().cell(c(0, 0, 2), &[CAFE]).build();
    assert!(evaluate(&[no_cafe_above_floor_2()], &at_max).is_empty());

    let over_max = SiteBuilder::new().cell(c(0, 0, 3), &[CAFE]).build();
    assert_eq!(evaluate(&[no_cafe_above_floor_2()], &over_max).len(), 1);
}

/// Decision (Crew, PR #294 cycle 1, see `RuleKind::Placement`'s own
/// doc comment): a container-scoped placement rule says nothing
/// about a `subject` cell outside every area matching `container` --
/// it is not checked at all, neither pass nor fail.
#[test]
fn placement_container_scoping_outside_any_matching_area_is_not_checked_by_design() {
    let rule = RuleDef {
        id: 2,
        key: "no_cafe_above_floor_2_downtown",
        kind: RuleKind::Placement {
            subject: CAFE,
            container: Some(BUILDING),
            floor_min: None,
            floor_max: Some(2),
        },
    };
    // Outside any building area at all: the container-scoped rule
    // says nothing about it.
    let outside = SiteBuilder::new().cell(c(0, 0, 5), &[CAFE]).build();
    assert!(evaluate(&[rule], &outside).is_empty());

    // Inside a building area tagged BUILDING, above floor 2: violates.
    let inside = SiteBuilder::new()
        .cell(c(1, 1, 5), &[CAFE])
        .area(c(1, 1, 5), BUILDING_A)
        .cell(c(9, 9, 0), &[BUILDING])
        .area(c(9, 9, 0), BUILDING_A)
        .build();
    assert_eq!(
        evaluate(&[rule], &inside),
        vec![Violation {
            rule_id: 2,
            subject: c(1, 1, 5),
            other: None
        }]
    );
}

// --- distribution -------------------------------------------------------

fn one_waste_per_2_seating() -> RuleDef {
    RuleDef {
        id: 3,
        key: "waste_per_2_seating",
        kind: RuleKind::Distribution {
            subject: WASTE,
            per: SEATING,
            ratio: 2,
            tolerance_percent: 0,
            min_spacing: 3,
            max_distance: 50,
        },
    }
}

#[test]
fn distribution_satisfied_fixture_has_no_violation() {
    let site = SiteBuilder::new()
        .cell(c(0, 0, 0), &[SEATING])
        .cell(c(10, 0, 0), &[SEATING])
        .cell(c(5, 0, 0), &[WASTE])
        .build();
    assert_eq!(evaluate(&[one_waste_per_2_seating()], &site), vec![]);
}

#[test]
fn distribution_violated_fixture_names_the_rule_and_a_subject() {
    // 4 seating -> expected 2 waste, 0% tolerance; only 1 waste present
    // (placed centrally so it covers every seating cell within
    // max_distance, isolating this fixture to the ratio check alone).
    let site = SiteBuilder::new()
        .cell(c(0, 0, 0), &[SEATING])
        .cell(c(10, 0, 0), &[SEATING])
        .cell(c(20, 0, 0), &[SEATING])
        .cell(c(30, 0, 0), &[SEATING])
        .cell(c(15, 0, 0), &[WASTE])
        .build();
    let rule = RuleDef {
        id: 3,
        key: "waste_per_2_seating",
        kind: RuleKind::Distribution {
            subject: WASTE,
            per: SEATING,
            ratio: 2,
            tolerance_percent: 0,
            min_spacing: 0,
            max_distance: 50,
        },
    };
    let violations = evaluate(&[rule], &site);
    assert_eq!(violations.len(), 1);
    assert_eq!(violations[0].rule_id, 3);
    assert_eq!(violations[0].subject, c(15, 0, 0));
}

#[test]
fn distribution_boundary_zero_per_cells_never_divides_by_zero() {
    let site = SiteBuilder::new().cell(c(0, 0, 0), &[WASTE]).build();
    assert_eq!(evaluate(&[one_waste_per_2_seating()], &site), vec![]);
}

#[test]
fn distribution_boundary_exactly_at_tolerance_passes_one_past_fails() {
    // 4 seating, ratio 2 -> expected 2, tolerance 50% -> ceil(1) = 1, so [1, 3] passes.
    let rule = RuleDef {
        id: 4,
        key: "waste_per_2_seating_tolerant",
        kind: RuleKind::Distribution {
            subject: WASTE,
            per: SEATING,
            ratio: 2,
            tolerance_percent: 50,
            min_spacing: 0,
            max_distance: 200,
        },
    };
    let at_tolerance = SiteBuilder::new()
        .cell(c(0, 0, 0), &[SEATING])
        .cell(c(1, 0, 0), &[SEATING])
        .cell(c(2, 0, 0), &[SEATING])
        .cell(c(3, 0, 0), &[SEATING])
        .cell(c(100, 0, 0), &[WASTE])
        .cell(c(101, 0, 0), &[WASTE])
        .cell(c(102, 0, 0), &[WASTE])
        .build();
    assert!(evaluate(&[rule], &at_tolerance).is_empty());

    let past_tolerance = SiteBuilder::new()
        .cell(c(0, 0, 0), &[SEATING])
        .cell(c(1, 0, 0), &[SEATING])
        .cell(c(2, 0, 0), &[SEATING])
        .cell(c(3, 0, 0), &[SEATING])
        .cell(c(100, 0, 0), &[WASTE])
        .cell(c(101, 0, 0), &[WASTE])
        .cell(c(102, 0, 0), &[WASTE])
        .cell(c(103, 0, 0), &[WASTE])
        .build();
    assert_eq!(evaluate(&[rule], &past_tolerance).len(), 1);
}

#[test]
fn distribution_spacing_violates_when_two_subjects_land_too_close() {
    let rule = RuleDef {
        id: 5,
        key: "waste_spread",
        kind: RuleKind::Distribution {
            subject: WASTE,
            per: SEATING,
            ratio: 1,
            tolerance_percent: 100,
            min_spacing: 5,
            max_distance: 50,
        },
    };
    let site = SiteBuilder::new()
        .cell(c(0, 0, 0), &[SEATING, WASTE])
        .cell(c(1, 0, 0), &[WASTE])
        .build();
    let violations = evaluate(&[rule], &site);
    assert_eq!(
        violations,
        vec![Violation {
            rule_id: 5,
            subject: c(1, 0, 0),
            other: None
        }]
    );
}

#[test]
fn distribution_even_layout_of_waste_never_violates_spacing() {
    let rule = RuleDef {
        id: 6,
        key: "waste_spread_even",
        kind: RuleKind::Distribution {
            subject: WASTE,
            per: SEATING,
            ratio: 1,
            tolerance_percent: 0,
            min_spacing: 4,
            max_distance: 50,
        },
    };
    let mut builder = SiteBuilder::new();
    for i in 0..5 {
        builder = builder
            .cell(c(i * 10, 0, 0), &[WASTE])
            .cell(c(i * 10, 0, 0), &[SEATING]);
    }
    let site = builder.build();
    assert!(evaluate(&[rule], &site).is_empty());
}

/// AC2's "evenly spread" (Quentin's direction, PR #294 cycle 1):
/// every `per` cell must be covered by some `subject` cell within
/// `max_distance`, not merely far enough from its *nearest* sibling
/// -- `min_spacing` alone would pass this exact layout (the two
/// subjects are 6 apart, well past a spacing floor of 3), yet the
/// far corner of `per` cells is left uncovered.
#[test]
fn distribution_coverage_violates_when_a_per_cell_has_no_nearby_subject() {
    let rule = RuleDef {
        id: 14,
        key: "waste_covers_seating",
        kind: RuleKind::Distribution {
            subject: WASTE,
            per: SEATING,
            ratio: 1,
            tolerance_percent: 100,
            min_spacing: 3,
            max_distance: 5,
        },
    };
    let site = SiteBuilder::new()
        .cell(c(0, 0, 0), &[WASTE])
        .cell(c(6, 0, 0), &[WASTE])
        .cell(c(0, 0, 0), &[SEATING])
        .cell(c(6, 0, 0), &[SEATING])
        .cell(c(100, 0, 0), &[SEATING])
        .build();
    let violations = evaluate(&[rule], &site);
    assert_eq!(
        violations,
        vec![Violation {
            rule_id: 14,
            subject: c(100, 0, 0),
            other: None
        }]
    );
}

#[test]
fn distribution_coverage_boundary_exactly_at_max_distance_passes_one_past_fails() {
    let rule = RuleDef {
        id: 15,
        key: "waste_covers_seating_boundary",
        kind: RuleKind::Distribution {
            subject: WASTE,
            per: SEATING,
            ratio: 1,
            tolerance_percent: 100,
            min_spacing: 0,
            max_distance: 5,
        },
    };
    let at_bound = SiteBuilder::new()
        .cell(c(0, 0, 0), &[WASTE])
        .cell(c(5, 0, 0), &[SEATING])
        .build();
    assert!(evaluate(&[rule], &at_bound).is_empty());

    let one_past = SiteBuilder::new()
        .cell(c(0, 0, 0), &[WASTE])
        .cell(c(6, 0, 0), &[SEATING])
        .build();
    assert_eq!(
        evaluate(&[rule], &one_past),
        vec![Violation {
            rule_id: 15,
            subject: c(6, 0, 0),
            other: None
        }]
    );
}

#[test]
fn distribution_coverage_zero_subjects_leaves_every_per_cell_uncovered() {
    let rule = RuleDef {
        id: 16,
        key: "waste_covers_seating_none_placed",
        kind: RuleKind::Distribution {
            subject: WASTE,
            per: SEATING,
            ratio: 1,
            tolerance_percent: 100,
            min_spacing: 0,
            max_distance: 5,
        },
    };
    let site = SiteBuilder::new().cell(c(0, 0, 0), &[SEATING]).build();
    assert_eq!(
        evaluate(&[rule], &site),
        vec![Violation {
            rule_id: 16,
            subject: c(0, 0, 0),
            other: None
        }]
    );
}

#[test]
fn distribution_clustered_in_one_corner_fails_coverage_even_though_spacing_is_satisfied() {
    // Ten subjects, four cells apart (comfortably past a spacing
    // floor of 3), but all packed into one corner of a much larger
    // city -- exactly the "evenly spread" failure AC2 names.
    let rule = RuleDef {
        id: 17,
        key: "waste_spread_corner",
        kind: RuleKind::Distribution {
            subject: WASTE,
            per: SEATING,
            ratio: 1,
            tolerance_percent: 1000,
            min_spacing: 3,
            max_distance: 20,
        },
    };
    let mut builder = SiteBuilder::new();
    for i in 0..10 {
        builder = builder.cell(c(i * 4, 0, 0), &[WASTE]);
    }
    builder = builder
        .cell(c(0, 0, 0), &[SEATING])
        .cell(c(490, 0, 0), &[SEATING]);
    let site = builder.build();

    let violations = evaluate(&[rule], &site);
    assert_eq!(
        violations,
        vec![Violation {
            rule_id: 17,
            subject: c(490, 0, 0),
            other: None
        }]
    );
}

// --- coherence ----------------------------------------------------------

fn no_skyscraper_in_villa_district() -> RuleDef {
    RuleDef {
        id: 7,
        key: "no_skyscraper_in_villa_district",
        kind: RuleKind::Coherence {
            subject: SKYSCRAPER,
            within: VILLA,
            mode: CoherenceMode::Forbid,
        },
    }
}

#[test]
fn coherence_satisfied_fixture_has_no_violation() {
    let site = SiteBuilder::new().cell(c(0, 0, 0), &[SKYSCRAPER]).build();
    assert_eq!(
        evaluate(&[no_skyscraper_in_villa_district()], &site),
        vec![]
    );
}

#[test]
fn coherence_violated_fixture_names_the_rule_and_the_cell() {
    let site = SiteBuilder::new()
        .cell(c(0, 0, 0), &[SKYSCRAPER])
        .area(c(0, 0, 0), BUILDING_A)
        .cell(c(5, 5, 0), &[VILLA])
        .area(c(5, 5, 0), BUILDING_A)
        .build();
    assert_eq!(
        evaluate(&[no_skyscraper_in_villa_district()], &site),
        vec![Violation {
            rule_id: 7,
            subject: c(0, 0, 0),
            other: None
        }]
    );
}

/// Decision (see `CoherenceMode::Forbid`'s own doc comment): a
/// subject outside every real area has nothing to forbid against.
#[test]
fn coherence_forbid_mode_cell_outside_any_area_is_never_a_violation() {
    let site = SiteBuilder::new().cell(c(0, 0, 0), &[SKYSCRAPER]).build();
    assert!(evaluate(&[no_skyscraper_in_villa_district()], &site).is_empty());
}

/// Decision (see `CoherenceMode::Allow`'s own doc comment): a
/// subject outside every real area -- symmetrically -- *is* a
/// violation under `Allow`, since it can never be "only within" an
/// area it is not in at all.
#[test]
fn coherence_allow_mode_cell_outside_any_area_is_a_violation() {
    let rule = RuleDef {
        id: 8,
        key: "wall_only_in_room",
        kind: RuleKind::Coherence {
            subject: WALL,
            within: ROOM,
            mode: CoherenceMode::Allow,
        },
    };
    let outside = SiteBuilder::new().cell(c(0, 0, 0), &[WALL]).build();
    assert_eq!(evaluate(&[rule], &outside).len(), 1);

    let inside = SiteBuilder::new()
        .cell(c(0, 0, 0), &[WALL])
        .area(c(0, 0, 0), BUILDING_A)
        .cell(c(1, 1, 0), &[ROOM])
        .area(c(1, 1, 0), BUILDING_A)
        .build();
    assert!(evaluate(&[rule], &inside).is_empty());
}

// --- adjacency ------------------------------------------------------------

fn door_requires_wall_to_the_north() -> RuleDef {
    RuleDef {
        id: 9,
        key: "door_requires_wall_north",
        kind: RuleKind::Adjacency {
            a: DOOR,
            relation: AdjacencyRelation::Require,
            alternatives: &[&[NeighbourTerm {
                direction: Direction::North,
                tag: WALL,
                present: true,
            }]],
        },
    }
}

#[test]
fn adjacency_satisfied_fixture_has_no_violation() {
    let site = SiteBuilder::new()
        .cell(c(0, 1, 0), &[DOOR])
        .cell(c(0, 0, 0), &[WALL])
        .build();
    assert_eq!(
        evaluate(&[door_requires_wall_to_the_north()], &site),
        vec![]
    );
}

#[test]
fn adjacency_violated_fixture_names_the_rule_and_the_cell() {
    let site = SiteBuilder::new().cell(c(0, 1, 0), &[DOOR]).build();
    assert_eq!(
        evaluate(&[door_requires_wall_to_the_north()], &site),
        vec![Violation {
            rule_id: 9,
            subject: c(0, 1, 0),
            other: None
        }]
    );
}

#[test]
fn adjacency_is_directional_a_next_to_b_differs_from_b_next_to_a() {
    // DOOR at (0,1) has WALL to its south (0,2), not its north -- the
    // north-specific rule must still violate.
    let site = SiteBuilder::new()
        .cell(c(0, 1, 0), &[DOOR])
        .cell(c(0, 2, 0), &[WALL])
        .build();
    assert_eq!(
        evaluate(&[door_requires_wall_to_the_north()], &site).len(),
        1
    );
}

#[test]
fn adjacency_forbid_violates_only_when_present_in_the_named_direction() {
    let rule = RuleDef {
        id: 10,
        key: "door_never_faces_wall_north",
        kind: RuleKind::Adjacency {
            a: DOOR,
            relation: AdjacencyRelation::Forbid,
            alternatives: &[&[NeighbourTerm {
                direction: Direction::North,
                tag: WALL,
                present: true,
            }]],
        },
    };
    let wall_to_south = SiteBuilder::new()
        .cell(c(0, 1, 0), &[DOOR])
        .cell(c(0, 2, 0), &[WALL])
        .build();
    assert!(evaluate(&[rule], &wall_to_south).is_empty());

    let wall_to_north = SiteBuilder::new()
        .cell(c(0, 1, 0), &[DOOR])
        .cell(c(0, 0, 0), &[WALL])
        .build();
    assert_eq!(evaluate(&[rule], &wall_to_north).len(), 1);
}

/// Story 2.9's own strengthening of AC2: a `Forbid` violation names
/// `other`, the exact matched neighbour cell -- "the violating pair",
/// not merely the subject.
#[test]
fn adjacency_forbid_violation_names_the_matched_neighbour_as_other() {
    let rule = RuleDef {
        id: 10,
        key: "door_never_faces_wall_north",
        kind: RuleKind::Adjacency {
            a: DOOR,
            relation: AdjacencyRelation::Forbid,
            alternatives: &[&[NeighbourTerm {
                direction: Direction::North,
                tag: WALL,
                present: true,
            }]],
        },
    };
    let site = SiteBuilder::new()
        .cell(c(0, 1, 0), &[DOOR])
        .cell(c(0, 0, 0), &[WALL])
        .build();
    assert_eq!(
        evaluate(&[rule], &site),
        vec![Violation {
            rule_id: 10,
            subject: c(0, 1, 0),
            other: Some(c(0, 0, 0)),
        }]
    );
}

/// A `Forbid` row with one alternative per direction (the any-side
/// lowering of a direction-less `b`) reports one violation per
/// offending side, never just the first -- distinct `other` cells
/// keep them distinct violations.
#[test]
fn adjacency_forbid_reports_one_violation_per_matching_alternative() {
    let rule = RuleDef {
        id: 10,
        key: "no_wall_adjacent",
        kind: RuleKind::Adjacency {
            a: DOOR,
            relation: AdjacencyRelation::Forbid,
            alternatives: &[
                &[NeighbourTerm {
                    direction: Direction::North,
                    tag: WALL,
                    present: true,
                }],
                &[NeighbourTerm {
                    direction: Direction::East,
                    tag: WALL,
                    present: true,
                }],
                &[NeighbourTerm {
                    direction: Direction::South,
                    tag: WALL,
                    present: true,
                }],
                &[NeighbourTerm {
                    direction: Direction::West,
                    tag: WALL,
                    present: true,
                }],
            ],
        },
    };
    let site = SiteBuilder::new()
        .cell(c(0, 0, 0), &[DOOR])
        .cell(c(0, -1, 0), &[WALL])
        .cell(c(1, 0, 0), &[WALL])
        .build();
    assert_eq!(
        evaluate(&[rule], &site),
        vec![
            Violation {
                rule_id: 10,
                subject: c(0, 0, 0),
                other: Some(c(0, -1, 0)),
            },
            Violation {
                rule_id: 10,
                subject: c(0, 0, 0),
                other: Some(c(1, 0, 0)),
            },
        ]
    );
}

#[test]
fn adjacency_without_a_direction_checks_all_four_neighbours() {
    let rule = RuleDef {
        id: 11,
        key: "door_requires_wall_any_side",
        kind: RuleKind::Adjacency {
            a: DOOR,
            relation: AdjacencyRelation::Require,
            alternatives: &[
                &[NeighbourTerm {
                    direction: Direction::North,
                    tag: WALL,
                    present: true,
                }],
                &[NeighbourTerm {
                    direction: Direction::East,
                    tag: WALL,
                    present: true,
                }],
                &[NeighbourTerm {
                    direction: Direction::South,
                    tag: WALL,
                    present: true,
                }],
                &[NeighbourTerm {
                    direction: Direction::West,
                    tag: WALL,
                    present: true,
                }],
            ],
        },
    };
    let wall_to_east = SiteBuilder::new()
        .cell(c(0, 0, 0), &[DOOR])
        .cell(c(1, 0, 0), &[WALL])
        .build();
    assert!(evaluate(&[rule], &wall_to_east).is_empty());
}

/// A multi-term alternative (a neighbourhood pattern -- e.g. "wall to
/// the north AND wall to the south", the shape a corner or doorway
/// primitive needs) matches only when every one of its terms holds
/// (story 2.9, AC3).
#[test]
fn adjacency_multi_term_alternative_requires_every_term() {
    let rule = RuleDef {
        id: 11,
        key: "door_between_two_walls",
        kind: RuleKind::Adjacency {
            a: DOOR,
            relation: AdjacencyRelation::Require,
            alternatives: &[&[
                NeighbourTerm {
                    direction: Direction::North,
                    tag: WALL,
                    present: true,
                },
                NeighbourTerm {
                    direction: Direction::South,
                    tag: WALL,
                    present: true,
                },
            ]],
        },
    };
    let only_north = SiteBuilder::new()
        .cell(c(0, 1, 0), &[DOOR])
        .cell(c(0, 0, 0), &[WALL])
        .build();
    assert_eq!(evaluate(&[rule], &only_north).len(), 1);

    let both_sides = SiteBuilder::new()
        .cell(c(0, 1, 0), &[DOOR])
        .cell(c(0, 0, 0), &[WALL])
        .cell(c(0, 2, 0), &[WALL])
        .build();
    assert!(evaluate(&[rule], &both_sides).is_empty());
}

/// A `present: false` term matches an *absent* tag -- the shape a
/// corner primitive needs ("wall to the north, no wall to the
/// east").
#[test]
fn adjacency_present_false_term_matches_an_absent_tag() {
    let rule = RuleDef {
        id: 11,
        key: "door_requires_no_wall_east",
        kind: RuleKind::Adjacency {
            a: DOOR,
            relation: AdjacencyRelation::Require,
            alternatives: &[&[NeighbourTerm {
                direction: Direction::East,
                tag: WALL,
                present: false,
            }]],
        },
    };
    let wall_present = SiteBuilder::new()
        .cell(c(0, 0, 0), &[DOOR])
        .cell(c(1, 0, 0), &[WALL])
        .build();
    assert_eq!(evaluate(&[rule], &wall_present).len(), 1);

    let wall_absent = SiteBuilder::new().cell(c(0, 0, 0), &[DOOR]).build();
    assert!(evaluate(&[rule], &wall_absent).is_empty());
}

// --- requirement ----------------------------------------------------------

fn every_dwelling_has_a_door() -> RuleDef {
    RuleDef {
        id: 12,
        key: "every_dwelling_has_a_door",
        kind: RuleKind::Requirement {
            container: DWELLING,
            requires: DOOR,
            min: 1,
            max: None,
        },
    }
}

#[test]
fn requirement_satisfied_fixture_has_no_violation() {
    let site = SiteBuilder::new()
        .cell(c(0, 0, 0), &[DWELLING])
        .area(c(0, 0, 0), BUILDING_A)
        .cell(c(1, 0, 0), &[DOOR])
        .area(c(1, 0, 0), BUILDING_A)
        .build();
    assert_eq!(evaluate(&[every_dwelling_has_a_door()], &site), vec![]);
}

#[test]
fn requirement_violated_fixture_names_the_rule_and_the_cell() {
    let site = SiteBuilder::new()
        .cell(c(0, 0, 0), &[DWELLING])
        .area(c(0, 0, 0), BUILDING_A)
        .build();
    assert_eq!(
        evaluate(&[every_dwelling_has_a_door()], &site),
        vec![Violation {
            rule_id: 12,
            subject: c(0, 0, 0),
            other: None
        }]
    );
}

#[test]
fn requirement_boundary_zero_dwellings_is_vacuously_met() {
    let site = SiteBuilder::new().cell(c(0, 0, 0), &[DOOR]).build();
    assert_eq!(evaluate(&[every_dwelling_has_a_door()], &site), vec![]);
}

#[test]
fn requirement_max_rejects_too_many() {
    let rule = RuleDef {
        id: 13,
        key: "at_most_one_door",
        kind: RuleKind::Requirement {
            container: DWELLING,
            requires: DOOR,
            min: 0,
            max: Some(1),
        },
    };
    let site = SiteBuilder::new()
        .cell(c(0, 0, 0), &[DWELLING])
        .area(c(0, 0, 0), BUILDING_A)
        .cell(c(1, 0, 0), &[DOOR])
        .area(c(1, 0, 0), BUILDING_A)
        .cell(c(2, 0, 0), &[DOOR])
        .area(c(2, 0, 0), BUILDING_A)
        .build();
    assert_eq!(evaluate(&[rule], &site).len(), 1);
}

/// Decision (see `RuleKind::Requirement`'s own doc comment,
/// Quentin's direction PR #294 cycle 1): a container cell in *no*
/// real area at all is itself a violation, unconditionally --
/// including when `min == 0`, where "just count what's in scope"
/// would otherwise (wrongly) call it satisfied. Vacuous truth belongs
/// only to "zero container cells exist", never to "we found one but
/// could not scope it".
#[test]
fn requirement_container_outside_any_area_is_itself_a_violation() {
    let rule = RuleDef {
        id: 18,
        key: "dwelling_needs_no_doors_but_needs_an_area",
        kind: RuleKind::Requirement {
            container: DWELLING,
            requires: DOOR,
            min: 0,
            max: None,
        },
    };
    let site = SiteBuilder::new().cell(c(0, 0, 0), &[DWELLING]).build();
    assert_eq!(
        evaluate(&[rule], &site),
        vec![Violation {
            rule_id: 18,
            subject: c(0, 0, 0),
            other: None
        }]
    );
}

/// A container cell inside two failing areas (e.g. a room nested in
/// a building, both scoped as real areas containing it) must be
/// reported once, not once per failing area (Tim's direction, PR
/// #294 cycle 1).
#[test]
fn requirement_deduplicates_a_container_cell_failing_in_two_areas_at_once() {
    const ROOM_AREA: AreaId = 2;
    let rule = RuleDef {
        id: 19,
        key: "dwelling_needs_a_door_in_every_area",
        kind: RuleKind::Requirement {
            container: DWELLING,
            requires: DOOR,
            min: 1,
            max: None,
        },
    };
    let site = SiteBuilder::new()
        .cell(c(0, 0, 0), &[DWELLING])
        .area(c(0, 0, 0), BUILDING_A)
        .area(c(0, 0, 0), ROOM_AREA)
        .build();
    assert_eq!(
        evaluate(&[rule], &site),
        vec![Violation {
            rule_id: 19,
            subject: c(0, 0, 0),
            other: None
        }]
    );
}

// --- cross-cutting ----------------------------------------------------------

#[test]
fn evaluate_returns_every_violation_sorted_by_rule_id_then_subject_never_stopping_early() {
    let site = SiteBuilder::new()
        .cell(c(5, 0, 3), &[CAFE])
        .cell(c(1, 0, 3), &[CAFE])
        .build();
    let low_id = RuleDef {
        id: 1,
        key: "a",
        kind: RuleKind::Placement {
            subject: CAFE,
            container: None,
            floor_min: None,
            floor_max: Some(2),
        },
    };
    let high_id = RuleDef {
        id: 2,
        key: "b",
        kind: RuleKind::Placement {
            subject: CAFE,
            container: None,
            floor_min: None,
            floor_max: Some(2),
        },
    };
    let violations = evaluate(&[high_id, low_id], &site);
    assert_eq!(
        violations,
        vec![
            Violation {
                rule_id: 1,
                subject: c(1, 0, 3),
                other: None
            },
            Violation {
                rule_id: 1,
                subject: c(5, 0, 3),
                other: None
            },
            Violation {
                rule_id: 2,
                subject: c(1, 0, 3),
                other: None
            },
            Violation {
                rule_id: 2,
                subject: c(5, 0, 3),
                other: None
            },
        ]
    );
}


#[test]
fn for_test_wraps_exactly_the_given_slice() {
    let rules: &[RuleDef] = &[];
    let set = RuleSet::for_test(rules);
    assert_eq!(set.rules().len(), 0);
}
