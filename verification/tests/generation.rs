use sim::defs::BalanceSeed;
use sim::generation::land_use::{
    guaranteed_min_region_cells, run, subdivide, uses_present, LandUse, PASS_ID,
};
use sim::generation::streets::{
    build_graph, p99_ratio_pct, target_block_depth, target_block_size, Axis, Block, DetourSample,
    StreetClass, StreetEdge, StreetNetwork, DETOUR_SAMPLE_MAX_NODES,
};
use sim::generation::envelopes::{
    place_all, place_one, row_bounds_by_block_front, run as place_envelopes, Envelope, EnvelopeMap, EnvelopeOutcome, RejectReason,
};
use sim::generation::plots::{Plot, PlotMap};
use sim::generation::streets::Side;
use sim::generation::{block_land_use, GenerationConfig, GenerationError, SiteBounds};
use sim::rng::{seed_from_ids, Rng};
use sim::world::Rect;

fn seed(key: &'static str, value: i64, min: i64, max: i64) -> BalanceSeed {
    BalanceSeed {
        key,
        value,
        min,
        max,
    }
}


fn valid_balance() -> Vec<BalanceSeed> {
    vec![
        seed("generation.site_extent_cells", 512, 64, 2048),
        seed("generation.land_use.coarse_cell_size_cells", 16, 1, 128),
        seed("generation.land_use.min_leaf_cells", 4, 1, 64),
        seed("generation.land_use.max_leaf_cells", 10, 2, 128),
        seed("generation.land_use.split_jitter_pct", 30, 0, 45),
        seed("generation.land_use.max_recursion_depth", 8, 1, 20),
        seed("generation.land_use.density_min", 10, 0, 1000),
        seed("generation.land_use.density_max", 100, 0, 1000),
        seed("generation.land_use.density_peak_offset_min_pct", 15, 0, 50),
        seed("generation.land_use.density_peak_offset_max_pct", 40, 0, 50),
        seed("generation.land_use.share_residential_pct", 58, 0, 100),
        seed("generation.land_use.share_commercial_pct", 18, 0, 100),
        seed("generation.land_use.share_industrial_pct", 14, 0, 100),
        seed("generation.land_use.share_institutional_pct", 10, 0, 100),
        seed("generation.streets.arterial_count_ns_min", 2, 0, 4),
        seed("generation.streets.arterial_count_ns_max", 3, 0, 4),
        seed("generation.streets.arterial_count_ew_min", 1, 0, 4),
        seed("generation.streets.arterial_count_ew_max", 2, 0, 4),
        seed("generation.streets.arterial_width_cells", 12, 2, 64),
        seed("generation.streets.street_width_cells", 8, 2, 64),
        seed("generation.streets.lane_width_cells", 4, 2, 64),
        seed("generation.streets.arterial_jitter_pct", 60, 0, 90),
        seed("generation.streets.block_size_min_cells", 40, 4, 512),
        seed("generation.streets.block_size_max_cells", 96, 4, 512),
        seed("generation.streets.min_block_depth_cells", 16, 2, 256),
        seed("generation.streets.max_block_depth_min_cells", 40, 2, 1024),
        seed("generation.streets.max_block_depth_max_cells", 80, 2, 1024),
        seed("generation.streets.split_jitter_pct", 25, 0, 45),
        seed("generation.streets.max_recursion_depth", 12, 1, 64),
        seed("generation.streets.max_lane_splits", 4, 0, 16),
        seed(
            "generation.streets.max_street_splits_per_superblock",
            1,
            0,
            16,
        ),
        seed(
            "generation.streets.junction_min_separation_cells",
            28,
            1,
            256,
        ),
        seed("generation.streets.detour_long_pair_cells", 128, 1, 2048),
        seed("generation.streets.max_detour_percent", 200, 100, 500),
        seed("generation.streets.max_detour_excess_cells", 80, 1, 2048),
        seed("generation.streets.p99_detour_percent", 160, 100, 500),
        seed("generation.streets.min_distinct_block_sizes", 3, 1, 16),
        seed(
            "generation.streets.peripheral_low_band_floor_percent",
            70,
            1,
            100,
        ),
        seed(
            "generation.streets.peripheral_pooled_min_ratio_percent",
            150,
            100,
            1000,
        ),
        seed("generation.land_use.institutional_min_pockets", 3, 1, 16),
        seed(
            "generation.land_use.institutional_max_pocket_share_percent",
            6,
            1,
            100,
        ),
        seed("generation.plots.frontage_min_cells", 3, 1, 16),
        seed("generation.plots.high_density_threshold", 60, 0, 1000),
        seed("generation.plots.setback_periphery_cells", 2, 0, 8),
        seed("generation.plots.residential_width_min_cells", 10, 2, 64),
        seed("generation.plots.commercial_width_min_cells", 12, 2, 64),
        seed("generation.plots.industrial_width_min_cells", 14, 2, 64),
        seed("generation.plots.institutional_width_min_cells", 14, 2, 64),
        seed("generation.plots.residential_width_max_cells", 14, 2, 64),
        seed("generation.plots.commercial_width_max_cells", 18, 2, 64),
        seed("generation.plots.industrial_width_max_cells", 22, 2, 64),
        seed("generation.plots.institutional_width_max_cells", 22, 2, 64),
        seed("generation.plots.residential_row_depth_cells", 14, 2, 64),
        seed("generation.plots.commercial_row_depth_cells", 12, 2, 64),
        seed("generation.plots.industrial_row_depth_cells", 16, 2, 64),
        seed("generation.plots.institutional_row_depth_cells", 16, 2, 64),
        seed("generation.plots.max_core_depth_cells", 8, 2, 64),
        seed(
            "generation.plots.max_core_depth_periphery_cells",
            32,
            2,
            128,
        ),
        seed("generation.plots.open_min_side_cells", 8, 1, 64),
        seed("generation.plots.max_open_percent_by_count", 15, 0, 100),
        seed("generation.plots.max_open_percent_by_area", 15, 0, 100),
        seed("generation.plots.max_unplotted_percent", 20, 0, 100),
        seed("generation.envelopes.wall_thickness_cells", 1, 1, 4),
        seed(
            "generation.envelopes.residential_min_interior_width_cells",
            4,
            1,
            64,
        ),
        seed(
            "generation.envelopes.commercial_min_interior_width_cells",
            6,
            1,
            64,
        ),
        seed(
            "generation.envelopes.industrial_min_interior_width_cells",
            8,
            1,
            64,
        ),
        seed(
            "generation.envelopes.institutional_min_interior_width_cells",
            8,
            1,
            64,
        ),
        seed(
            "generation.envelopes.residential_min_interior_depth_cells",
            4,
            1,
            64,
        ),
        seed(
            "generation.envelopes.commercial_min_interior_depth_cells",
            6,
            1,
            64,
        ),
        seed(
            "generation.envelopes.industrial_min_interior_depth_cells",
            8,
            1,
            64,
        ),
        seed(
            "generation.envelopes.institutional_min_interior_depth_cells",
            8,
            1,
            64,
        ),
        seed("generation.envelopes.max_width_cells", 22, 4, 64),
        seed("generation.envelopes.max_depth_cells", 16, 4, 64),
        seed("generation.envelopes.side_gap_periphery_cells", 4, 0, 16),
        seed("generation.envelopes.size_trim_max_cells", 2, 0, 16),
        seed("generation.envelopes.mean_width_cells", 12, 2, 64),
        seed("generation.envelopes.mean_width_tolerance_cells", 4, 0, 32),
        seed("generation.envelopes.mean_depth_cells", 11, 2, 64),
        seed("generation.envelopes.mean_depth_tolerance_cells", 4, 0, 32),
        seed("generation.envelopes.min_distinct_sizes", 3, 1, 64),
        seed(
            "generation.envelopes.target_count_per_million_cells",
            3410,
            0,
            1_000_000,
        ),
        seed("generation.envelopes.count_tolerance_percent", 15, 0, 100),
        seed(
            "generation.envelopes.mean_count_tolerance_percent",
            3,
            0,
            100,
        ),
        seed("generation.envelopes.max_rejected_plot_percent", 5, 0, 100),
        seed(
            "generation.building_types.target_workplaces_per_million_cells",
            1312,
            0,
            1_000_000,
        ),
        seed(
            "generation.building_types.workplace_count_tolerance_percent",
            30,
            0,
            100,
        ),
        seed(
            "generation.building_types.workplace_mean_count_tolerance_percent",
            5,
            0,
            100,
        ),
        seed(
            "generation.building_types.catchment_extent_cells",
            256,
            1,
            100000,
        ),
    ]
}


fn with_override(key: &str, value: i64) -> Vec<BalanceSeed> {
    let mut balance = valid_balance();
    let entry = balance.iter_mut().find(|b| b.key == key).unwrap();
    entry.value = value;
    balance
}


#[test]
fn from_balance_accepts_a_valid_fixture() {
    let cfg = GenerationConfig::from_balance(&valid_balance()).unwrap();
    assert_eq!(cfg.site_extent_cells, 512);
    assert_eq!(
        cfg.site(),
        SiteBounds {
            x0: 0,
            y0: 0,
            x1: 512,
            y1: 512
        }
    );
}

#[test]
fn from_balance_rejects_a_site_extent_not_a_multiple_of_the_coarse_cell_size() {
    let balance = with_override("generation.site_extent_cells", 500);
    let err = GenerationConfig::from_balance(&balance).unwrap_err();
    assert!(err.to_text().contains("whole multiple"));
}

#[test]
fn from_balance_rejects_an_odd_street_width() {
    let balance = with_override("generation.streets.street_width_cells", 7);
    let err = GenerationConfig::from_balance(&balance).unwrap_err();
    assert!(err.to_text().contains("must be even"));
}

#[test]
fn from_balance_rejects_shares_not_summing_to_100() {
    let balance = with_override("generation.land_use.share_residential_pct", 59);
    let err = GenerationConfig::from_balance(&balance).unwrap_err();
    assert!(err.to_text().contains("sum to"));
}

#[test]
fn from_balance_rejects_density_min_over_density_max() {
    let balance = with_override("generation.land_use.density_min", 200);
    let err = GenerationConfig::from_balance(&balance).unwrap_err();
    assert!(err.to_text().contains("density_min"));
}

#[test]
fn from_balance_rejects_block_size_min_over_max() {
    let balance = with_override("generation.streets.block_size_min_cells", 200);
    let err = GenerationConfig::from_balance(&balance).unwrap_err();
    assert!(err.to_text().contains("block_size_min_cells"));
}

#[test]
fn from_balance_rejects_max_leaf_cells_under_twice_min_leaf_cells() {
    let mut balance = valid_balance();
    balance
        .iter_mut()
        .find(|b| b.key == "generation.land_use.min_leaf_cells")
        .unwrap()
        .value = 10;
    balance
        .iter_mut()
        .find(|b| b.key == "generation.land_use.max_leaf_cells")
        .unwrap()
        .value = 15;
    let err = GenerationConfig::from_balance(&balance).unwrap_err();
    assert!(err.to_text().contains("max_leaf_cells"));
}

#[test]
fn from_balance_accepts_max_leaf_cells_at_exactly_twice_min_leaf_cells() {
    let mut balance = valid_balance();
    balance
        .iter_mut()
        .find(|b| b.key == "generation.land_use.min_leaf_cells")
        .unwrap()
        .value = 5;
    balance
        .iter_mut()
        .find(|b| b.key == "generation.land_use.max_leaf_cells")
        .unwrap()
        .value = 10;
    GenerationConfig::from_balance(&balance)
        .expect("exactly twice must be accepted, not just over it");
}

#[test]
fn from_balance_rejects_a_non_positive_coarse_cell_size() {
    // coarse_cell_size_cells' own declared min (1) already refuses 0
    // at the defs/-authoring level; this pins the from_balance guard
    // itself, independent of that authoring-time range, the same way
    // every other cross-key check here is pinned against a
    // deliberately-broken fixture rather than trusted from defs/.
    let balance = with_override("generation.land_use.coarse_cell_size_cells", 0);
    let err = GenerationConfig::from_balance(&balance).unwrap_err();
    assert!(err.to_text().contains("whole multiple"));
}

#[test]
fn from_balance_rejects_peak_offset_min_over_max() {
    let balance = with_override("generation.land_use.density_peak_offset_min_pct", 45);
    let err = GenerationConfig::from_balance(&balance).unwrap_err();
    assert!(err.to_text().contains("density_peak_offset_min_pct"));
}

#[test]
fn from_balance_rejects_max_block_depth_min_over_max() {
    let balance = with_override("generation.streets.max_block_depth_min_cells", 200);
    let err = GenerationConfig::from_balance(&balance).unwrap_err();
    assert!(err.to_text().contains("max_block_depth_min_cells"));
}

#[test]
fn from_balance_rejects_p99_detour_percent_over_max_detour_percent() {
    let balance = with_override("generation.streets.p99_detour_percent", 500);
    let err = GenerationConfig::from_balance(&balance).unwrap_err();
    assert!(err.to_text().contains("p99_detour_percent"));
}

#[test]
fn from_balance_rejects_max_detour_excess_cells_over_the_loosening_guard() {
    // fixture: block_size_max_cells=96, arterial_width_cells=12 ->
    // guard = 4*96 + 2*12 = 408.
    let balance = with_override("generation.streets.max_detour_excess_cells", 409);
    let err = GenerationConfig::from_balance(&balance).unwrap_err();
    assert!(err.to_text().contains("max_detour_excess_cells"));
    assert!(err.to_text().contains("loosening guard"));
}

#[test]
fn from_balance_accepts_max_detour_excess_cells_at_the_loosening_guard() {
    // Same fixture as above, right on the boundary: the guard itself
    // (408) is admitted, only a value strictly over it is refused
    // (AC4's mechanical both-sides-of-the-boundary check).
    let balance = with_override("generation.streets.max_detour_excess_cells", 408);
    GenerationConfig::from_balance(&balance)
        .expect("the loosening guard itself must be accepted, not just values under it");
}

#[test]
fn from_balance_rejects_peripheral_low_band_floor_percent_over_pooled_min_ratio_percent() {
    let balance = with_override("generation.streets.peripheral_low_band_floor_percent", 200);
    let err = GenerationConfig::from_balance(&balance).unwrap_err();
    assert!(
        err.to_text()
            .contains("peripheral_low_band_floor_percent")
    );
}

#[test]
fn from_balance_rejects_arterial_count_ns_min_over_max() {
    let balance = with_override("generation.streets.arterial_count_ns_min", 4);
    let err = GenerationConfig::from_balance(&balance).unwrap_err();
    assert!(err.to_text().contains("arterial_count_ns_min"));
}

#[test]
fn from_balance_rejects_arterial_count_ew_min_over_max() {
    let balance = with_override("generation.streets.arterial_count_ew_min", 4);
    let err = GenerationConfig::from_balance(&balance).unwrap_err();
    assert!(err.to_text().contains("arterial_count_ew_min"));
}

#[test]
fn from_balance_rejects_an_odd_envelope_side_gap() {
    let balance = with_override("generation.envelopes.side_gap_periphery_cells", 3);
    let err = GenerationConfig::from_balance(&balance).unwrap_err();
    assert!(err.to_text().contains("side_gap_periphery_cells"));
}

#[test]
fn from_balance_rejects_plot_width_min_over_max_for_a_land_use() {
    let balance = with_override("generation.plots.residential_width_min_cells", 20);
    let err = GenerationConfig::from_balance(&balance).unwrap_err();
    assert!(err.to_text().contains("residential_width_min_cells"));
}

#[test]
fn from_balance_rejects_an_envelope_minimum_the_plot_minimum_can_never_hold() {
    let balance = with_override(
        "generation.envelopes.residential_min_interior_width_cells",
        20,
    );
    let err = GenerationConfig::from_balance(&balance).unwrap_err();
    assert!(err.to_text().contains("plot minimum"));
}

#[test]
fn from_balance_rejects_an_envelope_minimum_over_its_own_class_max() {
    let balance = with_override("generation.envelopes.max_width_cells", 4);
    let err = GenerationConfig::from_balance(&balance).unwrap_err();
    assert!(err.to_text().contains("max_width_cells"));
}

#[test]
fn from_balance_rejects_a_mean_width_outside_its_own_band() {
    let balance = with_override("generation.envelopes.mean_width_cells", 100);
    let err = GenerationConfig::from_balance(&balance).unwrap_err();
    assert!(err.to_text().contains("mean_width_cells"));
}

fn cfg() -> GenerationConfig {
    GenerationConfig::from_balance(&valid_balance()).unwrap()
}

#[test]
fn land_use_run_is_deterministic_for_the_same_seed() {
    let c = cfg();
    let a = run(42, c.site(), &c).unwrap();
    let b = run(42, c.site(), &c).unwrap();
    assert_eq!(a.cols(), b.cols());
    assert_eq!(a.rows(), b.rows());
    for cy in 0..a.rows() {
        for cx in 0..a.cols() {
            assert_eq!(a.coarse_at(cx, cy), b.coarse_at(cx, cy));
        }
    }
}

#[test]
fn different_seeds_usually_produce_different_maps() {
    let c = cfg();
    let a = run(1, c.site(), &c).unwrap();
    let b = run(2, c.site(), &c).unwrap();
    let differs =
        (0..a.rows()).any(|cy| (0..a.cols()).any(|cx| a.coarse_at(cx, cy) != b.coarse_at(cx, cy)));
    assert!(differs, "two different seeds produced an identical map");
}

#[test]
fn every_coarse_cell_is_assigned_no_none_variant_exists() {
    let c = cfg();
    let map = run(7, c.site(), &c).unwrap();
    for cy in 0..map.rows() {
        for cx in 0..map.cols() {
            // Merely calling coarse_at and getting Some (never a
            // sentinel/None inside the declared grid) proves totality
            // -- LandUseCell itself has no way to encode "unassigned".
            assert!(map.coarse_at(cx, cy).is_some());
        }
    }
}

#[test]
fn all_four_uses_are_present_across_a_seed_sweep() {
    let c = cfg();
    for seed in 0u64..64 {
        let map = run(seed, c.site(), &c).unwrap();
        let present = uses_present(&map);
        for u in LandUse::ALL {
            assert!(present.contains(&u), "seed {seed} is missing {u:?}");
        }
    }
}

#[test]
fn density_is_non_increasing_from_centre_to_edge_and_strictly_lower_at_the_edge() {
    let c = cfg();
    let map = run(3, c.site(), &c).unwrap();
    let cx_centre = map.cols() / 2;
    let cy_centre = map.rows() / 2;
    let centre_density = map.coarse_at(cx_centre, cy_centre).unwrap().density;
    let corner_density = map.coarse_at(0, 0).unwrap().density;
    assert!(
        corner_density < centre_density,
        "corner density {corner_density} was not strictly lower than centre density {centre_density}"
    );
}

#[test]
fn at_world_matches_the_coarse_cell_it_falls_in() {
    let c = cfg();
    let map = run(5, c.site(), &c).unwrap();
    let cell_size = map.cell_size();
    for cx in 0..map.cols().min(4) {
        for cy in 0..map.rows().min(4) {
            let wx = c.site().x0 + cx * cell_size;
            let wy = c.site().y0 + cy * cell_size;
            assert_eq!(map.at_world(wx, wy), map.coarse_at(cx, cy));
        }
    }
}

#[test]
fn at_world_is_none_outside_the_site() {
    let c = cfg();
    let map = run(5, c.site(), &c).unwrap();
    assert!(map.at_world(-1, -1).is_none());
    assert!(map.at_world(c.site().x1, c.site().y0).is_none());
}

#[test]
fn subdivide_never_produces_a_leaf_under_the_minimum_on_either_axis() {
    let c = cfg();
    for seed in 0u64..64 {
        let mut rng = Rng::new(seed_from_ids(seed, PASS_ID));
        let mut leaves = Vec::new();
        subdivide(
            Rect {
                x0: 0,
                y0: 0,
                x1: 32,
                y1: 32,
            },
            &c,
            &mut rng,
            0,
            &mut leaves,
        );
        for leaf in &leaves {
            assert!(
                leaf.width() >= c.land_use_min_leaf_cells as i64,
                "seed {seed}: leaf {leaf:?} narrower than the guaranteed minimum"
            );
            assert!(
                leaf.height() >= c.land_use_min_leaf_cells as i64,
                "seed {seed}: leaf {leaf:?} shorter than the guaranteed minimum"
            );
        }
    }
}

#[test]
fn envelope_limits_hold_for_every_use_on_the_fixture() {
    let cfg = cfg();
    for u in LandUse::ALL {
        let limits = cfg.envelope_limits(u);
        assert!(limits.min_width_cells <= limits.max_width_cells);
        assert!(limits.min_depth_cells <= limits.max_depth_cells);
    }
}

#[test]
fn guaranteed_min_region_cells_is_the_square_of_the_minimum_leaf() {
    let mut c = cfg();
    assert_eq!(guaranteed_min_region_cells(&c), 16);
    c.land_use_min_leaf_cells = 0;
    assert_eq!(guaranteed_min_region_cells(&c), 0);
    c.land_use_min_leaf_cells = -3;
    assert_eq!(guaranteed_min_region_cells(&c), 0);
}

#[test]
fn density_falls_from_the_centre_to_density_min_at_the_corner() {
    let c = cfg();
    let map = run(3, c.site(), &c).unwrap();
    assert_eq!((map.cols(), map.rows()), (32, 32));
    // dist2 = |2 * 16 - 31| = 1 of a maximum of 31: 100 - 90 * 1 / 31.
    assert_eq!(map.coarse_at(16, 16).unwrap().density, 98);
    assert_eq!(map.coarse_at(0, 0).unwrap().density, 10);
    assert_eq!(map.coarse_at(31, 0).unwrap().density, 10);
    // dist2 = |2 * 8 - 31| = 15: 100 - 90 * 15 / 31 = 100 - 43.
    assert_eq!(map.coarse_at(8, 16).unwrap().density, 57);
    assert!(map.coarse_at(32, 0).is_none());
    assert!(map.coarse_at(0, -1).is_none());
}

#[test]
fn subdivide_leaves_tile_the_rect_without_overlap() {
    let c = cfg();
    for seed in 0u64..16 {
        let mut rng = Rng::new(seed_from_ids(seed, PASS_ID));
        let mut leaves = Vec::new();
        let rect = Rect { x0: 0, y0: 0, x1: 32, y1: 32 };
        subdivide(rect, &c, &mut rng, 0, &mut leaves);
        let area: i64 = leaves.iter().map(|l| l.width() * l.height()).sum();
        assert_eq!(area, 32 * 32);
        for (i, a) in leaves.iter().enumerate() {
            assert!(a.x0 >= 0 && a.y0 >= 0 && a.x1 <= 32 && a.y1 <= 32);
            assert!(a.width() <= c.land_use_max_leaf_cells as i64);
            assert!(a.height() <= c.land_use_max_leaf_cells as i64);
            for b in &leaves[i + 1..] {
                assert!(!a.overlaps(b));
            }
        }
    }
}

#[test]
fn uses_present_lists_each_use_once_in_declaration_order() {
    let c = cfg();
    let map = run(7, c.site(), &c).unwrap();
    assert_eq!(uses_present(&map), LandUse::ALL.to_vec());
}

#[test]
fn at_world_scales_world_cells_down_to_coarse_cells() {
    let c = cfg();
    let map = run(5, c.site(), &c).unwrap();
    assert_eq!(map.cell_size(), 16);
    assert_eq!(map.at_world(17, 33), map.coarse_at(1, 2));
    assert_eq!(map.at_world(511, 511), map.coarse_at(31, 31));
    assert!(map.at_world(512, 0).is_none());
}

fn vertical(coord: i32, from: i32, to: i32) -> StreetEdge {
    StreetEdge {
        axis: Axis::Vertical,
        coord,
        from,
        to,
        class: StreetClass::Lane,
        width_cells: 4,
    }
}

fn horizontal(coord: i32, from: i32, to: i32) -> StreetEdge {
    StreetEdge {
        axis: Axis::Horizontal,
        coord,
        from,
        to,
        class: StreetClass::Lane,
        width_cells: 4,
    }
}


fn sample_with_ratio(pct: i64) -> DetourSample {
    DetourSample {
        a: (0, 0),
        b: (pct as i32, 0),
        network: pct,
        manhattan: 100,
    }
}

#[test]
fn build_graph_splits_a_vertical_at_a_perpendicular_t_junction() {
    // A vertical run from (10,0) to (10,20), met partway by a
    // horizontal starting exactly at the vertical's own coordinate
    // (10,10)-(30,10) -- a T, not a crossing (the horizontal has no
    // continuation on the other side).
    let (nodes, edges) = build_graph(&[vertical(10, 0, 20), horizontal(10, 10, 30)]);
    assert!(
        nodes.contains(&(10, 10)),
        "the T's own shared node is missing: {nodes:?}"
    );
    assert_eq!(
        edges.len(),
        3,
        "the vertical must split into two pieces at the T, plus the one horizontal piece: {edges:?}"
    );
    assert!(edges.contains(&vertical(10, 0, 10)));
    assert!(edges.contains(&vertical(10, 10, 20)));
    assert!(edges.contains(&horizontal(10, 10, 30)));
}

#[test]
fn build_graph_splits_both_streets_at_a_crossing() {
    // A true crossing: both streets continue past the shared point on
    // both sides.
    let (nodes, edges) = build_graph(&[vertical(10, 0, 20), horizontal(10, 0, 20)]);
    assert!(
        nodes.contains(&(10, 10)),
        "the crossing's own shared node is missing: {nodes:?}"
    );
    assert_eq!(
        nodes.iter().filter(|&&n| n == (10, 10)).count(),
        1,
        "the crossing node must appear exactly once, never duplicated"
    );
    assert_eq!(
        edges.len(),
        4,
        "both streets must split into two pieces each at the crossing: {edges:?}"
    );
}

#[test]
fn build_graph_keeps_collinear_abutting_segments_as_two_edges_sharing_one_node() {
    // Two segments on the same line, touching end to end (the shape
    // one real split produces: a street subdivided into two
    // consecutive pieces by an earlier pass) -- never fragmented
    // further, and never merged into a single edge that would lose
    // the shared node a perpendicular street could later meet at.
    let (nodes, edges) = build_graph(&[horizontal(5, 0, 10), horizontal(5, 10, 20)]);
    assert_eq!(
        edges.len(),
        2,
        "abutting segments must not fragment: {edges:?}"
    );
    assert!(edges.contains(&horizontal(5, 0, 10)));
    assert!(edges.contains(&horizontal(5, 10, 20)));
    assert_eq!(
        nodes,
        vec![(0, 5), (10, 5), (20, 5)],
        "the shared node at (10,5) must exist exactly once"
    );
}

#[test]
fn build_graph_deduplicates_an_exact_duplicate_segment() {
    let (_, edges) = build_graph(&[horizontal(5, 0, 10), horizontal(5, 0, 10)]);
    assert_eq!(
        edges.len(),
        1,
        "an exact duplicate segment must not double the edge: {edges:?}"
    );
}

#[test]
fn a_uniform_grid_fails_block_variance_and_has_no_three_way_junctions() {
    // One internal crossing, four identical quadrant blocks -- every
    // node is either the one internal 4-way or a boundary stub, never
    // a 3-way, and every block is the same size.
    let site = SiteBounds {
        x0: 0,
        y0: 0,
        x1: 100,
        y1: 100,
    };
    let edges = vec![vertical(50, 0, 100), horizontal(50, 0, 100)];
    let blocks = vec![
        Block {
            bounds: Rect {
                x0: 0,
                y0: 0,
                x1: 50,
                y1: 50,
            },
        },
        Block {
            bounds: Rect {
                x0: 50,
                y0: 0,
                x1: 100,
                y1: 50,
            },
        },
        Block {
            bounds: Rect {
                x0: 0,
                y0: 50,
                x1: 50,
                y1: 100,
            },
        },
        Block {
            bounds: Rect {
                x0: 50,
                y0: 50,
                x1: 100,
                y1: 100,
            },
        },
    ];
    let net = StreetNetwork::test_fixture(site, edges, blocks);

    let (three, four) = net.junction_mix();
    assert_eq!(three, 0, "a uniform grid must have no 3-way junctions");
    assert!(
        four >= 1,
        "a uniform grid's own internal crossing must be a 4-way"
    );

    let mut widths: Vec<i64> = net.blocks().iter().map(|b| b.bounds.width()).collect();
    let mut heights: Vec<i64> = net.blocks().iter().map(|b| b.bounds.height()).collect();
    widths.dedup();
    heights.dedup();
    assert_eq!(
        widths.len(),
        1,
        "a uniform grid must have exactly one distinct block width"
    );
    assert_eq!(
        heights.len(),
        1,
        "a uniform grid must have exactly one distinct block height"
    );
}

#[test]
fn two_disjoint_components_fail_connectivity() {
    // Two small crossings, nowhere near each other -- no segment of
    // either shares a coordinate with the other, so `build_graph` can
    // never join them.
    let site = SiteBounds {
        x0: 0,
        y0: 0,
        x1: 300,
        y1: 300,
    };
    let edges = vec![
        vertical(10, 0, 20),
        horizontal(10, 0, 20),
        vertical(200, 100, 120),
        horizontal(110, 190, 210),
    ];
    let net = StreetNetwork::test_fixture(site, edges, Vec::new());
    let reachable = net.reachable_from_first_node().unwrap();
    assert!(
        reachable.len() < net.nodes().len(),
        "two disjoint components must not be fully reachable from one node: {} of {}",
        reachable.len(),
        net.nodes().len()
    );
}

#[test]
fn p99_ratio_pct_of_an_empty_slice_is_zero() {
    assert_eq!(p99_ratio_pct(&[]), 0);
}

#[test]
fn p99_ratio_pct_of_one_sample_is_that_sample() {
    let samples = [sample_with_ratio(137)];
    assert_eq!(p99_ratio_pct(&samples), 137);
}

#[test]
fn p99_ratio_pct_of_exactly_100_samples_is_the_99th() {
    // Ratios 100, 101, ..., 199 (100 samples): the 99th percentile
    // by nearest-rank is index ceil(100*0.99)-1 = 98, i.e. the
    // second-highest value, 198 -- not the maximum (199).
    let samples: Vec<DetourSample> = (100..200).map(sample_with_ratio).collect();
    assert_eq!(p99_ratio_pct(&samples), 198);
}

#[test]
fn target_block_size_is_monotone_non_increasing_in_density() {
    let c = cfg();
    let mut prev = target_block_size(c.density_min, &c);
    for d in (c.density_min + 1)..=c.density_max {
        let cur = target_block_size(d, &c);
        assert!(
            cur <= prev,
            "target_block_size({d}) = {cur} is greater than target_block_size({}) = {prev}",
            d - 1
        );
        prev = cur;
    }
}

#[test]
fn target_block_depth_is_monotone_non_increasing_in_density() {
    let c = cfg();
    let mut prev = target_block_depth(c.density_min, &c);
    for d in (c.density_min + 1)..=c.density_max {
        let cur = target_block_depth(d, &c);
        assert!(
            cur <= prev,
            "target_block_depth({d}) = {cur} is greater than target_block_depth({}) = {prev}",
            d - 1
        );
        prev = cur;
    }
}

#[test]
fn p99_ratio_pct_of_101_samples_is_the_99th() {
    // 101 samples: rank = ceil(101*0.99)-1 = ceil(99.99)-1 = 99,
    // the 100th-smallest of 101 values (index 99), one below the
    // maximum.
    let samples: Vec<DetourSample> = (100..201).map(sample_with_ratio).collect();
    assert_eq!(p99_ratio_pct(&samples), 199);
}

#[test]
fn street_edge_ends_length_and_footprint() {
    let v = StreetEdge { axis: Axis::Vertical, coord: 10, from: 3, to: 9, class: StreetClass::Street, width_cells: 8 };
    assert_eq!(v.start(), (10, 3));
    assert_eq!(v.end(), (10, 9));
    assert_eq!(v.length(), 6);
    assert_eq!(v.rect(), Rect { x0: 6, y0: 3, x1: 14, y1: 9 });
    let h = StreetEdge { axis: Axis::Horizontal, coord: 5, from: 0, to: 4, class: StreetClass::Lane, width_cells: 3 };
    assert_eq!(h.start(), (0, 5));
    assert_eq!(h.end(), (4, 5));
    assert_eq!(h.rect(), Rect { x0: 0, y0: 4, x1: 4, y1: 6 });
}

#[test]
fn network_queries_on_a_t_junction() {
    let site = SiteBounds { x0: 0, y0: 0, x1: 100, y1: 100 };
    let edges = vec![vertical(50, 0, 100), horizontal(40, 50, 80)];
    let mut h = horizontal(70, 0, 50);
    h.class = StreetClass::Arterial;
    let mut all = edges.clone();
    all.push(h);
    let net = StreetNetwork::test_fixture(site, all, Vec::new());
    assert_eq!(net.nodes(), &[(0, 70), (50, 0), (50, 40), (50, 70), (50, 100), (80, 40)]);
    assert_eq!(net.degree((50, 40)), 3);
    assert_eq!(net.degree((50, 70)), 3);
    assert_eq!(net.degree((80, 40)), 1);
    assert_eq!(net.degree((1, 1)), 0);
    assert_eq!(net.dead_end_nodes(), vec![(80, 40)]);
    assert_eq!(net.junction_mix(), (2, 0));
    assert!(net.is_on_boundary((0, 70)));
    assert!(!net.is_on_boundary((50, 40)));
    assert_eq!(net.street_classes_present(), vec![StreetClass::Arterial, StreetClass::Lane]);
    assert_eq!(net.reachable_from_first_node().unwrap().len(), 6);
    // Vertical edges first, then horizontal, each by line and range.
    assert_eq!(net.edges()[0], vertical(50, 0, 40));
    assert_eq!(net.edges().len(), 5);
}

#[test]
fn distinct_block_sizes_counts_widths_and_heights_separately() {
    let site = SiteBounds { x0: 0, y0: 0, x1: 100, y1: 100 };
    let blocks = vec![
        Block { bounds: Rect { x0: 0, y0: 0, x1: 10, y1: 20 } },
        Block { bounds: Rect { x0: 10, y0: 0, x1: 20, y1: 30 } },
        Block { bounds: Rect { x0: 20, y0: 0, x1: 50, y1: 20 } },
    ];
    let net = StreetNetwork::test_fixture(site, Vec::new(), blocks);
    assert_eq!(net.distinct_block_sizes(), (2, 2));
    assert!(net.reachable_from_first_node().is_none());
}

#[test]
fn target_block_size_interpolates_between_the_configured_extremes() {
    let c = cfg();
    assert_eq!(target_block_size(c.density_min, &c), c.block_size_max_cells);
    assert_eq!(target_block_size(c.density_max, &c), c.block_size_min_cells);
    // (96 - 40) * (55 - 10) / 90 = 28.
    assert_eq!(target_block_size(55, &c), 68);
    assert_eq!(target_block_size(-500, &c), c.block_size_max_cells);
    assert_eq!(target_block_depth(c.density_max + 50, &c), c.max_block_depth_min_cells);
}

#[test]
fn detour_sample_ratio_and_excess() {
    let s = DetourSample { a: (0, 0), b: (3, 4), network: 9, manhattan: 7 };
    assert_eq!(s.ratio_pct(), 128);
    assert_eq!(s.excess_cells(), 2);
}

#[test]
fn every_region_is_at_least_the_guaranteed_minimum_size() {
    let c = cfg();
    let min = guaranteed_min_region_cells(&c);
    for seed in 0u64..64 {
        let map = run(seed, c.site(), &c).unwrap();
        for r in map.regions() {
            assert!(
                r.cell_count >= min,
                "seed {seed}: region {r:?} has {} cells, under the guaranteed minimum {min}",
                r.cell_count
            );
        }
    }
}

#[test]
fn region_count_is_bounded_by_total_cells_over_the_guaranteed_minimum() {
    let c = cfg();
    let min = guaranteed_min_region_cells(&c).max(1);
    for seed in 0u64..64 {
        let map = run(seed, c.site(), &c).unwrap();
        let max_possible = (map.cols() as u64 * map.rows() as u64) / min;
        assert!(map.regions().len() as u64 <= max_possible);
    }
}

#[test]
fn every_region_boundary_is_axis_aligned_by_construction() {
    // A region is a union of rect leaves from an axis-aligned
    // recursive partition -- Region itself carries only a bounding
    // Rect (four axis-aligned edges), so a diagonal boundary is not a
    // representable value, let alone a producible one.
    let c = cfg();
    let map = run(2, c.site(), &c).unwrap();
    for r in map.regions() {
        assert!(r.bounds.is_valid());
    }
}

#[test]
fn regions_are_sorted_deterministically() {
    let c = cfg();
    let map = run(9, c.site(), &c).unwrap();
    let regions = map.regions();
    let mut sorted = regions.clone();
    sorted.sort_by_key(|r| (r.bounds.y0, r.bounds.x0));
    assert_eq!(regions, sorted);
}

#[test]
fn regions_cover_every_cell_once_and_match_their_uses() {
    let c = cfg();
    let map = run(4, c.site(), &c).unwrap();
    let regions = map.regions();
    let total: u64 = regions.iter().map(|r| r.cell_count).sum();
    assert_eq!(total, (map.cols() as u64) * (map.rows() as u64));
    for r in &regions {
        assert!(r.bounds.x0 >= 0 && r.bounds.y0 >= 0);
        assert!(r.bounds.x1 <= map.cols() && r.bounds.y1 <= map.rows());
        let top_left_row: Vec<_> = (r.bounds.x0..r.bounds.x1)
            .filter(|&x| map.coarse_at(x, r.bounds.y0).unwrap().use_ == r.use_)
            .collect();
        assert!(!top_left_row.is_empty());
    }
}

fn site_500() -> SiteBounds {
    SiteBounds {
        x0: 0,
        y0: 0,
        x1: 500,
        y1: 500,
    }
}

#[test]
fn close_same_street_junction_pairs_reports_two_close_t_junctions_on_one_street() {
    let edges = vec![
        horizontal(200, 0, 500),
        vertical(100, 150, 200),
        vertical(110, 150, 200),
    ];
    let net = StreetNetwork::test_fixture(site_500(), edges, Vec::new());
    let close = net.close_same_street_junction_pairs(16);
    assert!(
        close.contains(&((100, 200), (110, 200))),
        "two T-junctions 10 cells apart on the same street were not reported: {close:?}"
    );
}

#[test]
fn close_same_street_junction_pairs_does_not_report_a_true_coincident_four_way() {
    let edges = vec![
        horizontal(200, 0, 500),
        vertical(100, 150, 200),
        vertical(100, 200, 250),
    ];
    let net = StreetNetwork::test_fixture(site_500(), edges, Vec::new());
    let close = net.close_same_street_junction_pairs(16);
    assert!(
        close.is_empty(),
        "a single coincident crossing must never be reported as close to itself: {close:?}"
    );
}

#[test]
fn close_same_street_junction_pairs_does_not_report_a_pair_just_over_the_separation() {
    // Net gap = (150 - lane_half=2) - (100 + lane_half=2) = 46,
    // comfortably over a min_gap of 16.
    let edges = vec![
        horizontal(200, 0, 500),
        vertical(100, 150, 200),
        vertical(150, 150, 200),
    ];
    let net = StreetNetwork::test_fixture(site_500(), edges, Vec::new());
    let close = net.close_same_street_junction_pairs(16);
    assert!(
        close.is_empty(),
        "a pair with a real net gap of 46 cells must not be reported against a 16-cell minimum: {close:?}"
    );
}

#[test]
fn close_same_street_junction_pairs_reports_exactly_the_close_pairs_in_order() {
    // Two streets crossed close together, one of them twice: the
    // horizontal line y = 300 gets crossings at 100 and 110 (gap 6), the
    // line y = 200 at 100 and 105 (gap 1) and 150 (gap 41, quiet).
    let edges = vec![
        horizontal(200, 0, 500),
        horizontal(300, 0, 500),
        vertical(100, 150, 350),
        vertical(105, 150, 200),
        vertical(110, 300, 350),
        vertical(150, 150, 200),
    ];
    let net = StreetNetwork::test_fixture(site_500(), edges, Vec::new());
    let close = net.close_same_street_junction_pairs(16);
    assert_eq!(
        close,
        vec![((100, 200), (105, 200)), ((100, 300), (110, 300))]
    );
    // A tighter minimum keeps only the pair whose net gap is under it.
    assert_eq!(net.close_same_street_junction_pairs(2), vec![((100, 200), (105, 200))]);
    // A looser one adds the quiet pair on y = 200 and, along the vertical
    // x = 100, its two crossings 96 apart -- vertical lines after
    // horizontal ones.
    assert_eq!(
        net.close_same_street_junction_pairs(97),
        vec![
            ((100, 200), (105, 200)),
            ((105, 200), (150, 200)),
            ((100, 300), (110, 300)),
            ((100, 200), (100, 300)),
        ]
    );
}

fn quadrant_blocks() -> Vec<Block> {
    vec![
        Block { bounds: Rect { x0: 0, y0: 0, x1: 50, y1: 50 } },
        Block { bounds: Rect { x0: 50, y0: 0, x1: 100, y1: 50 } },
        Block { bounds: Rect { x0: 0, y0: 50, x1: 50, y1: 100 } },
        Block { bounds: Rect { x0: 50, y0: 50, x1: 100, y1: 100 } },
    ]
}

#[test]
fn mean_area_by_density_band_reports_parity_for_a_uniform_grid() {
    let mut small_cfg = cfg();
    small_cfg.site_extent_cells = 100;
    small_cfg.coarse_cell_size_cells = 50;
    let lu = run(1, small_cfg.site(), &small_cfg).unwrap();

    let site = small_cfg.site();
    let edges = vec![vertical(50, 0, 100), horizontal(50, 0, 100)];
    let net = StreetNetwork::test_fixture(site, edges, quadrant_blocks());

    let Some((low, high)) = net.mean_area_by_density_band(&lu, &small_cfg) else {
        // Every block landed in the middle band -- a legitimate `None`;
        // the uniform-size property still held regardless.
        assert!(net
            .blocks()
            .iter()
            .all(|b| b.bounds.width() * b.bounds.height() == 2500));
        return;
    };
    assert_eq!(
        low, high,
        "a uniform grid's own blocks must report equal means in both density bands, got {low} vs {high}"
    );
}

#[test]
fn mean_area_by_density_band_averages_each_band_over_its_own_blocks() {
    let mut small_cfg = cfg();
    small_cfg.site_extent_cells = 100;
    small_cfg.coarse_cell_size_cells = 50;
    let lu = run(1, small_cfg.site(), &small_cfg).unwrap();
    let site = small_cfg.site();
    // Four blocks of different sizes, one per coarse cell: each band's
    // mean is the plain mean of the areas of the blocks whose centre
    // cell's density falls in it.
    let blocks = vec![
        Block { bounds: Rect { x0: 0, y0: 0, x1: 10, y1: 10 } },
        Block { bounds: Rect { x0: 50, y0: 0, x1: 90, y1: 20 } },
        Block { bounds: Rect { x0: 0, y0: 50, x1: 30, y1: 60 } },
        Block { bounds: Rect { x0: 60, y0: 60, x1: 100, y1: 100 } },
    ];
    let net = StreetNetwork::test_fixture(site, Vec::new(), blocks.clone());
    let span = (small_cfg.density_max - small_cfg.density_min).max(1) as i64;
    let low_max = small_cfg.density_min as i64 + span / 3;
    let high_min = small_cfg.density_min as i64 + span - span / 3;
    let (mut low, mut high) = (Vec::new(), Vec::new());
    for b in &blocks {
        let cx = (b.bounds.x0 + b.bounds.x1) / 2;
        let cy = (b.bounds.y0 + b.bounds.y1) / 2;
        let d = lu.at_world(cx, cy).unwrap().density as i64;
        let area = b.bounds.width() * b.bounds.height();
        if d <= low_max {
            low.push(area);
        } else if d >= high_min {
            high.push(area);
        }
    }
    let expected = if low.is_empty() || high.is_empty() {
        None
    } else {
        Some((
            low.iter().sum::<i64>() / low.len() as i64,
            high.iter().sum::<i64>() / high.len() as i64,
        ))
    };
    assert_eq!(net.mean_area_by_density_band(&lu, &small_cfg), expected);
}

#[test]
fn a_maze_fails_dead_ends_and_detour() {
    // A U-shaped corridor from (100,100) to (400,100) -- network distance
    // 900 world cells against a Manhattan distance of 300 -- plus a branch
    // that goes nowhere, a real dead end away from the site boundary.
    let c = cfg();
    let edges = vec![
        vertical(100, 100, 400),
        horizontal(400, 100, 400),
        vertical(400, 100, 400),
        horizontal(250, 100, 175),
    ];
    let net = StreetNetwork::test_fixture(site_500(), edges, Vec::new());

    let dead_ends = net.dead_end_nodes();
    assert!(
        dead_ends.contains(&(175, 250)),
        "the stub's own dead end was not reported: {dead_ends:?}"
    );

    let samples = net.detour_samples(DETOUR_SAMPLE_MAX_NODES);
    let worst_excess = samples
        .iter()
        .map(DetourSample::excess_cells)
        .max()
        .expect("the U corridor's own pair must be sampled");
    assert!(
        worst_excess > c.max_detour_excess_cells as i64,
        "expected the maze's own overshoot ({worst_excess} cells) to exceed the committed max_detour_excess_cells ({})",
        c.max_detour_excess_cells
    );
}

#[test]
fn all_pair_samples_measures_the_shortest_way_round_a_loop() {
    // A 100 x 50 rectangle of streets: (0,0) to (100,50) is 150 either way
    // round; the loop's nodes are all four corners.
    let site = SiteBounds { x0: -10, y0: -10, x1: 200, y1: 200 };
    let edges = vec![
        horizontal(0, 0, 100),
        horizontal(50, 0, 100),
        vertical(0, 0, 50),
        vertical(100, 0, 50),
    ];
    let net = StreetNetwork::test_fixture(site, edges, Vec::new());
    assert_eq!(net.nodes(), &[(0, 0), (0, 50), (100, 0), (100, 50)]);
    let samples = net.all_pair_samples(10);
    let got: Vec<((i32, i32), (i32, i32), i64, i64)> =
        samples.iter().map(|s| (s.a, s.b, s.network, s.manhattan)).collect();
    assert_eq!(
        got,
        vec![
            ((0, 0), (0, 50), 50, 50),
            ((0, 0), (100, 0), 100, 100),
            ((0, 0), (100, 50), 150, 150),
            ((0, 50), (100, 0), 150, 150),
            ((0, 50), (100, 50), 100, 100),
            ((100, 0), (100, 50), 50, 50),
        ]
    );
}

#[test]
fn all_pair_samples_skips_unreachable_pairs_and_strides_through_the_nodes() {
    // Two separate crossings: nothing pairs across them.
    let site = SiteBounds { x0: -100, y0: -100, x1: 1000, y1: 1000 };
    let edges = vec![
        vertical(10, 0, 20),
        horizontal(10, 0, 20),
        vertical(200, 100, 120),
        horizontal(110, 190, 210),
    ];
    let net = StreetNetwork::test_fixture(site, edges, Vec::new());
    assert_eq!(net.nodes().len(), 10);
    // Every node: 5 + 5 per side, 10 + 10 pairs within each crossing.
    assert_eq!(net.all_pair_samples(100).len(), 20);
    // At most 5 nodes: every second node, 0, 2, 4, 6, 8.
    let sampled = net.all_pair_samples(5);
    for s in &sampled {
        let ia = net.nodes().iter().position(|n| *n == s.a).unwrap();
        let ib = net.nodes().iter().position(|n| *n == s.b).unwrap();
        assert_eq!(ia % 2, 0);
        assert_eq!(ib % 2, 0);
        assert!(ia < ib);
        assert!(s.network >= s.manhattan);
    }
}

#[test]
fn detour_samples_drops_pairs_with_both_ends_on_the_boundary() {
    // One street straight across the site: both ends are exits, so the
    // only pair is dropped; the boundary-free pair list keeps it.
    let site = SiteBounds { x0: 0, y0: 0, x1: 100, y1: 100 };
    let edges = vec![horizontal(50, 0, 100)];
    let net = StreetNetwork::test_fixture(site, edges, Vec::new());
    assert_eq!(net.all_pair_samples(DETOUR_SAMPLE_MAX_NODES).len(), 1);
    assert!(net.detour_samples(DETOUR_SAMPLE_MAX_NODES).is_empty());
    // A crossing inside adds interior pairs that survive.
    let edges = vec![horizontal(50, 0, 100), vertical(40, 20, 50)];
    let net = StreetNetwork::test_fixture(site, edges, Vec::new());
    let kept = net.detour_samples(DETOUR_SAMPLE_MAX_NODES);
    assert!(!kept.is_empty());
    for s in &kept {
        assert!(!(net.is_on_boundary(s.a) && net.is_on_boundary(s.b)));
    }
}

fn small_land_use() -> (GenerationConfig, sim::generation::land_use::LandUseMap) {
    let mut c = cfg();
    c.site_extent_cells = 64;
    c.coarse_cell_size_cells = 16;
    let lu = run(11, c.site(), &c).unwrap();
    (c, lu)
}

#[test]
fn block_land_use_of_a_block_inside_one_coarse_cell_is_that_cells_use() {
    let (_, lu) = small_land_use();
    for cy in 0..lu.rows() {
        for cx in 0..lu.cols() {
            let cell = lu.coarse_at(cx, cy).unwrap();
            let b = Rect { x0: cx * 16 + 2, y0: cy * 16 + 3, x1: cx * 16 + 9, y1: cy * 16 + 15 };
            assert_eq!(block_land_use(&lu, b), cell.use_);
        }
    }
}

#[test]
fn block_land_use_takes_the_use_with_the_most_area_earliest_on_a_tie() {
    let (c, lu) = small_land_use();
    let site = c.site();
    let mut area = [0i64; 4];
    for cy in 0..lu.rows() {
        for cx in 0..lu.cols() {
            let u = lu.coarse_at(cx, cy).unwrap().use_;
            let i = LandUse::ALL.iter().position(|v| *v == u).unwrap();
            area[i] += 16 * 16;
        }
    }
    let mut best = 0;
    for i in 1..4 {
        if area[i] > area[best] {
            best = i;
        }
    }
    assert_eq!(block_land_use(&lu, site), LandUse::ALL[best]);
}

#[test]
fn block_land_use_weighs_each_cell_by_the_area_it_shares_with_the_block() {
    let (_, lu) = small_land_use();
    // A block straddling the first two cells of the top row: 3 columns in
    // the first, 13 in the second -- the second cell's use wins unless
    // both are the same.
    let first = lu.coarse_at(0, 0).unwrap().use_;
    let second = lu.coarse_at(1, 0).unwrap().use_;
    let b = Rect { x0: 13, y0: 0, x1: 29, y1: 8 };
    assert_eq!(block_land_use(&lu, b), second);
    // Shifted the other way the first cell's own 13 columns win.
    let b = Rect { x0: 3, y0: 0, x1: 19, y1: 8 };
    assert_eq!(block_land_use(&lu, b), first);
}

#[test]
fn block_land_use_of_a_block_off_the_map_is_residential() {
    let (_, lu) = small_land_use();
    let b = Rect { x0: 100, y0: 100, x1: 120, y1: 120 };
    assert_eq!(block_land_use(&lu, b), LandUse::Residential);
}

fn envelope_plot(bounds: Rect, front: Side, use_: LandUse, density: i32, open: bool) -> Plot {
    Plot {
        bounds,
        block: 0,
        front: Some(front),
        land_use: use_,
        density,
        open,
    }
}

fn site_512() -> SiteBounds {
    SiteBounds { x0: 0, y0: 0, x1: 512, y1: 512 }
}

/// A row bounds generous enough that none of the fixture plot's own edges
/// is treated as a corner.
fn loose_row_bounds() -> Rect {
    Rect { x0: -1000, y0: -1000, x1: 1000, y1: 1000 }
}

#[test]
fn a_plot_far_below_the_class_minimum_on_width_is_rejected_too_narrow() {
    let c = cfg();
    let limits = c.envelope_limits(LandUse::Residential);
    let bounds = Rect {
        x0: 0,
        y0: 0,
        x1: (limits.min_width_cells - 1).max(1),
        y1: limits.min_depth_cells + 20,
    };
    let plot = envelope_plot(bounds, Side::South, LandUse::Residential, 90, false);
    let mut rng = Rng::new(1);
    let outcome = place_one(&plot, 0, loose_row_bounds(), &mut rng, &c);
    assert!(matches!(
        outcome,
        EnvelopeOutcome::Rejected { reason: RejectReason::PlotTooNarrow, .. }
    ));
}

#[test]
fn a_plot_far_below_the_class_minimum_on_depth_is_rejected_too_shallow() {
    let c = cfg();
    let limits = c.envelope_limits(LandUse::Residential);
    let bounds = Rect {
        x0: 0,
        y0: 0,
        x1: limits.min_width_cells + 20,
        y1: (limits.min_depth_cells - 1).max(1),
    };
    let plot = envelope_plot(bounds, Side::South, LandUse::Residential, 90, false);
    let mut rng = Rng::new(1);
    let outcome = place_one(&plot, 0, loose_row_bounds(), &mut rng, &c);
    assert!(matches!(
        outcome,
        EnvelopeOutcome::Rejected { reason: RejectReason::PlotTooShallow, .. }
    ));
}

#[test]
fn a_plot_exactly_at_the_class_minimum_produces_an_envelope_never_smaller_than_the_minimum() {
    let c = cfg();
    let limits = c.envelope_limits(LandUse::Residential);
    let density = c.plot_high_density_threshold;
    let bounds = Rect { x0: 0, y0: 0, x1: limits.min_width_cells, y1: limits.min_depth_cells };
    let plot = envelope_plot(bounds, Side::South, LandUse::Residential, density, false);
    let mut rng = Rng::new(1);
    match place_one(&plot, 0, loose_row_bounds(), &mut rng, &c) {
        EnvelopeOutcome::Placed(e) => {
            assert_eq!(e.along_face_cells(), limits.min_width_cells as i64);
            assert_eq!(e.depth_cells(), limits.min_depth_cells as i64);
        }
        EnvelopeOutcome::Rejected { .. } => panic!("a plot exactly at the minimum must fit"),
    }
}

#[test]
fn a_generously_sized_plot_never_yields_an_envelope_below_its_class_minimum() {
    let c = cfg();
    let limits = c.envelope_limits(LandUse::Commercial);
    let density = c.plot_high_density_threshold;
    let bounds = Rect {
        x0: 0,
        y0: 0,
        x1: limits.max_width_cells + 30,
        y1: limits.max_depth_cells + 30,
    };
    let plot = envelope_plot(bounds, Side::North, LandUse::Commercial, density, false);
    let mut rng = Rng::new(1);
    match place_one(&plot, 0, loose_row_bounds(), &mut rng, &c) {
        EnvelopeOutcome::Placed(e) => {
            assert!(e.along_face_cells() >= limits.min_width_cells as i64);
            assert!(e.along_face_cells() <= limits.max_width_cells as i64);
            assert!(e.depth_cells() >= limits.min_depth_cells as i64);
            assert!(e.depth_cells() <= limits.max_depth_cells as i64);
        }
        EnvelopeOutcome::Rejected { .. } => panic!("a generous plot must fit"),
    }
}

#[test]
fn a_high_density_plot_fills_its_full_along_face_width_exactly() {
    let c = cfg();
    let limits = c.envelope_limits(LandUse::Residential);
    let width = limits.min_width_cells + 3;
    let bounds = Rect { x0: 0, y0: 0, x1: width, y1: limits.max_depth_cells + 30 };
    let plot = envelope_plot(
        bounds,
        Side::South,
        LandUse::Residential,
        c.plot_high_density_threshold,
        false,
    );
    for seed in 0u64..20 {
        let mut rng = Rng::new(seed);
        match place_one(&plot, 0, loose_row_bounds(), &mut rng, &c) {
            EnvelopeOutcome::Placed(e) => {
                assert_eq!(e.along_face_cells(), width as i64, "seed {seed}");
            }
            EnvelopeOutcome::Rejected { .. } => panic!("seed {seed}: must fit"),
        }
    }
}

#[test]
fn open_plots_never_get_an_envelope_outcome_at_all() {
    let plot = envelope_plot(
        Rect { x0: 0, y0: 0, x1: 50, y1: 50 },
        Side::South,
        LandUse::Residential,
        10,
        true,
    );
    let pm = PlotMap::test_fixture(site_512(), vec![plot]);
    let map = place_all(1, &pm, &cfg());
    assert!(map.outcomes().is_empty());
}

#[test]
fn rejected_percent_of_an_empty_map_is_zero() {
    let map = EnvelopeMap::test_fixture(Vec::new());
    assert_eq!(map.rejected_percent(), 0);
}

#[test]
fn rejected_percent_counts_rejections_over_every_attempted_plot() {
    let map = EnvelopeMap::test_fixture(vec![
        EnvelopeOutcome::Rejected {
            plot: 0,
            class: LandUse::Residential,
            reason: RejectReason::PlotTooNarrow,
        },
        EnvelopeOutcome::Rejected {
            plot: 1,
            class: LandUse::Residential,
            reason: RejectReason::PlotTooShallow,
        },
        EnvelopeOutcome::Placed(Envelope {
            plot: 2,
            footprint: Rect { x0: 0, y0: 0, x1: 10, y1: 10 },
            front: Side::South,
        }),
        EnvelopeOutcome::Placed(Envelope {
            plot: 3,
            footprint: Rect { x0: 0, y0: 0, x1: 10, y1: 10 },
            front: Side::South,
        }),
    ]);
    assert_eq!(map.rejected_percent(), 50);
    assert_eq!(map.rejected_count(), 2);
    assert_eq!(map.placed_count(), 2);
    assert_eq!(map.envelopes().len(), 2);
    assert_eq!(map.envelopes()[1].plot, 3);
}

#[test]
fn the_tolerance_boundary_is_exact_at_min_and_max() {
    let mut c = cfg();
    let site = SiteBounds { x0: 0, y0: 0, x1: 1000, y1: 1000 };
    let site_cells = site.width() * site.height();
    // target = 100, tolerance = 10% -> band [90, 110].
    c.envelope_target_count_per_million_cells = 100 * 1_000_000 / site_cells;
    c.envelope_count_tolerance_percent = 10;
    let (min, max) = c.building_count_band(site_cells);

    let limits = c.envelope_limits(LandUse::Residential);
    let plot_bounds = |i: i32| Rect {
        x0: i * 200,
        y0: 0,
        x1: i * 200 + limits.min_width_cells + 4,
        y1: limits.min_depth_cells + 4,
    };
    let make_plots = |n: i64| -> PlotMap {
        let plots = (0..n)
            .map(|i| {
                envelope_plot(
                    plot_bounds(i as i32),
                    Side::South,
                    LandUse::Residential,
                    c.plot_high_density_threshold,
                    false,
                )
            })
            .collect();
        PlotMap::test_fixture(site, plots)
    };

    assert!(place_envelopes(1, &make_plots(min - 1), &c).is_err(), "min-1 must fail");
    assert!(place_envelopes(1, &make_plots(min), &c).is_ok(), "min must pass");
    assert!(place_envelopes(1, &make_plots(max), &c).is_ok(), "max must pass");
    let err = place_envelopes(1, &make_plots(max + 1), &c).unwrap_err();
    assert_eq!(err, GenerationError::BuildingCountOutOfTolerance { got: max + 1, min, max });
}

#[test]
fn a_placed_envelope_sits_inside_its_plot_behind_the_setback() {
    let c = cfg();
    let limits = c.envelope_limits(LandUse::Residential);
    // Low density: the periphery setback and side gap apply.
    let density = c.plot_high_density_threshold - 1;
    let setback = c.setback_cells(density);
    let half_gap = c.side_gap_cells(density) / 2;
    let bounds = Rect {
        x0: 10,
        y0: 10,
        x1: 10 + limits.min_width_cells + 2 * half_gap + 6,
        y1: 10 + limits.min_depth_cells + setback + 9,
    };
    for front in [Side::North, Side::South, Side::East, Side::West] {
        let plot = envelope_plot(bounds, front, LandUse::Residential, density, false);
        let mut rng = Rng::new(4);
        match place_one(&plot, 7, loose_row_bounds(), &mut rng, &c) {
            EnvelopeOutcome::Placed(e) => {
                assert_eq!(e.plot, 7);
                assert_eq!(e.front, front);
                let f = e.footprint;
                assert!(bounds.x0 <= f.x0 && f.x1 <= bounds.x1 && bounds.y0 <= f.y0 && f.y1 <= bounds.y1);
                match front {
                    Side::North => assert_eq!(f.y0, bounds.y0 + setback),
                    Side::South => assert_eq!(f.y1, bounds.y1 - setback),
                    Side::West => assert_eq!(f.x0, bounds.x0 + setback),
                    Side::East => assert_eq!(f.x1, bounds.x1 - setback),
                }
                assert!(e.depth_cells() >= limits.min_depth_cells as i64);
            }
            EnvelopeOutcome::Rejected { reason, .. } => {
                // A square-ish fixture can be too narrow across one axis.
                assert!(matches!(front, Side::East | Side::West), "{reason:?}");
            }
        }
    }
}

/// A regular grid of blocks `pitch` cells apart across the whole site,
/// inset by half a `street`-wide street from every interior line and flush
/// with the site's own edge on the outside, as the street pass leaves them.
fn grid_blocks(extent: i32, pitch: i32, street: i32) -> Vec<Block> {
    let n = extent / pitch;
    let half = street / 2;
    let mut blocks = Vec::new();
    for j in 0..n {
        for i in 0..n {
            let x0 = if i == 0 { 0 } else { i * pitch + half };
            let x1 = if i == n - 1 { extent } else { (i + 1) * pitch - half };
            let y0 = if j == 0 { 0 } else { j * pitch + half };
            let y1 = if j == n - 1 { extent } else { (j + 1) * pitch - half };
            blocks.push(Block { bounds: Rect { x0, y0, x1, y1 } });
        }
    }
    blocks
}

fn district(seed: u64, c: &GenerationConfig) -> (sim::generation::land_use::LandUseMap, StreetNetwork, PlotMap) {
    let lu = run(seed, c.site(), c).unwrap();
    let net = StreetNetwork::test_fixture(c.site(), Vec::new(), grid_blocks(c.site_extent_cells, 64, 8));
    let pm = sim::generation::plots::run(seed, &lu, &net, c);
    (lu, net, pm)
}

#[test]
fn plots_run_is_deterministic_for_the_same_seed() {
    let c = cfg();
    let (_, _, a) = district(11, &c);
    let (_, _, b) = district(11, &c);
    assert_eq!(a.plots(), b.plots());
}

#[test]
fn run_produces_at_least_one_plot_per_block() {
    let c = cfg();
    let (_, net, pm) = district(7, &c);
    for i in 0..net.blocks().len() as u32 {
        assert!(pm.plots().iter().any(|p| p.block == i), "block {i} has no plot at all");
    }
}

#[test]
fn every_plot_is_inside_its_own_block() {
    let c = cfg();
    let (_, net, pm) = district(7, &c);
    for p in pm.plots() {
        let b = net.blocks()[p.block as usize];
        assert!(
            b.bounds.x0 <= p.bounds.x0
                && p.bounds.x1 <= b.bounds.x1
                && b.bounds.y0 <= p.bounds.y0
                && p.bounds.y1 <= b.bounds.y1,
            "plot {:?} escapes block {:?}",
            p.bounds,
            b.bounds
        );
    }
}

#[test]
fn no_two_plots_in_the_same_block_overlap() {
    let c = cfg();
    let (_, net, pm) = district(7, &c);
    for block_index in 0..net.blocks().len() as u32 {
        let block_plots: Vec<&Plot> = pm.plots().iter().filter(|p| p.block == block_index).collect();
        for i in 0..block_plots.len() {
            for j in (i + 1)..block_plots.len() {
                let a = block_plots[i].bounds;
                let b = block_plots[j].bounds;
                let overlap = a.x0 < b.x1 && b.x0 < a.x1 && a.y0 < b.y1 && b.y0 < a.y1;
                assert!(!overlap, "plots {a:?} and {b:?} overlap in block {block_index}");
            }
        }
    }
}

#[test]
fn landlocked_plots_is_empty_over_real_generator_output() {
    let c = cfg();
    let (_, net, pm) = district(7, &c);
    let offenders = pm.landlocked_plots(net.blocks(), c.plot_frontage_min_cells);
    assert!(offenders.is_empty(), "landlocked plots: {offenders:?}");
}

#[test]
fn a_sliver_block_with_no_frontage_gets_one_whole_block_open_plot() {
    let site = SiteBounds { x0: 0, y0: 0, x1: 320, y1: 320 };
    let block = Block { bounds: site };
    let net = StreetNetwork::test_fixture(site, Vec::new(), vec![block]);
    let c = cfg();
    let lu = run(1, site, &c).unwrap();
    let pm = sim::generation::plots::run(1, &lu, &net, &c);
    assert_eq!(pm.plots().len(), 1);
    let p = pm.plots()[0];
    assert!(p.open);
    assert_eq!(p.bounds, site);
}

#[test]
fn plots_run_tiles_every_block_exactly() {
    let c = cfg();
    let (_, net, pm) = district(3, &c);
    for (i, b) in net.blocks().iter().enumerate() {
        let area: i64 = pm.plots().iter().filter(|p| p.block == i as u32).map(|p| p.bounds.width() * p.bounds.height()).sum();
        assert_eq!(area, b.bounds.width() * b.bounds.height());
    }
    assert_eq!(pm.unplotted_percent(net.blocks()), 0);
}

#[test]
fn plots_run_sorts_by_block_then_north_west_corner() {
    let c = cfg();
    let (_, _, pm) = district(5, &c);
    for w in pm.plots().windows(2) {
        let (a, b) = (w[0], w[1]);
        assert!((a.block, a.bounds.y0, a.bounds.x0) <= (b.block, b.bounds.y0, b.bounds.x0));
    }
    assert!(pm.plots().iter().any(|p| !p.open));
}

#[test]
fn envelopes_run_is_deterministic_for_the_same_seed() {
    let c = cfg();
    let (_, _, pm) = district(11, &c);
    let a = place_all(11, &pm, &c);
    let b = place_all(11, &pm, &c);
    assert_eq!(a.outcomes(), b.outcomes());
}

#[test]
fn every_placed_envelope_is_inside_its_own_plot() {
    let c = cfg();
    let (_, _, pm) = district(7, &c);
    let map = place_all(7, &pm, &c);
    assert!(!map.envelopes().is_empty());
    for e in map.envelopes() {
        let p = pm.plots()[e.plot as usize];
        assert!(
            p.bounds.x0 <= e.footprint.x0
                && e.footprint.x1 <= p.bounds.x1
                && p.bounds.y0 <= e.footprint.y0
                && e.footprint.y1 <= p.bounds.y1,
            "envelope {:?} escapes plot {:?}",
            e.footprint,
            p.bounds
        );
    }
}

#[test]
fn a_deliberately_starved_config_makes_run_fail_the_building_count_tolerance_low() {
    let mut c = cfg();
    c.envelope_target_count_per_million_cells *= 100;
    let (_, _, pm) = district(3, &c);
    let err = place_envelopes(3, &pm, &c).unwrap_err();
    assert!(matches!(err, GenerationError::BuildingCountOutOfTolerance { .. }));
}

#[test]
fn a_deliberately_bloated_config_makes_run_fail_the_building_count_tolerance_high() {
    let mut c = cfg();
    c.envelope_target_count_per_million_cells = 1;
    let (_, _, pm) = district(3, &c);
    let err = place_envelopes(3, &pm, &c).unwrap_err();
    assert!(matches!(err, GenerationError::BuildingCountOutOfTolerance { .. }));
}

#[test]
fn an_envelope_placed_from_a_plot_alone_equals_the_one_placed_in_the_full_run() {
    let c = cfg();
    let (_, _, pm) = district(23, &c);
    let full = place_all(23, &pm, &c);
    let rows = row_bounds_by_block_front(pm.plots());
    for (i, p) in pm.plots().iter().enumerate() {
        if p.open {
            continue;
        }
        let front = p.front.unwrap();
        let bounds = rows.iter().find(|(k, _)| *k == (p.block, front)).unwrap().1;
        let pass_seed = seed_from_ids(23, sim::generation::envelopes::PASS_ID);
        let mut rng = Rng::new(seed_from_ids(pass_seed, sim::generation::rect_seed_key(p.bounds)));
        let alone = place_one(p, i as u32, bounds, &mut rng, &c);
        let in_full = full
            .outcomes()
            .iter()
            .find(|o| match o {
                EnvelopeOutcome::Placed(e) => e.plot == i as u32,
                EnvelopeOutcome::Rejected { plot, .. } => *plot == i as u32,
            })
            .unwrap();
        assert_eq!(alone, *in_full, "plot index {i}");
    }
}

fn region_labels_by_use(lu: &sim::generation::land_use::LandUseMap) -> Vec<i32> {
    let mut labels = Vec::new();
    for cy in 0..lu.rows() {
        for cx in 0..lu.cols() {
            labels.push(lu.coarse_at(cx, cy).unwrap().use_ as i32);
        }
    }
    labels
}

#[test]
fn spans_multiple_regions_reads_the_labels_under_the_rect() {
    let (_, lu) = small_land_use();
    let n = (lu.cols() * lu.rows()) as usize;
    let same = vec![7; n];
    let site = lu.site();
    assert!(!sim::generation::streets::spans_multiple_regions(&lu, &same, site));
    let mut split = vec![0; n];
    split[n - 1] = 1;
    assert!(sim::generation::streets::spans_multiple_regions(&lu, &split, site));
    // A rect inside the first coarse cell alone sees one label.
    let corner = Rect { x0: 1, y0: 1, x1: 15, y1: 15 };
    assert!(!sim::generation::streets::spans_multiple_regions(&lu, &split, corner));
    // One reaching into the last cell sees both.
    let last = Rect { x0: 1, y0: 1, x1: 64, y1: 64 };
    assert!(sim::generation::streets::spans_multiple_regions(&lu, &split, last));
}

#[test]
fn subdivide_leaves_blocks_inside_the_rect_and_apart() {
    let c = cfg();
    let lu = run(5, c.site(), &c).unwrap();
    let labels = region_labels_by_use(&lu);
    let site = c.site();
    let mut rng = Rng::new(99);
    let mut junctions = std::collections::BTreeMap::new();
    let mut segments = Vec::new();
    let mut blocks: Vec<Block> = Vec::new();
    sim::generation::streets::subdivide(
        site, site, &lu, &labels, &c, &mut rng, 0, 0, 0, &mut junctions, &mut segments, &mut blocks,
    );
    assert!(blocks.len() > 1);
    assert!(!segments.is_empty());
    for (i, a) in blocks.iter().enumerate() {
        let a = a.bounds;
        assert!(site.x0 <= a.x0 && a.x1 <= site.x1 && site.y0 <= a.y0 && a.y1 <= site.y1);
        for b in &blocks[i + 1..] {
            let b = b.bounds;
            assert!(a.x1 <= b.x0 || b.x1 <= a.x0 || a.y1 <= b.y0 || b.y1 <= a.y0, "{a:?} overlaps {b:?}");
        }
    }
}

#[test]
fn subdivide_at_the_recursion_limit_keeps_the_rect_whole() {
    let c = cfg();
    let lu = run(5, c.site(), &c).unwrap();
    let labels = region_labels_by_use(&lu);
    let site = c.site();
    let mut rng = Rng::new(99);
    let mut junctions = std::collections::BTreeMap::new();
    let mut segments = Vec::new();
    let mut blocks: Vec<Block> = Vec::new();
    let d = c.max_recursion_depth;
    sim::generation::streets::subdivide(
        site, site, &lu, &labels, &c, &mut rng, d, 0, 0, &mut junctions, &mut segments, &mut blocks,
    );
    assert_eq!(blocks, vec![Block { bounds: site }]);
    assert!(segments.is_empty());
    assert!(junctions.is_empty());
}

#[test]
fn band_positions_keep_the_edge_margin_and_the_gap() {
    let mut rng = Rng::new(3);
    let ps = sim::generation::streets::band_positions(&mut rng, 0, 512, 3, 60, 12, 16);
    assert_eq!(ps.len(), 3);
    for w in ps.windows(2) {
        assert!(w[1] >= w[0] + 12 + 16);
    }
    assert!(ps[0] >= 6 + 16);
    let mut rng = Rng::new(3);
    assert!(sim::generation::streets::band_positions(&mut rng, 0, 512, 0, 60, 12, 16).is_empty());
    // No jitter: the bands sit exactly at their nominal positions.
    let mut rng = Rng::new(3);
    assert_eq!(sim::generation::streets::band_positions(&mut rng, 0, 400, 3, 0, 12, 16), vec![100, 200, 300]);
}

#[test]
fn land_use_run_refuses_a_site_not_a_whole_multiple_of_the_coarse_cell_size() {
    let c = cfg();
    let site = SiteBounds { x0: -100, y0: -100, x1: 200, y1: 200 };
    assert_eq!(
        run(1, site, &c).unwrap_err(),
        GenerationError::InvalidSite { site, coarse_cell_size_cells: c.coarse_cell_size_cells }
    );
    let ok = SiteBounds { x0: 0, y0: 0, x1: 320, y1: 160 };
    assert!(run(1, ok, &c).is_ok());
}
