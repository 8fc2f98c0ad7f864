use sim::generation::land_use::LandUse;
use sim::generation::plots::{
    absorb, axis_rows, cut_strip, rhythm_plots, row_min_len, row_span_rect, shared_edge_length, Plot,
    PlotMap, FACE_PRIORITY, RHYTHM_MODULE_MAX,
};
use sim::generation::streets::{block_sides, Block, Side};
use sim::generation::SiteBounds;
use sim::rng::Rng;
use sim::world::Rect;

/// A site strictly larger than [`one_block`]'s own bounds on every side,
/// so every one of the block's own four sides abuts a real street.
fn one_block_site() -> SiteBounds {
    SiteBounds { x0: -100, y0: -100, x1: 200, y1: 200 }
}

fn one_block() -> Block {
    Block { bounds: Rect { x0: 0, y0: 0, x1: 100, y1: 100 } }
}

fn fixture_plot(bounds: Rect, front: Side) -> Plot {
    Plot {
        bounds,
        block: 0,
        front: Some(front),
        land_use: LandUse::Residential,
        density: 50,
        open: false,
    }
}

#[test]
fn landlocked_plots_flags_an_interior_plot_with_no_boundary_edge() {
    let plot = fixture_plot(Rect { x0: 20, y0: 20, x1: 40, y1: 40 }, Side::South);
    let map = PlotMap::test_fixture(one_block_site(), vec![plot]);
    let offenders = map.landlocked_plots(&[one_block()], 3);
    assert_eq!(offenders, vec![0]);
}

#[test]
fn landlocked_plots_flags_a_corner_touch_only_plot() {
    let plot = fixture_plot(Rect { x0: 99, y0: 80, x1: 100, y1: 100 }, Side::South);
    let map = PlotMap::test_fixture(one_block_site(), vec![plot]);
    let offenders = map.landlocked_plots(&[one_block()], 3);
    assert_eq!(offenders, vec![0]);
}

#[test]
fn landlocked_plots_flags_a_frontage_one_cell_under_the_minimum() {
    let plot = fixture_plot(Rect { x0: 0, y0: 80, x1: 2, y1: 100 }, Side::South);
    let map = PlotMap::test_fixture(one_block_site(), vec![plot]);
    // frontage width is 2, the minimum is 3.
    let offenders = map.landlocked_plots(&[one_block()], 3);
    assert_eq!(offenders, vec![0]);
}

#[test]
fn landlocked_plots_accepts_a_plot_straddling_the_block_edge_as_landlocked_too() {
    let plot = fixture_plot(Rect { x0: 0, y0: 79, x1: 20, y1: 99 }, Side::South);
    let map = PlotMap::test_fixture(one_block_site(), vec![plot]);
    let offenders = map.landlocked_plots(&[one_block()], 3);
    assert_eq!(offenders, vec![0]);
}

#[test]
fn landlocked_plots_does_not_report_a_real_fronting_plot() {
    let plot = fixture_plot(Rect { x0: 0, y0: 80, x1: 20, y1: 100 }, Side::South);
    let map = PlotMap::test_fixture(one_block_site(), vec![plot]);
    let offenders = map.landlocked_plots(&[one_block()], 3);
    assert!(offenders.is_empty());
}

#[test]
fn landlocked_plots_flags_a_plot_fronting_a_side_that_does_not_abut_a_street() {
    // The block spans the whole site: every side sits on the site
    // boundary, so even a plot flush with the block's south edge is
    // landlocked.
    let plot = fixture_plot(Rect { x0: 0, y0: 80, x1: 20, y1: 100 }, Side::South);
    let block = Block { bounds: one_block_site() };
    let map = PlotMap::test_fixture(one_block_site(), vec![plot]);
    let offenders = map.landlocked_plots(&[block], 3);
    assert_eq!(offenders, vec![0]);
}

#[test]
fn landlocked_plots_skips_open_plots_and_flags_missing_fronts_and_blocks() {
    let open = Plot { open: true, front: None, ..fixture_plot(Rect { x0: 20, y0: 20, x1: 40, y1: 40 }, Side::South) };
    let no_front = Plot { front: None, ..fixture_plot(Rect { x0: 0, y0: 0, x1: 10, y1: 10 }, Side::North) };
    let no_block = Plot { block: 5, ..fixture_plot(Rect { x0: 0, y0: 80, x1: 20, y1: 100 }, Side::South) };
    let fine = fixture_plot(Rect { x0: 0, y0: 0, x1: 20, y1: 30 }, Side::West);
    let map = PlotMap::test_fixture(one_block_site(), vec![open, no_front, no_block, fine]);
    // Sorted by block then corner: the three of block 0, then block 5's.
    assert_eq!(map.plots()[3].block, 5);
    assert_eq!(map.landlocked_plots(&[one_block()], 3), vec![0, 3]);
}

#[test]
fn remainder_cells_accounts_for_a_deep_blocks_own_unplotted_core() {
    let block = one_block();
    let plot = fixture_plot(Rect { x0: 0, y0: 80, x1: 20, y1: 100 }, Side::South);
    let map = PlotMap::test_fixture(one_block_site(), vec![plot]);
    let remainder = map.remainder_cells(0, &[block]).unwrap();
    assert_eq!(remainder, 100 * 100 - 20 * 20);
    assert_eq!(map.remainder_cells(1, &[block]), None);
}

#[test]
fn rhythm_plots_of_an_empty_row_is_empty() {
    let strip = Rect { x0: 0, y0: 0, x1: 0, y1: 10 };
    let mut rng = Rng::new(1);
    assert!(rhythm_plots(strip, Side::South, 0, 6, 10, 0, &mut rng).is_empty());
}

#[test]
fn absorb_splits_a_core_at_the_mid_line_with_the_odd_cell_to_the_first_face() {
    assert_eq!(absorb(10, 10, 5), (13, 12));
    assert_eq!(absorb(10, 0, 5), (15, 0));
    assert_eq!(absorb(0, 10, 5), (0, 15));
    assert_eq!(absorb(0, 0, 5), (0, 0));
}

#[test]
fn axis_rows_absorbs_a_core_at_or_under_the_ceiling_and_leaves_a_bigger_one() {
    // 40 deep, two 12-deep rows: a 16-cell core, absorbed at a ceiling of
    // 16 (rows meet, 20/20), left at a ceiling of 8.
    assert_eq!(axis_rows(40, true, true, 12, 10, 16), (20, 20));
    assert_eq!(axis_rows(40, true, true, 12, 10, 8), (12, 12));
    // One face only: the whole leftover goes to it under the ceiling.
    assert_eq!(axis_rows(20, true, false, 12, 10, 8), (20, 0));
    assert_eq!(axis_rows(40, true, false, 12, 10, 8), (12, 0));
    // A face that cannot clear the minimum gets no row at all.
    assert_eq!(axis_rows(8, true, true, 12, 10, 8), (0, 0));
}

#[test]
fn axis_rows_gives_the_first_face_alone_what_two_cannot_share() {
    // 24 deep: two faces would get 12 each, under the minimum of 13, so
    // the first face alone takes 13 and the 11 left are its rear yard.
    assert_eq!(axis_rows(24, true, true, 13, 13, 16), (24, 0));
    assert_eq!(axis_rows(24, false, true, 13, 13, 8), (0, 13));
    assert_eq!(axis_rows(-5, true, true, 12, 0, 8), (0, 0));
}

#[test]
fn rhythm_plots_cuts_both_end_plots_wider_by_the_corner_extra() {
    let strip = Rect { x0: 0, y0: 0, x1: 40, y1: 10 };
    let mut rng = Rng::new(5);
    let cut = rhythm_plots(strip, Side::South, strip.width(), 8, 8, 1, &mut rng);
    assert_eq!(cut.first().unwrap().width(), 9, "first plot: module plus extra");
    assert!(cut.last().unwrap().width() >= 9, "last plot: never under module plus extra");
    for p in &cut[1..cut.len() - 1] {
        assert_eq!(p.width(), 8, "an interior plot is the plain module");
    }
    assert_eq!(cut.iter().map(|p| p.width()).sum::<i64>(), 40);
}

#[test]
fn rhythm_plots_covers_the_row_exactly_with_no_gap_and_no_overlap() {
    let strip = Rect { x0: 0, y0: 0, x1: 47, y1: 12 };
    let mut rng = Rng::new(42);
    let cut = rhythm_plots(strip, Side::South, strip.width(), 6, 10, 0, &mut rng);
    assert!(!cut.is_empty());
    let mut cursor = strip.x0;
    for r in &cut {
        assert_eq!(r.x0, cursor, "gap or overlap before {r:?}");
        assert_eq!(r.y0, strip.y0);
        assert_eq!(r.y1, strip.y1);
        cursor = r.x1;
    }
    assert_eq!(cursor, strip.x1);
}

#[test]
fn rhythm_plots_shows_repetition_within_one_face() {
    let strip = Rect { x0: 0, y0: 0, x1: 400, y1: 12 };
    let mut rng = Rng::new(99);
    let cut = rhythm_plots(strip, Side::South, strip.width(), 6, 10, 0, &mut rng);
    assert!(cut.len() > RHYTHM_MODULE_MAX as usize);
    let widths: std::collections::BTreeSet<i64> =
        cut[..cut.len() - 1].iter().map(|r| r.width()).collect();
    assert!(
        widths.len() as u32 <= RHYTHM_MODULE_MAX,
        "more distinct widths than the rhythm module count: {widths:?}"
    );
}

#[test]
fn rhythm_plots_runs_down_an_east_face() {
    let strip = Rect { x0: 90, y0: 10, x1: 100, y1: 60 };
    let mut rng = Rng::new(3);
    let cut = rhythm_plots(strip, Side::East, strip.height(), 7, 7, 0, &mut rng);
    let mut cursor = strip.y0;
    for r in &cut {
        assert_eq!((r.x0, r.x1), (90, 100));
        assert_eq!(r.y0, cursor);
        cursor = r.y1;
    }
    assert_eq!(cursor, 60);
    // 50 cells of 7-wide modules: six of 7, the last one 8.
    let widths: Vec<i64> = cut.iter().map(|r| r.height()).collect();
    assert_eq!(widths, vec![7, 7, 7, 7, 7, 7, 8]);
}

#[test]
fn cut_strip_takes_the_depth_off_the_named_side() {
    let r = Rect { x0: 0, y0: 0, x1: 100, y1: 60 };
    assert_eq!(
        cut_strip(r, Side::North, 20),
        Some((Rect { x0: 0, y0: 0, x1: 100, y1: 20 }, Rect { x0: 0, y0: 20, x1: 100, y1: 60 }))
    );
    assert_eq!(
        cut_strip(r, Side::South, 20),
        Some((Rect { x0: 0, y0: 40, x1: 100, y1: 60 }, Rect { x0: 0, y0: 0, x1: 100, y1: 40 }))
    );
    assert_eq!(
        cut_strip(r, Side::West, 150),
        Some((r, Rect { x0: 100, y0: 0, x1: 100, y1: 60 }))
    );
    assert_eq!(
        cut_strip(r, Side::East, 30),
        Some((Rect { x0: 70, y0: 0, x1: 100, y1: 60 }, Rect { x0: 0, y0: 0, x1: 70, y1: 60 }))
    );
    assert_eq!(cut_strip(r, Side::East, 0), None);
    assert_eq!(cut_strip(Rect { x0: 5, y0: 5, x1: 5, y1: 9 }, Side::North, 3), None);
}

#[test]
fn shared_edge_length_counts_only_a_flush_edge() {
    let block = Rect { x0: 0, y0: 0, x1: 100, y1: 100 };
    assert_eq!(shared_edge_length(Rect { x0: -5, y0: 80, x1: 20, y1: 100 }, block, Side::South), 20);
    assert_eq!(shared_edge_length(Rect { x0: 0, y0: 80, x1: 20, y1: 99 }, block, Side::South), 0);
    assert_eq!(shared_edge_length(Rect { x0: 90, y0: 10, x1: 100, y1: 40 }, block, Side::East), 30);
    assert_eq!(shared_edge_length(Rect { x0: 0, y0: 0, x1: 30, y1: 5 }, block, Side::North), 30);
    assert_eq!(shared_edge_length(Rect { x0: 0, y0: 0, x1: 30, y1: 5 }, block, Side::West), 5);
}

#[test]
fn row_span_rect_and_row_min_len_measure_along_the_row() {
    let strip = Rect { x0: 10, y0: 20, x1: 60, y1: 30 };
    assert_eq!(row_span_rect(strip, Side::North, 5, 15), Rect { x0: 15, y0: 20, x1: 25, y1: 30 });
    assert_eq!(row_span_rect(strip, Side::West, 2, 4), Rect { x0: 10, y0: 22, x1: 60, y1: 24 });
    assert_eq!(row_min_len(8, 3), 14);
    assert_eq!(row_min_len(8, -3), 8);
}

#[test]
fn block_sides_reports_every_side_off_the_site_boundary() {
    let site = one_block_site();
    let s = block_sides(one_block().bounds, site);
    assert!(s.north && s.south && s.east && s.west && s.any());
    let s = block_sides(Rect { x0: -100, y0: 0, x1: 100, y1: 200 }, site);
    assert!(s.north && !s.south && s.east && !s.west);
    assert!(s.get(Side::North) && !s.get(Side::West));
    assert!(!block_sides(site, site).any());
    assert_eq!(FACE_PRIORITY, [Side::South, Side::North, Side::East, Side::West]);
}

#[test]
fn open_percents_count_open_plots_and_their_area() {
    let a = Plot { open: true, front: None, ..fixture_plot(Rect { x0: 0, y0: 0, x1: 10, y1: 10 }, Side::North) };
    let b = fixture_plot(Rect { x0: 10, y0: 0, x1: 40, y1: 10 }, Side::North);
    let c = fixture_plot(Rect { x0: 40, y0: 0, x1: 100, y1: 10 }, Side::North);
    let map = PlotMap::test_fixture(one_block_site(), vec![a, b, c]);
    assert_eq!(map.open_count_percent(), 33);
    assert_eq!(map.open_area_percent(), 10);
    assert_eq!(map.unplotted_percent(&[one_block()]), 90);
    let empty = PlotMap::test_fixture(one_block_site(), Vec::new());
    assert_eq!(empty.open_count_percent(), 0);
    assert_eq!(empty.open_area_percent(), 0);
    assert_eq!(empty.unplotted_percent(&[]), 0);
}
