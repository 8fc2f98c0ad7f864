//! The generator's coarse-to-fine passes: land use first. Pure functions
//! and data only: every input is passed in by the caller. Each pass seeds
//! its own [`crate::rng::Rng`] stream from `seed_from_ids(city_seed,
//! PASS_ID)`, so adding a draw to one pass never reshuffles another.

use vstd::prelude::*;
use crate::text::decimal;
use crate::balance::{has_key, spec_value, value};
use crate::defs::BalanceSeed;
use crate::rng::{seed_from_ids, spec_seed_from_ids};
use crate::rules::Violation;
use crate::world::collision::Rect;

pub mod land_use;
pub mod streets;
pub mod street_checks;
pub mod block_use;
pub mod plots;
pub mod envelopes;
pub mod building_types;

pub use land_use::LandUse;
pub use block_use::block_land_use;
use land_use::{land_use_index, use_index};

verus! {

/// The generated site's own world-absolute extent.
pub type SiteBounds = Rect;

/// The passes, coarse to fine -- append-only, never renumbered.
pub const PASS_LAND_USE: u64 = 1;
pub const PASS_STREETS: u64 = 2;
pub const PASS_PLOT_SUBDIVISION: u64 = 3;
pub const PASS_BUILDING_ENVELOPE: u64 = 4;
pub const PASS_BUILDING_TYPE: u64 = 5;
pub const PASS_INTERIOR_LAYOUT: u64 = 6;
pub const PASS_PROP_PLACEMENT: u64 = 7;

/// Bumped whenever a pass's algorithm or seeding changes in a way that
/// could move its output for a fixed seed.
pub const GENERATION_VERSION: u32 = 6;

/// A stable seed key derived purely from a rect's own geometry, never from
/// its position in a list.
pub open spec fn spec_rect_seed_key(r: Rect) -> u64 {
    spec_seed_from_ids(
        spec_seed_from_ids(r.x0 as u32 as u64, r.y0 as u32 as u64),
        spec_seed_from_ids(r.x1 as u32 as u64, r.y1 as u32 as u64),
    )
}

pub fn rect_seed_key(r: SiteBounds) -> (k: u64)
    ensures
        k == spec_rect_seed_key(r),
{
    let lo = seed_from_ids(r.x0 as u32 as u64, r.y0 as u32 as u64);
    let hi = seed_from_ids(r.x1 as u32 as u64, r.y1 as u32 as u64);
    seed_from_ids(lo, hi)
}

/// Every way generation itself can fail.
#[derive(Debug, Clone, PartialEq, Eq)]
pub enum GenerationError {
    /// The balance keys are internally inconsistent.
    InvalidConfig(String),
    /// The site is not a whole multiple of the coarse cell size.
    InvalidSite { site: SiteBounds, coarse_cell_size_cells: i32 },
    /// The realised building count sits outside `[min, max]`.
    BuildingCountOutOfTolerance { got: i64, min: i64, max: i64 },
    /// The rule engine found violations over the finished district.
    RuleViolations { count: usize, first: Violation },
    /// The realised workplace count sits outside `[min, max]`.
    WorkplaceCountOutOfTolerance { got: i64, min: i64, max: i64 },
}

/// The text [`invalid_site_text`] produces.
pub open spec fn spec_invalid_site_text(x0: int, y0: int, x1: int, y1: int, size: int) -> Seq<char> {
    "land_use::run: site Rect { x0: "@ + decimal(x0 as int) + ", y0: "@ + decimal(y0 as int) + ", x1: "@ + decimal(x1 as int) + ", y1: "@ + decimal(y1 as int) + " } is not a whole multiple of coarse_cell_size_cells ("@ + decimal(size as int) + ")"@
}

/// The text of a refusal.
///
/// Formats with `format!`; the contract claims what std documents of
/// `Display`: the literal text, each integer in decimal (a leading `-`
/// when negative) and each string as it is.
#[verifier::external_body]
fn invalid_site_text(x0: i32, y0: i32, x1: i32, y1: i32, size: i32) -> (s: String)
    ensures
        s@ == spec_invalid_site_text(x0 as int, y0 as int, x1 as int, y1 as int, size as int),
{
    format!("land_use::run: site Rect {{ x0: {x0}, y0: {y0}, x1: {x1}, y1: {y1} }} is not a whole multiple of coarse_cell_size_cells ({size})")
}

/// The text [`building_count_text`] produces.
pub open spec fn spec_building_count_text(got: int, min: int, max: int) -> Seq<char> {
    "generation::envelopes: building count "@ + decimal(got as int) + " is outside tolerance ["@ + decimal(min as int) + ", "@ + decimal(max as int) + "]"@
}

/// The text of a refusal.
///
/// Formats with `format!`; the contract claims what std documents of
/// `Display`: the literal text, each integer in decimal (a leading `-`
/// when negative) and each string as it is.
#[verifier::external_body]
fn building_count_text(got: i64, min: i64, max: i64) -> (s: String)
    ensures
        s@ == spec_building_count_text(got as int, min as int, max as int),
{
    format!("generation::envelopes: building count {got} is outside tolerance [{min}, {max}]")
}

/// The text [`rule_violations_text`] produces.
pub open spec fn spec_rule_violations_text(count: int, rule: int, x: int, y: int, f: int) -> Seq<char> {
    "generation::building_types: "@ + decimal(count as int) + " rule violation(s), first: rule "@ + decimal(rule as int) + " at ("@ + decimal(x as int) + ", "@ + decimal(y as int) + ", "@ + decimal(f as int) + ")"@
}

/// The text of a refusal.
///
/// Formats with `format!`; the contract claims what std documents of
/// `Display`: the literal text, each integer in decimal (a leading `-`
/// when negative) and each string as it is.
#[verifier::external_body]
fn rule_violations_text(count: usize, rule: u32, x: i32, y: i32, f: i8) -> (s: String)
    ensures
        s@ == spec_rule_violations_text(count as int, rule as int, x as int, y as int, f as int),
{
    format!("generation::building_types: {count} rule violation(s), first: rule {rule} at ({x}, {y}, {f})")
}

/// The text [`workplace_count_text`] produces.
pub open spec fn spec_workplace_count_text(got: int, min: int, max: int) -> Seq<char> {
    "generation::building_types: workplace count "@ + decimal(got as int) + " is outside tolerance ["@ + decimal(min as int) + ", "@ + decimal(max as int) + "]"@
}

/// The text of a refusal.
///
/// Formats with `format!`; the contract claims what std documents of
/// `Display`: the literal text, each integer in decimal (a leading `-`
/// when negative) and each string as it is.
#[verifier::external_body]
fn workplace_count_text(got: i64, min: i64, max: i64) -> (s: String)
    ensures
        s@ == spec_workplace_count_text(got as int, min as int, max as int),
{
    format!("generation::building_types: workplace count {got} is outside tolerance [{min}, {max}]")
}

/// The text of a generation error: the config refusal's own message, or
/// each variant's fixed sentence with its numbers.
pub open spec fn spec_error_text(e: GenerationError) -> Seq<char> {
    match e {
        GenerationError::InvalidConfig(msg) => msg@,
        GenerationError::InvalidSite { site, coarse_cell_size_cells } => spec_invalid_site_text(
            site.x0 as int,
            site.y0 as int,
            site.x1 as int,
            site.y1 as int,
            coarse_cell_size_cells as int,
        ),
        GenerationError::BuildingCountOutOfTolerance { got, min, max } => spec_building_count_text(got as int, min as int, max as int),
        GenerationError::RuleViolations { count, first } => spec_rule_violations_text(
            count as int,
            first.rule_id as int,
            first.subject.x as int,
            first.subject.y as int,
            first.subject.floor as int,
        ),
        GenerationError::WorkplaceCountOutOfTolerance { got, min, max } => spec_workplace_count_text(got as int, min as int, max as int),
    }
}

impl GenerationError {
    /// The error as text.
    pub fn to_text(&self) -> (s: String)
        ensures
            s@ == spec_error_text(*self),
    {
        match self {
            GenerationError::InvalidConfig(msg) => msg.clone(),
            GenerationError::InvalidSite { site, coarse_cell_size_cells } => invalid_site_text(
                site.x0,
                site.y0,
                site.x1,
                site.y1,
                *coarse_cell_size_cells,
            ),
            GenerationError::BuildingCountOutOfTolerance { got, min, max } => building_count_text(*got, *min, *max),
            GenerationError::RuleViolations { count, first } => rule_violations_text(
                *count,
                first.rule_id,
                first.subject.x,
                first.subject.y,
                first.subject.floor,
            ),
            GenerationError::WorkplaceCountOutOfTolerance { got, min, max } => workplace_count_text(*got, *min, *max),
        }
    }
}

/// Every balance-key input the passes read, loaded once by
/// [`GenerationConfig::from_balance`] and passed down as a struct: no pass
/// looks up a key or holds a literal. Per-land-use arrays follow
/// [`LandUse::ALL`] order.
#[derive(Debug, Clone, Copy)]
pub struct GenerationConfig {
    pub site_extent_cells: i32,
    pub coarse_cell_size_cells: i32,
    pub land_use_min_leaf_cells: i32,
    pub land_use_max_leaf_cells: i32,
    pub land_use_split_jitter_pct: i32,
    pub land_use_max_recursion_depth: u32,
    pub density_min: i32,
    pub density_max: i32,
    pub density_peak_offset_min_pct: i32,
    pub density_peak_offset_max_pct: i32,
    pub share_residential_pct: i32,
    pub share_commercial_pct: i32,
    pub share_industrial_pct: i32,
    pub share_institutional_pct: i32,
    pub arterial_count_ns_min: u32,
    pub arterial_count_ns_max: u32,
    pub arterial_count_ew_min: u32,
    pub arterial_count_ew_max: u32,
    pub arterial_width_cells: i32,
    pub street_width_cells: i32,
    pub lane_width_cells: i32,
    pub arterial_jitter_pct: i32,
    pub block_size_min_cells: i32,
    pub block_size_max_cells: i32,
    pub min_block_depth_cells: i32,
    pub max_block_depth_min_cells: i32,
    pub max_block_depth_max_cells: i32,
    pub split_jitter_pct: i32,
    pub max_recursion_depth: u32,
    pub max_lane_splits: u32,
    pub max_street_splits_per_superblock: u32,
    pub junction_min_separation_cells: i32,
    pub detour_long_pair_cells: i32,
    pub max_detour_percent: i32,
    pub max_detour_excess_cells: i32,
    pub p99_detour_percent: i32,
    pub min_distinct_block_sizes: i64,
    pub peripheral_low_band_floor_percent: i32,
    pub peripheral_pooled_min_ratio_percent: i32,
    pub institutional_min_pockets: i64,
    pub institutional_max_pocket_share_percent: i64,
    pub plot_frontage_min_cells: i32,
    pub plot_high_density_threshold: i32,
    pub plot_setback_periphery_cells: i32,
    pub plot_width_min_cells: [i32; 4],
    pub plot_width_max_cells: [i32; 4],
    pub plot_row_depth_cells: [i32; 4],
    pub plot_max_core_depth_cells: i32,
    pub plot_max_core_depth_periphery_cells: i32,
    pub plot_open_min_side_cells: i32,
    pub plot_max_open_percent_by_count: i64,
    pub plot_max_open_percent_by_area: i64,
    pub plot_max_unplotted_percent: i64,
    pub envelope_wall_thickness_cells: i32,
    pub envelope_min_interior_width_cells: [i32; 4],
    pub envelope_min_interior_depth_cells: [i32; 4],
    pub envelope_max_width_cells: i32,
    pub envelope_max_depth_cells: i32,
    pub envelope_side_gap_periphery_cells: i32,
    pub envelope_size_trim_max_cells: i32,
    pub envelope_mean_width_cells: i32,
    pub envelope_mean_width_tolerance_cells: i32,
    pub envelope_mean_depth_cells: i32,
    pub envelope_mean_depth_tolerance_cells: i32,
    pub envelope_min_distinct_sizes: i64,
    pub envelope_target_count_per_million_cells: i64,
    pub envelope_count_tolerance_percent: i64,
    pub envelope_mean_count_tolerance_percent: i64,
    pub envelope_max_rejected_plot_percent: i64,
    pub workplace_target_count_per_million_cells: i64,
    pub workplace_count_tolerance_percent: i64,
    pub workplace_mean_count_tolerance_percent: i64,
    pub building_type_catchment_extent_cells: i32,
}

/// The footprint size band one land use's envelopes must stay inside.
#[derive(Debug, Clone, Copy, PartialEq, Eq, Structural)]
pub struct EnvelopeLimits {
    pub min_width_cells: i32,
    pub min_depth_cells: i32,
    pub max_width_cells: i32,
    pub max_depth_cells: i32,
}

/// `balance` carries every key [`GenerationConfig::from_balance`] reads.
pub open spec fn has_generation_keys(balance: Seq<BalanceSeed>) -> bool {
    &&& has_key(balance, "generation.site_extent_cells"@)
    &&& has_key(balance, "generation.land_use.coarse_cell_size_cells"@)
    &&& has_key(balance, "generation.land_use.min_leaf_cells"@)
    &&& has_key(balance, "generation.land_use.max_leaf_cells"@)
    &&& has_key(balance, "generation.land_use.split_jitter_pct"@)
    &&& has_key(balance, "generation.land_use.max_recursion_depth"@)
    &&& has_key(balance, "generation.land_use.density_min"@)
    &&& has_key(balance, "generation.land_use.density_max"@)
    &&& has_key(balance, "generation.land_use.density_peak_offset_min_pct"@)
    &&& has_key(balance, "generation.land_use.density_peak_offset_max_pct"@)
    &&& has_key(balance, "generation.land_use.share_residential_pct"@)
    &&& has_key(balance, "generation.land_use.share_commercial_pct"@)
    &&& has_key(balance, "generation.land_use.share_industrial_pct"@)
    &&& has_key(balance, "generation.land_use.share_institutional_pct"@)
    &&& has_key(balance, "generation.streets.arterial_count_ns_min"@)
    &&& has_key(balance, "generation.streets.arterial_count_ns_max"@)
    &&& has_key(balance, "generation.streets.arterial_count_ew_min"@)
    &&& has_key(balance, "generation.streets.arterial_count_ew_max"@)
    &&& has_key(balance, "generation.streets.arterial_width_cells"@)
    &&& has_key(balance, "generation.streets.street_width_cells"@)
    &&& has_key(balance, "generation.streets.lane_width_cells"@)
    &&& has_key(balance, "generation.streets.arterial_jitter_pct"@)
    &&& has_key(balance, "generation.streets.block_size_min_cells"@)
    &&& has_key(balance, "generation.streets.block_size_max_cells"@)
    &&& has_key(balance, "generation.streets.min_block_depth_cells"@)
    &&& has_key(balance, "generation.streets.max_block_depth_min_cells"@)
    &&& has_key(balance, "generation.streets.max_block_depth_max_cells"@)
    &&& has_key(balance, "generation.streets.split_jitter_pct"@)
    &&& has_key(balance, "generation.streets.max_recursion_depth"@)
    &&& has_key(balance, "generation.streets.max_lane_splits"@)
    &&& has_key(balance, "generation.streets.max_street_splits_per_superblock"@)
    &&& has_key(balance, "generation.streets.junction_min_separation_cells"@)
    &&& has_key(balance, "generation.streets.detour_long_pair_cells"@)
    &&& has_key(balance, "generation.streets.max_detour_percent"@)
    &&& has_key(balance, "generation.streets.max_detour_excess_cells"@)
    &&& has_key(balance, "generation.streets.p99_detour_percent"@)
    &&& has_key(balance, "generation.streets.min_distinct_block_sizes"@)
    &&& has_key(balance, "generation.streets.peripheral_low_band_floor_percent"@)
    &&& has_key(balance, "generation.streets.peripheral_pooled_min_ratio_percent"@)
    &&& has_key(balance, "generation.land_use.institutional_min_pockets"@)
    &&& has_key(balance, "generation.land_use.institutional_max_pocket_share_percent"@)
    &&& has_key(balance, "generation.plots.frontage_min_cells"@)
    &&& has_key(balance, "generation.plots.high_density_threshold"@)
    &&& has_key(balance, "generation.plots.setback_periphery_cells"@)
    &&& has_key(balance, "generation.plots.residential_width_min_cells"@)
    &&& has_key(balance, "generation.plots.commercial_width_min_cells"@)
    &&& has_key(balance, "generation.plots.industrial_width_min_cells"@)
    &&& has_key(balance, "generation.plots.institutional_width_min_cells"@)
    &&& has_key(balance, "generation.plots.residential_width_max_cells"@)
    &&& has_key(balance, "generation.plots.commercial_width_max_cells"@)
    &&& has_key(balance, "generation.plots.industrial_width_max_cells"@)
    &&& has_key(balance, "generation.plots.institutional_width_max_cells"@)
    &&& has_key(balance, "generation.plots.residential_row_depth_cells"@)
    &&& has_key(balance, "generation.plots.commercial_row_depth_cells"@)
    &&& has_key(balance, "generation.plots.industrial_row_depth_cells"@)
    &&& has_key(balance, "generation.plots.institutional_row_depth_cells"@)
    &&& has_key(balance, "generation.plots.max_core_depth_cells"@)
    &&& has_key(balance, "generation.plots.max_core_depth_periphery_cells"@)
    &&& has_key(balance, "generation.plots.open_min_side_cells"@)
    &&& has_key(balance, "generation.plots.max_open_percent_by_count"@)
    &&& has_key(balance, "generation.plots.max_open_percent_by_area"@)
    &&& has_key(balance, "generation.plots.max_unplotted_percent"@)
    &&& has_key(balance, "generation.envelopes.wall_thickness_cells"@)
    &&& has_key(balance, "generation.envelopes.residential_min_interior_width_cells"@)
    &&& has_key(balance, "generation.envelopes.commercial_min_interior_width_cells"@)
    &&& has_key(balance, "generation.envelopes.industrial_min_interior_width_cells"@)
    &&& has_key(balance, "generation.envelopes.institutional_min_interior_width_cells"@)
    &&& has_key(balance, "generation.envelopes.residential_min_interior_depth_cells"@)
    &&& has_key(balance, "generation.envelopes.commercial_min_interior_depth_cells"@)
    &&& has_key(balance, "generation.envelopes.industrial_min_interior_depth_cells"@)
    &&& has_key(balance, "generation.envelopes.institutional_min_interior_depth_cells"@)
    &&& has_key(balance, "generation.envelopes.max_width_cells"@)
    &&& has_key(balance, "generation.envelopes.max_depth_cells"@)
    &&& has_key(balance, "generation.envelopes.side_gap_periphery_cells"@)
    &&& has_key(balance, "generation.envelopes.size_trim_max_cells"@)
    &&& has_key(balance, "generation.envelopes.mean_width_cells"@)
    &&& has_key(balance, "generation.envelopes.mean_width_tolerance_cells"@)
    &&& has_key(balance, "generation.envelopes.mean_depth_cells"@)
    &&& has_key(balance, "generation.envelopes.mean_depth_tolerance_cells"@)
    &&& has_key(balance, "generation.envelopes.min_distinct_sizes"@)
    &&& has_key(balance, "generation.envelopes.target_count_per_million_cells"@)
    &&& has_key(balance, "generation.envelopes.count_tolerance_percent"@)
    &&& has_key(balance, "generation.envelopes.mean_count_tolerance_percent"@)
    &&& has_key(balance, "generation.envelopes.max_rejected_plot_percent"@)
    &&& has_key(balance, "generation.building_types.target_workplaces_per_million_cells"@)
    &&& has_key(balance, "generation.building_types.workplace_count_tolerance_percent"@)
    &&& has_key(balance, "generation.building_types.workplace_mean_count_tolerance_percent"@)
    &&& has_key(balance, "generation.building_types.catchment_extent_cells"@)
}

/// The configuration `balance` spells out, each value cast to its field.
pub open spec fn read_config(b: Seq<BalanceSeed>) -> GenerationConfig {
    GenerationConfig {
        site_extent_cells: spec_value(b, "generation.site_extent_cells"@) as i32,
        coarse_cell_size_cells: spec_value(b, "generation.land_use.coarse_cell_size_cells"@) as i32,
        land_use_min_leaf_cells: spec_value(b, "generation.land_use.min_leaf_cells"@) as i32,
        land_use_max_leaf_cells: spec_value(b, "generation.land_use.max_leaf_cells"@) as i32,
        land_use_split_jitter_pct: spec_value(b, "generation.land_use.split_jitter_pct"@) as i32,
        land_use_max_recursion_depth: spec_value(b, "generation.land_use.max_recursion_depth"@) as u32,
        density_min: spec_value(b, "generation.land_use.density_min"@) as i32,
        density_max: spec_value(b, "generation.land_use.density_max"@) as i32,
        density_peak_offset_min_pct: spec_value(b, "generation.land_use.density_peak_offset_min_pct"@) as i32,
        density_peak_offset_max_pct: spec_value(b, "generation.land_use.density_peak_offset_max_pct"@) as i32,
        share_residential_pct: spec_value(b, "generation.land_use.share_residential_pct"@) as i32,
        share_commercial_pct: spec_value(b, "generation.land_use.share_commercial_pct"@) as i32,
        share_industrial_pct: spec_value(b, "generation.land_use.share_industrial_pct"@) as i32,
        share_institutional_pct: spec_value(b, "generation.land_use.share_institutional_pct"@) as i32,
        arterial_count_ns_min: spec_value(b, "generation.streets.arterial_count_ns_min"@) as u32,
        arterial_count_ns_max: spec_value(b, "generation.streets.arterial_count_ns_max"@) as u32,
        arterial_count_ew_min: spec_value(b, "generation.streets.arterial_count_ew_min"@) as u32,
        arterial_count_ew_max: spec_value(b, "generation.streets.arterial_count_ew_max"@) as u32,
        arterial_width_cells: spec_value(b, "generation.streets.arterial_width_cells"@) as i32,
        street_width_cells: spec_value(b, "generation.streets.street_width_cells"@) as i32,
        lane_width_cells: spec_value(b, "generation.streets.lane_width_cells"@) as i32,
        arterial_jitter_pct: spec_value(b, "generation.streets.arterial_jitter_pct"@) as i32,
        block_size_min_cells: spec_value(b, "generation.streets.block_size_min_cells"@) as i32,
        block_size_max_cells: spec_value(b, "generation.streets.block_size_max_cells"@) as i32,
        min_block_depth_cells: spec_value(b, "generation.streets.min_block_depth_cells"@) as i32,
        max_block_depth_min_cells: spec_value(b, "generation.streets.max_block_depth_min_cells"@) as i32,
        max_block_depth_max_cells: spec_value(b, "generation.streets.max_block_depth_max_cells"@) as i32,
        split_jitter_pct: spec_value(b, "generation.streets.split_jitter_pct"@) as i32,
        max_recursion_depth: spec_value(b, "generation.streets.max_recursion_depth"@) as u32,
        max_lane_splits: spec_value(b, "generation.streets.max_lane_splits"@) as u32,
        max_street_splits_per_superblock: spec_value(b, "generation.streets.max_street_splits_per_superblock"@) as u32,
        junction_min_separation_cells: spec_value(b, "generation.streets.junction_min_separation_cells"@) as i32,
        detour_long_pair_cells: spec_value(b, "generation.streets.detour_long_pair_cells"@) as i32,
        max_detour_percent: spec_value(b, "generation.streets.max_detour_percent"@) as i32,
        max_detour_excess_cells: spec_value(b, "generation.streets.max_detour_excess_cells"@) as i32,
        p99_detour_percent: spec_value(b, "generation.streets.p99_detour_percent"@) as i32,
        min_distinct_block_sizes: spec_value(b, "generation.streets.min_distinct_block_sizes"@),
        peripheral_low_band_floor_percent: spec_value(b, "generation.streets.peripheral_low_band_floor_percent"@) as i32,
        peripheral_pooled_min_ratio_percent: spec_value(b, "generation.streets.peripheral_pooled_min_ratio_percent"@) as i32,
        institutional_min_pockets: spec_value(b, "generation.land_use.institutional_min_pockets"@),
        institutional_max_pocket_share_percent: spec_value(b, "generation.land_use.institutional_max_pocket_share_percent"@),
        plot_frontage_min_cells: spec_value(b, "generation.plots.frontage_min_cells"@) as i32,
        plot_high_density_threshold: spec_value(b, "generation.plots.high_density_threshold"@) as i32,
        plot_setback_periphery_cells: spec_value(b, "generation.plots.setback_periphery_cells"@) as i32,
        plot_width_min_cells: [spec_value(b, "generation.plots.residential_width_min_cells"@) as i32, spec_value(b, "generation.plots.commercial_width_min_cells"@) as i32, spec_value(b, "generation.plots.industrial_width_min_cells"@) as i32, spec_value(b, "generation.plots.institutional_width_min_cells"@) as i32],
        plot_width_max_cells: [spec_value(b, "generation.plots.residential_width_max_cells"@) as i32, spec_value(b, "generation.plots.commercial_width_max_cells"@) as i32, spec_value(b, "generation.plots.industrial_width_max_cells"@) as i32, spec_value(b, "generation.plots.institutional_width_max_cells"@) as i32],
        plot_row_depth_cells: [spec_value(b, "generation.plots.residential_row_depth_cells"@) as i32, spec_value(b, "generation.plots.commercial_row_depth_cells"@) as i32, spec_value(b, "generation.plots.industrial_row_depth_cells"@) as i32, spec_value(b, "generation.plots.institutional_row_depth_cells"@) as i32],
        plot_max_core_depth_cells: spec_value(b, "generation.plots.max_core_depth_cells"@) as i32,
        plot_max_core_depth_periphery_cells: spec_value(b, "generation.plots.max_core_depth_periphery_cells"@) as i32,
        plot_open_min_side_cells: spec_value(b, "generation.plots.open_min_side_cells"@) as i32,
        plot_max_open_percent_by_count: spec_value(b, "generation.plots.max_open_percent_by_count"@),
        plot_max_open_percent_by_area: spec_value(b, "generation.plots.max_open_percent_by_area"@),
        plot_max_unplotted_percent: spec_value(b, "generation.plots.max_unplotted_percent"@),
        envelope_wall_thickness_cells: spec_value(b, "generation.envelopes.wall_thickness_cells"@) as i32,
        envelope_min_interior_width_cells: [spec_value(b, "generation.envelopes.residential_min_interior_width_cells"@) as i32, spec_value(b, "generation.envelopes.commercial_min_interior_width_cells"@) as i32, spec_value(b, "generation.envelopes.industrial_min_interior_width_cells"@) as i32, spec_value(b, "generation.envelopes.institutional_min_interior_width_cells"@) as i32],
        envelope_min_interior_depth_cells: [spec_value(b, "generation.envelopes.residential_min_interior_depth_cells"@) as i32, spec_value(b, "generation.envelopes.commercial_min_interior_depth_cells"@) as i32, spec_value(b, "generation.envelopes.industrial_min_interior_depth_cells"@) as i32, spec_value(b, "generation.envelopes.institutional_min_interior_depth_cells"@) as i32],
        envelope_max_width_cells: spec_value(b, "generation.envelopes.max_width_cells"@) as i32,
        envelope_max_depth_cells: spec_value(b, "generation.envelopes.max_depth_cells"@) as i32,
        envelope_side_gap_periphery_cells: spec_value(b, "generation.envelopes.side_gap_periphery_cells"@) as i32,
        envelope_size_trim_max_cells: spec_value(b, "generation.envelopes.size_trim_max_cells"@) as i32,
        envelope_mean_width_cells: spec_value(b, "generation.envelopes.mean_width_cells"@) as i32,
        envelope_mean_width_tolerance_cells: spec_value(b, "generation.envelopes.mean_width_tolerance_cells"@) as i32,
        envelope_mean_depth_cells: spec_value(b, "generation.envelopes.mean_depth_cells"@) as i32,
        envelope_mean_depth_tolerance_cells: spec_value(b, "generation.envelopes.mean_depth_tolerance_cells"@) as i32,
        envelope_min_distinct_sizes: spec_value(b, "generation.envelopes.min_distinct_sizes"@),
        envelope_target_count_per_million_cells: spec_value(b, "generation.envelopes.target_count_per_million_cells"@),
        envelope_count_tolerance_percent: spec_value(b, "generation.envelopes.count_tolerance_percent"@),
        envelope_mean_count_tolerance_percent: spec_value(b, "generation.envelopes.mean_count_tolerance_percent"@),
        envelope_max_rejected_plot_percent: spec_value(b, "generation.envelopes.max_rejected_plot_percent"@),
        workplace_target_count_per_million_cells: spec_value(b, "generation.building_types.target_workplaces_per_million_cells"@),
        workplace_count_tolerance_percent: spec_value(b, "generation.building_types.workplace_count_tolerance_percent"@),
        workplace_mean_count_tolerance_percent: spec_value(b, "generation.building_types.workplace_mean_count_tolerance_percent"@),
        building_type_catchment_extent_cells: spec_value(b, "generation.building_types.catchment_extent_cells"@) as i32,
    }
}



/// The smallest footprint a land use's envelope may take: its minimum
/// usable interior plus two wall rings.
pub open spec fn min_footprint_w(c: GenerationConfig, i: int) -> int {
    c.envelope_min_interior_width_cells[i] + 2 * c.envelope_wall_thickness_cells
}

pub open spec fn min_footprint_d(c: GenerationConfig, i: int) -> int {
    c.envelope_min_interior_depth_cells[i] + 2 * c.envelope_wall_thickness_cells
}

/// The per-land-use cross-key checks for the use at index `i`.
pub open spec fn use_ok(c: GenerationConfig, i: int) -> bool {
    &&& c.plot_width_min_cells[i] <= c.plot_width_max_cells[i]
    &&& min_footprint_w(c, i) <= c.plot_width_min_cells[i]
    &&& min_footprint_d(c, i) <= c.plot_row_depth_cells[i]
    &&& min_footprint_w(c, i) <= c.envelope_max_width_cells
    &&& min_footprint_d(c, i) <= c.envelope_max_depth_cells
    &&& min_footprint_w(c, i) + c.envelope_side_gap_periphery_cells <= c.plot_width_min_cells[i]
    &&& min_footprint_d(c, i) + c.plot_setback_periphery_cells <= c.plot_row_depth_cells[i]
    &&& c.plot_width_max_cells[i] <= c.envelope_max_width_cells
}

pub open spec fn min4(a: int, b: int, c: int, d: int) -> int {
    let ab = if a <= b { a } else { b };
    let cd = if c <= d { c } else { d };
    if ab <= cd { ab } else { cd }
}

/// Every cross-key check [`GenerationConfig::from_balance`] makes.
pub open spec fn config_ok(c: GenerationConfig) -> bool {
    &&& c.coarse_cell_size_cells > 0 && c.site_extent_cells % c.coarse_cell_size_cells == 0
    &&& c.arterial_width_cells % 2 == 0
    &&& c.street_width_cells % 2 == 0
    &&& c.lane_width_cells % 2 == 0
    &&& c.share_residential_pct + c.share_commercial_pct + c.share_industrial_pct + c.share_institutional_pct == 100
    &&& c.land_use_max_leaf_cells >= 2 * c.land_use_min_leaf_cells
    &&& c.density_min <= c.density_max
    &&& c.density_peak_offset_min_pct <= c.density_peak_offset_max_pct
    &&& c.block_size_min_cells <= c.block_size_max_cells
    &&& c.max_block_depth_min_cells <= c.max_block_depth_max_cells
    &&& c.max_detour_excess_cells <= 4 * c.block_size_max_cells + 2 * c.arterial_width_cells
    &&& c.p99_detour_percent <= c.max_detour_percent
    &&& c.peripheral_low_band_floor_percent <= c.peripheral_pooled_min_ratio_percent
    &&& c.arterial_count_ns_min <= c.arterial_count_ns_max
    &&& c.arterial_count_ew_min <= c.arterial_count_ew_max
    &&& c.envelope_side_gap_periphery_cells % 2 == 0
    &&& forall|i: int| 0 <= i < 4 ==> #[trigger] use_ok(c, i)
    &&& min4(min_footprint_w(c, 0), min_footprint_w(c, 1), min_footprint_w(c, 2), min_footprint_w(c, 3))
        <= c.envelope_mean_width_cells <= c.envelope_max_width_cells
    &&& min4(min_footprint_d(c, 0), min_footprint_d(c, 1), min_footprint_d(c, 2), min_footprint_d(c, 3))
        <= c.envelope_mean_depth_cells <= c.envelope_max_depth_cells
}

/// The text [`multiple_text`] produces.
pub open spec fn spec_multiple_text(site: int, coarse: int) -> Seq<char> {
    "GenerationConfig: site extent "@ + decimal(site as int) + " is not a whole multiple of coarse cell size "@ + decimal(coarse as int)
}

/// The text of a refusal.
///
/// Formats with `format!`; the contract claims what std documents of
/// `Display`: the literal text, each integer in decimal (a leading `-`
/// when negative) and each string as it is.
#[verifier::external_body]
fn multiple_text(site: i32, coarse: i32) -> (s: String)
    ensures
        s@ == spec_multiple_text(site as int, coarse as int),
{
    format!("GenerationConfig: site extent {site} is not a whole multiple of coarse cell size {coarse}")
}

/// The text [`even_text`] produces.
pub open spec fn spec_even_text(name: Seq<char>, w: int) -> Seq<char> {
    "GenerationConfig: generation.streets."@ + name + " ("@ + decimal(w as int) + ") must be even"@
}

/// The text of a refusal.
///
/// Formats with `format!`; the contract claims what std documents of
/// `Display`: the literal text, each integer in decimal (a leading `-`
/// when negative) and each string as it is.
#[verifier::external_body]
fn even_text(name: &str, w: i32) -> (s: String)
    ensures
        s@ == spec_even_text(name@, w as int),
{
    format!("GenerationConfig: generation.streets.{name} ({w}) must be even")
}

/// The text [`share_text`] produces.
pub open spec fn spec_share_text(sum: int) -> Seq<char> {
    "GenerationConfig: land-use shares sum to "@ + decimal(sum as int) + ", not 100"@
}

/// The text of a refusal.
///
/// Formats with `format!`; the contract claims what std documents of
/// `Display`: the literal text, each integer in decimal (a leading `-`
/// when negative) and each string as it is.
#[verifier::external_body]
fn share_text(sum: i64) -> (s: String)
    ensures
        s@ == spec_share_text(sum as int),
{
    format!("GenerationConfig: land-use shares sum to {sum}, not 100")
}

/// The text [`leaf_text`] produces.
pub open spec fn spec_leaf_text(max: int, min: int) -> Seq<char> {
    "GenerationConfig: land_use.max_leaf_cells ("@ + decimal(max as int) + ") must be at least twice land_use.min_leaf_cells ("@ + decimal(min as int) + ") -- otherwise an over-sized axis could be too small to legally split"@
}

/// The text of a refusal.
///
/// Formats with `format!`; the contract claims what std documents of
/// `Display`: the literal text, each integer in decimal (a leading `-`
/// when negative) and each string as it is.
#[verifier::external_body]
fn leaf_text(max: i32, min: i32) -> (s: String)
    ensures
        s@ == spec_leaf_text(max as int, min as int),
{
    format!("GenerationConfig: land_use.max_leaf_cells ({max}) must be at least twice land_use.min_leaf_cells ({min}) -- otherwise an over-sized axis could be too small to legally split")
}

/// The text [`pair_text`] produces.
pub open spec fn spec_pair_text(name_lo: Seq<char>, lo: int, name_hi: Seq<char>, hi: int) -> Seq<char> {
    "GenerationConfig: "@ + name_lo + " ("@ + decimal(lo as int) + ") is greater than "@ + name_hi + " ("@ + decimal(hi as int) + ")"@
}

/// The text of a refusal.
///
/// Formats with `format!`; the contract claims what std documents of
/// `Display`: the literal text, each integer in decimal (a leading `-`
/// when negative) and each string as it is.
#[verifier::external_body]
fn pair_text(name_lo: &str, lo: i64, name_hi: &str, hi: i64) -> (s: String)
    ensures
        s@ == spec_pair_text(name_lo@, lo as int, name_hi@, hi as int),
{
    format!("GenerationConfig: {name_lo} ({lo}) is greater than {name_hi} ({hi})")
}

/// The text [`detour_text`] produces.
pub open spec fn spec_detour_text(excess: int, guard: int) -> Seq<char> {
    "GenerationConfig: max_detour_excess_cells ("@ + decimal(excess as int) + ") is greater than the loosening guard 4*block_size_max_cells + 2*arterial_width_cells ("@ + decimal(guard as int) + ") -- not a worst-case claim, just the loosest additive ceiling this codebase accepts"@
}

/// The text of a refusal.
///
/// Formats with `format!`; the contract claims what std documents of
/// `Display`: the literal text, each integer in decimal (a leading `-`
/// when negative) and each string as it is.
#[verifier::external_body]
fn detour_text(excess: i32, guard: i64) -> (s: String)
    ensures
        s@ == spec_detour_text(excess as int, guard as int),
{
    format!("GenerationConfig: max_detour_excess_cells ({excess}) is greater than the loosening guard 4*block_size_max_cells + 2*arterial_width_cells ({guard}) -- not a worst-case claim, just the loosest additive ceiling this codebase accepts")
}

/// The text [`p99_text`] produces.
pub open spec fn spec_p99_text(p99: int, max: int) -> Seq<char> {
    "GenerationConfig: p99_detour_percent ("@ + decimal(p99 as int) + ") is greater than max_detour_percent ("@ + decimal(max as int) + ") -- the typical case cannot be worse than the tail ceiling"@
}

/// The text of a refusal.
///
/// Formats with `format!`; the contract claims what std documents of
/// `Display`: the literal text, each integer in decimal (a leading `-`
/// when negative) and each string as it is.
#[verifier::external_body]
fn p99_text(p99: i32, max: i32) -> (s: String)
    ensures
        s@ == spec_p99_text(p99 as int, max as int),
{
    format!("GenerationConfig: p99_detour_percent ({p99}) is greater than max_detour_percent ({max}) -- the typical case cannot be worse than the tail ceiling")
}

/// The text [`peripheral_text`] produces.
pub open spec fn spec_peripheral_text(floor: int, pooled: int) -> Seq<char> {
    "GenerationConfig: peripheral_low_band_floor_percent ("@ + decimal(floor as int) + ") is greater than peripheral_pooled_min_ratio_percent ("@ + decimal(pooled as int) + ") -- the per-city anti-inversion floor cannot ask for more than the pooled, density-blind-failing guard does"@
}

/// The text of a refusal.
///
/// Formats with `format!`; the contract claims what std documents of
/// `Display`: the literal text, each integer in decimal (a leading `-`
/// when negative) and each string as it is.
#[verifier::external_body]
fn peripheral_text(floor: i32, pooled: i32) -> (s: String)
    ensures
        s@ == spec_peripheral_text(floor as int, pooled as int),
{
    format!("GenerationConfig: peripheral_low_band_floor_percent ({floor}) is greater than peripheral_pooled_min_ratio_percent ({pooled}) -- the per-city anti-inversion floor cannot ask for more than the pooled, density-blind-failing guard does")
}

/// The text [`side_gap_text`] produces.
pub open spec fn spec_side_gap_text(gap: int) -> Seq<char> {
    "GenerationConfig: generation.envelopes.side_gap_periphery_cells ("@ + decimal(gap as int) + ") must be even -- half is inset from each of two neighbouring envelopes"@
}

/// The text of a refusal.
///
/// Formats with `format!`; the contract claims what std documents of
/// `Display`: the literal text, each integer in decimal (a leading `-`
/// when negative) and each string as it is.
#[verifier::external_body]
fn side_gap_text(gap: i32) -> (s: String)
    ensures
        s@ == spec_side_gap_text(gap as int),
{
    format!("GenerationConfig: generation.envelopes.side_gap_periphery_cells ({gap}) must be even -- half is inset from each of two neighbouring envelopes")
}

/// The text [`width_min_max_text`] produces.
pub open spec fn spec_width_min_max_text(key: Seq<char>, min: int, max: int) -> Seq<char> {
    "GenerationConfig: generation.plots."@ + key + "_width_min_cells ("@ + decimal(min as int) + ") is greater than "@ + key + "_width_max_cells ("@ + decimal(max as int) + ")"@
}

/// The text of a refusal.
///
/// Formats with `format!`; the contract claims what std documents of
/// `Display`: the literal text, each integer in decimal (a leading `-`
/// when negative) and each string as it is.
#[verifier::external_body]
fn width_min_max_text(key: &str, min: i32, max: i32) -> (s: String)
    ensures
        s@ == spec_width_min_max_text(key@, min as int, max as int),
{
    format!("GenerationConfig: generation.plots.{key}_width_min_cells ({min}) is greater than {key}_width_max_cells ({max})")
}

/// The text [`plot_min_text`] produces.
pub open spec fn spec_plot_min_text(key: Seq<char>, w: int, min: int) -> Seq<char> {
    "GenerationConfig: "@ + key + " envelope minimum footprint width ("@ + decimal(w as int) + ") is larger than the "@ + key + " plot minimum ("@ + decimal(min as int) + ") can ever hold"@
}

/// The text of a refusal.
///
/// Formats with `format!`; the contract claims what std documents of
/// `Display`: the literal text, each integer in decimal (a leading `-`
/// when negative) and each string as it is.
#[verifier::external_body]
fn plot_min_text(key: &str, w: i64, min: i32) -> (s: String)
    ensures
        s@ == spec_plot_min_text(key@, w as int, min as int),
{
    format!("GenerationConfig: {key} envelope minimum footprint width ({w}) is larger than the {key} plot minimum ({min}) can ever hold")
}

/// The text [`row_depth_text`] produces.
pub open spec fn spec_row_depth_text(key: Seq<char>, d: int, row: int) -> Seq<char> {
    "GenerationConfig: "@ + key + " envelope minimum footprint depth ("@ + decimal(d as int) + ") is larger than the "@ + key + " plot row depth ("@ + decimal(row as int) + ") can ever hold"@
}

/// The text of a refusal.
///
/// Formats with `format!`; the contract claims what std documents of
/// `Display`: the literal text, each integer in decimal (a leading `-`
/// when negative) and each string as it is.
#[verifier::external_body]
fn row_depth_text(key: &str, d: i64, row: i32) -> (s: String)
    ensures
        s@ == spec_row_depth_text(key@, d as int, row as int),
{
    format!("GenerationConfig: {key} envelope minimum footprint depth ({d}) is larger than the {key} plot row depth ({row}) can ever hold")
}

/// The text [`env_max_w_text`] produces.
pub open spec fn spec_env_max_w_text(key: Seq<char>, w: int, max: int) -> Seq<char> {
    "GenerationConfig: "@ + key + " envelope minimum footprint width ("@ + decimal(w as int) + ") is greater than envelopes.max_width_cells ("@ + decimal(max as int) + ")"@
}

/// The text of a refusal.
///
/// Formats with `format!`; the contract claims what std documents of
/// `Display`: the literal text, each integer in decimal (a leading `-`
/// when negative) and each string as it is.
#[verifier::external_body]
fn env_max_w_text(key: &str, w: i64, max: i32) -> (s: String)
    ensures
        s@ == spec_env_max_w_text(key@, w as int, max as int),
{
    format!("GenerationConfig: {key} envelope minimum footprint width ({w}) is greater than envelopes.max_width_cells ({max})")
}

/// The text [`env_max_d_text`] produces.
pub open spec fn spec_env_max_d_text(key: Seq<char>, d: int, max: int) -> Seq<char> {
    "GenerationConfig: "@ + key + " envelope minimum footprint depth ("@ + decimal(d as int) + ") is greater than envelopes.max_depth_cells ("@ + decimal(max as int) + ")"@
}

/// The text of a refusal.
///
/// Formats with `format!`; the contract claims what std documents of
/// `Display`: the literal text, each integer in decimal (a leading `-`
/// when negative) and each string as it is.
#[verifier::external_body]
fn env_max_d_text(key: &str, d: i64, max: i32) -> (s: String)
    ensures
        s@ == spec_env_max_d_text(key@, d as int, max as int),
{
    format!("GenerationConfig: {key} envelope minimum footprint depth ({d}) is greater than envelopes.max_depth_cells ({max})")
}

/// The text [`gap_w_text`] produces.
pub open spec fn spec_gap_w_text(key: Seq<char>, w: int, gap: int, min: int) -> Seq<char> {
    "GenerationConfig: "@ + key + " envelope minimum footprint width ("@ + decimal(w as int) + ") plus envelopes.side_gap_periphery_cells ("@ + decimal(gap as int) + ") is greater than plots."@ + key + "_width_min_cells ("@ + decimal(min as int) + ") -- every periphery plot at the class minimum would be rejected"@
}

/// The text of a refusal.
///
/// Formats with `format!`; the contract claims what std documents of
/// `Display`: the literal text, each integer in decimal (a leading `-`
/// when negative) and each string as it is.
#[verifier::external_body]
fn gap_w_text(key: &str, w: i64, gap: i32, min: i32) -> (s: String)
    ensures
        s@ == spec_gap_w_text(key@, w as int, gap as int, min as int),
{
    format!("GenerationConfig: {key} envelope minimum footprint width ({w}) plus envelopes.side_gap_periphery_cells ({gap}) is greater than plots.{key}_width_min_cells ({min}) -- every periphery plot at the class minimum would be rejected")
}

/// The text [`setback_d_text`] produces.
pub open spec fn spec_setback_d_text(key: Seq<char>, d: int, setback: int, row: int) -> Seq<char> {
    "GenerationConfig: "@ + key + " envelope minimum footprint depth ("@ + decimal(d as int) + ") plus plots.setback_periphery_cells ("@ + decimal(setback as int) + ") is greater than plots."@ + key + "_row_depth_cells ("@ + decimal(row as int) + ") -- every periphery plot at the class minimum would be rejected"@
}

/// The text of a refusal.
///
/// Formats with `format!`; the contract claims what std documents of
/// `Display`: the literal text, each integer in decimal (a leading `-`
/// when negative) and each string as it is.
#[verifier::external_body]
fn setback_d_text(key: &str, d: i64, setback: i32, row: i32) -> (s: String)
    ensures
        s@ == spec_setback_d_text(key@, d as int, setback as int, row as int),
{
    format!("GenerationConfig: {key} envelope minimum footprint depth ({d}) plus plots.setback_periphery_cells ({setback}) is greater than plots.{key}_row_depth_cells ({row}) -- every periphery plot at the class minimum would be rejected")
}

/// The text [`width_max_text`] produces.
pub open spec fn spec_width_max_text(key: Seq<char>, w: int, max: int) -> Seq<char> {
    "GenerationConfig: plots."@ + key + "_width_max_cells ("@ + decimal(w as int) + ") is greater than envelopes.max_width_cells ("@ + decimal(max as int) + ")"@
}

/// The text of a refusal.
///
/// Formats with `format!`; the contract claims what std documents of
/// `Display`: the literal text, each integer in decimal (a leading `-`
/// when negative) and each string as it is.
#[verifier::external_body]
fn width_max_text(key: &str, w: i32, max: i32) -> (s: String)
    ensures
        s@ == spec_width_max_text(key@, w as int, max as int),
{
    format!("GenerationConfig: plots.{key}_width_max_cells ({w}) is greater than envelopes.max_width_cells ({max})")
}

/// The text [`mean_text`] produces.
pub open spec fn spec_mean_text(name: Seq<char>, mean: int, lo: int, hi: int) -> Seq<char> {
    "GenerationConfig: envelopes."@ + name + " ("@ + decimal(mean as int) + ") is outside ["@ + decimal(lo as int) + ", "@ + decimal(hi as int) + "]"@
}

/// The text of a refusal.
///
/// Formats with `format!`; the contract claims what std documents of
/// `Display`: the literal text, each integer in decimal (a leading `-`
/// when negative) and each string as it is.
#[verifier::external_body]
fn mean_text(name: &str, mean: i32, lo: i64, hi: i32) -> (s: String)
    ensures
        s@ == spec_mean_text(name@, mean as int, lo as int, hi as int),
{
    format!("GenerationConfig: envelopes.{name} ({mean}) is outside [{lo}, {hi}]")
}

/// A land use's own balance-key naming segment, by index.
pub open spec fn use_key(i: int) -> Seq<char> {
    if i == 0 {
        "residential"@
    } else if i == 1 {
        "commercial"@
    } else if i == 2 {
        "industrial"@
    } else {
        "institutional"@
    }
}

/// The refusal text of land use `i`'s first failing check.
pub open spec fn use_error_text(c: GenerationConfig, i: int) -> Seq<char> {
    let key = use_key(i);
    let w = min_footprint_w(c, i);
    let d = min_footprint_d(c, i);
    let wmin = c.plot_width_min_cells[i] as int;
    let wmax = c.plot_width_max_cells[i] as int;
    let row = c.plot_row_depth_cells[i] as int;
    if !(wmin <= wmax) {
        spec_width_min_max_text(key, wmin, wmax)
    } else if !(w <= wmin) {
        spec_plot_min_text(key, w, wmin)
    } else if !(d <= row) {
        spec_row_depth_text(key, d, row)
    } else if !(w <= c.envelope_max_width_cells) {
        spec_env_max_w_text(key, w, c.envelope_max_width_cells as int)
    } else if !(d <= c.envelope_max_depth_cells) {
        spec_env_max_d_text(key, d, c.envelope_max_depth_cells as int)
    } else if !(w + c.envelope_side_gap_periphery_cells <= wmin) {
        spec_gap_w_text(key, w, c.envelope_side_gap_periphery_cells as int, wmin)
    } else if !(d + c.plot_setback_periphery_cells <= row) {
        spec_setback_d_text(key, d, c.plot_setback_periphery_cells as int, row)
    } else {
        spec_width_max_text(key, wmax, c.envelope_max_width_cells as int)
    }
}

/// The refusal text of the first land use from `i` on that fails.
pub open spec fn first_use_error(c: GenerationConfig, i: int) -> Seq<char>
    decreases 4 - i,
{
    if i >= 4 {
        Seq::empty()
    } else if !use_ok(c, i) {
        use_error_text(c, i)
    } else {
        first_use_error(c, i + 1)
    }
}

proof fn lemma_first_use_error(c: GenerationConfig, j: int, i: int)
    requires
        0 <= j <= i < 4,
        forall|k: int| j <= k < i ==> #[trigger] use_ok(c, k),
        !use_ok(c, i),
    ensures
        first_use_error(c, j) == use_error_text(c, i),
    decreases i - j,
{
    if j < i {
        lemma_first_use_error(c, j + 1, i);
    }
}

/// Every cross-key check before the per-land-use ones passes.
pub open spec fn config_prefix_ok(c: GenerationConfig) -> bool {
    &&& c.coarse_cell_size_cells > 0 && c.site_extent_cells % c.coarse_cell_size_cells == 0
    &&& c.arterial_width_cells % 2 == 0
    &&& c.street_width_cells % 2 == 0
    &&& c.lane_width_cells % 2 == 0
    &&& c.share_residential_pct + c.share_commercial_pct + c.share_industrial_pct + c.share_institutional_pct == 100
    &&& c.land_use_max_leaf_cells >= 2 * c.land_use_min_leaf_cells
    &&& c.density_min <= c.density_max
    &&& c.density_peak_offset_min_pct <= c.density_peak_offset_max_pct
    &&& c.block_size_min_cells <= c.block_size_max_cells
    &&& c.max_block_depth_min_cells <= c.max_block_depth_max_cells
    &&& c.max_detour_excess_cells <= 4 * c.block_size_max_cells + 2 * c.arterial_width_cells
    &&& c.p99_detour_percent <= c.max_detour_percent
    &&& c.peripheral_low_band_floor_percent <= c.peripheral_pooled_min_ratio_percent
    &&& c.arterial_count_ns_min <= c.arterial_count_ns_max
    &&& c.arterial_count_ew_min <= c.arterial_count_ew_max
    &&& c.envelope_side_gap_periphery_cells % 2 == 0
}

/// The text [`GenerationConfig::from_balance`] refuses a config with: that
/// of the first cross-key check, in the order the checks are made, that
/// fails.
pub open spec fn config_error_text(c: GenerationConfig) -> Seq<char> {
    let guard = 4 * c.block_size_max_cells + 2 * c.arterial_width_cells;
    let min_w = min4(min_footprint_w(c, 0), min_footprint_w(c, 1), min_footprint_w(c, 2), min_footprint_w(c, 3));
    let min_d = min4(min_footprint_d(c, 0), min_footprint_d(c, 1), min_footprint_d(c, 2), min_footprint_d(c, 3));
    if !(c.coarse_cell_size_cells > 0 && c.site_extent_cells % c.coarse_cell_size_cells == 0) {
        spec_multiple_text(c.site_extent_cells as int, c.coarse_cell_size_cells as int)
    } else if c.arterial_width_cells % 2 != 0 {
        spec_even_text("arterial_width_cells"@, c.arterial_width_cells as int)
    } else if c.street_width_cells % 2 != 0 {
        spec_even_text("street_width_cells"@, c.street_width_cells as int)
    } else if c.lane_width_cells % 2 != 0 {
        spec_even_text("lane_width_cells"@, c.lane_width_cells as int)
    } else if c.share_residential_pct + c.share_commercial_pct + c.share_industrial_pct + c.share_institutional_pct != 100 {
        spec_share_text(c.share_residential_pct + c.share_commercial_pct + c.share_industrial_pct + c.share_institutional_pct)
    } else if !(c.land_use_max_leaf_cells >= 2 * c.land_use_min_leaf_cells) {
        spec_leaf_text(c.land_use_max_leaf_cells as int, c.land_use_min_leaf_cells as int)
    } else if !(c.density_min <= c.density_max) {
        spec_pair_text("density_min"@, c.density_min as int, "density_max"@, c.density_max as int)
    } else if !(c.density_peak_offset_min_pct <= c.density_peak_offset_max_pct) {
        spec_pair_text(
            "density_peak_offset_min_pct"@,
            c.density_peak_offset_min_pct as int,
            "density_peak_offset_max_pct"@,
            c.density_peak_offset_max_pct as int,
        )
    } else if !(c.block_size_min_cells <= c.block_size_max_cells) {
        spec_pair_text("block_size_min_cells"@, c.block_size_min_cells as int, "block_size_max_cells"@, c.block_size_max_cells as int)
    } else if !(c.max_block_depth_min_cells <= c.max_block_depth_max_cells) {
        spec_pair_text(
            "max_block_depth_min_cells"@,
            c.max_block_depth_min_cells as int,
            "max_block_depth_max_cells"@,
            c.max_block_depth_max_cells as int,
        )
    } else if !(c.max_detour_excess_cells <= guard) {
        spec_detour_text(c.max_detour_excess_cells as int, guard)
    } else if !(c.p99_detour_percent <= c.max_detour_percent) {
        spec_p99_text(c.p99_detour_percent as int, c.max_detour_percent as int)
    } else if !(c.peripheral_low_band_floor_percent <= c.peripheral_pooled_min_ratio_percent) {
        spec_peripheral_text(c.peripheral_low_band_floor_percent as int, c.peripheral_pooled_min_ratio_percent as int)
    } else if !(c.arterial_count_ns_min <= c.arterial_count_ns_max) {
        spec_pair_text("arterial_count_ns_min"@, c.arterial_count_ns_min as int, "arterial_count_ns_max"@, c.arterial_count_ns_max as int)
    } else if !(c.arterial_count_ew_min <= c.arterial_count_ew_max) {
        spec_pair_text("arterial_count_ew_min"@, c.arterial_count_ew_min as int, "arterial_count_ew_max"@, c.arterial_count_ew_max as int)
    } else if c.envelope_side_gap_periphery_cells % 2 != 0 {
        spec_side_gap_text(c.envelope_side_gap_periphery_cells as int)
    } else if !(forall|i: int| 0 <= i < 4 ==> #[trigger] use_ok(c, i)) {
        first_use_error(c, 0)
    } else if !(min_w <= c.envelope_mean_width_cells <= c.envelope_max_width_cells) {
        spec_mean_text("mean_width_cells"@, c.envelope_mean_width_cells as int, min_w, c.envelope_max_width_cells as int)
    } else {
        spec_mean_text("mean_depth_cells"@, c.envelope_mean_depth_cells as int, min_d, c.envelope_max_depth_cells as int)
    }
}

/// A land use's own balance-key naming segment.
fn land_use_key(i: usize) -> (k: &'static str)
    ensures
        k@ == use_key(i as int),
{
    if i == 0 {
        "residential"
    } else if i == 1 {
        "commercial"
    } else if i == 2 {
        "industrial"
    } else {
        "institutional"
    }
}

fn even_i32(w: i32) -> (b: bool)
    ensures
        b == (w % 2 == 0),
{
    match (w as i64).checked_rem_euclid(2) {
        Some(r) => r == 0,
        None => false,
    }
}

fn min_footprints(c: &GenerationConfig, i: usize) -> (r: (i64, i64))
    requires
        i < 4,
    ensures
        r.0 == min_footprint_w(*c, i as int),
        r.1 == min_footprint_d(*c, i as int),
{
    (
        c.envelope_min_interior_width_cells[i] as i64 + 2 * c.envelope_wall_thickness_cells as i64,
        c.envelope_min_interior_depth_cells[i] as i64 + 2 * c.envelope_wall_thickness_cells as i64,
    )
}

/// The per-land-use checks for index `i`, in order; the first that fails
/// names itself.
fn check_use(c: &GenerationConfig, i: usize) -> (r: Result<(), String>)
    requires
        i < 4,
    ensures
        r is Ok <==> use_ok(*c, i as int),
        r matches Err(m) ==> m@ == use_error_text(*c, i as int),
{
    let key = land_use_key(i);
    let (w, d) = min_footprints(c, i);
    if c.plot_width_min_cells[i] > c.plot_width_max_cells[i] {
        return Err(width_min_max_text(key, c.plot_width_min_cells[i], c.plot_width_max_cells[i]));
    }
    if w > c.plot_width_min_cells[i] as i64 {
        return Err(plot_min_text(key, w, c.plot_width_min_cells[i]));
    }
    if d > c.plot_row_depth_cells[i] as i64 {
        return Err(row_depth_text(key, d, c.plot_row_depth_cells[i]));
    }
    if w > c.envelope_max_width_cells as i64 {
        return Err(env_max_w_text(key, w, c.envelope_max_width_cells));
    }
    if d > c.envelope_max_depth_cells as i64 {
        return Err(env_max_d_text(key, d, c.envelope_max_depth_cells));
    }
    if w + c.envelope_side_gap_periphery_cells as i64 > c.plot_width_min_cells[i] as i64 {
        return Err(gap_w_text(key, w, c.envelope_side_gap_periphery_cells, c.plot_width_min_cells[i]));
    }
    if d + c.plot_setback_periphery_cells as i64 > c.plot_row_depth_cells[i] as i64 {
        return Err(setback_d_text(key, d, c.plot_setback_periphery_cells, c.plot_row_depth_cells[i]));
    }
    if c.plot_width_max_cells[i] > c.envelope_max_width_cells {
        return Err(width_max_text(key, c.plot_width_max_cells[i], c.envelope_max_width_cells));
    }
    Ok(())
}

/// The cross-key checks, in order; the first that fails names itself.
fn check_config(cfg: &GenerationConfig) -> (r: Result<(), String>)
    ensures
        r is Ok <==> config_ok(*cfg),
        r matches Err(m) ==> m@ == config_error_text(*cfg),
{
    let site_rem = if cfg.coarse_cell_size_cells > 0 {
        match (cfg.site_extent_cells as i64).checked_rem_euclid(cfg.coarse_cell_size_cells as i64) {
            Some(r) => r,
            None => 1,
        }
    } else {
        1
    };
    if cfg.coarse_cell_size_cells <= 0 || site_rem != 0 {
        return Err(multiple_text(cfg.site_extent_cells, cfg.coarse_cell_size_cells));
    }
    if !even_i32(cfg.arterial_width_cells) {
        return Err(even_text("arterial_width_cells", cfg.arterial_width_cells));
    }
    if !even_i32(cfg.street_width_cells) {
        return Err(even_text("street_width_cells", cfg.street_width_cells));
    }
    if !even_i32(cfg.lane_width_cells) {
        return Err(even_text("lane_width_cells", cfg.lane_width_cells));
    }
    let share_sum = cfg.share_residential_pct as i64 + cfg.share_commercial_pct as i64 + cfg.share_industrial_pct as i64
        + cfg.share_institutional_pct as i64;
    if share_sum != 100 {
        return Err(share_text(share_sum));
    }
    if (cfg.land_use_max_leaf_cells as i64) < 2 * cfg.land_use_min_leaf_cells as i64 {
        return Err(leaf_text(cfg.land_use_max_leaf_cells, cfg.land_use_min_leaf_cells));
    }
    if cfg.density_min > cfg.density_max {
        return Err(pair_text("density_min", cfg.density_min as i64, "density_max", cfg.density_max as i64));
    }
    if cfg.density_peak_offset_min_pct > cfg.density_peak_offset_max_pct {
        return Err(pair_text(
            "density_peak_offset_min_pct",
            cfg.density_peak_offset_min_pct as i64,
            "density_peak_offset_max_pct",
            cfg.density_peak_offset_max_pct as i64,
        ));
    }
    if cfg.block_size_min_cells > cfg.block_size_max_cells {
        return Err(pair_text(
            "block_size_min_cells",
            cfg.block_size_min_cells as i64,
            "block_size_max_cells",
            cfg.block_size_max_cells as i64,
        ));
    }
    if cfg.max_block_depth_min_cells > cfg.max_block_depth_max_cells {
        return Err(pair_text(
            "max_block_depth_min_cells",
            cfg.max_block_depth_min_cells as i64,
            "max_block_depth_max_cells",
            cfg.max_block_depth_max_cells as i64,
        ));
    }
    let guard = 4 * cfg.block_size_max_cells as i64 + 2 * cfg.arterial_width_cells as i64;
    if cfg.max_detour_excess_cells as i64 > guard {
        return Err(detour_text(cfg.max_detour_excess_cells, guard));
    }
    if cfg.p99_detour_percent > cfg.max_detour_percent {
        return Err(p99_text(cfg.p99_detour_percent, cfg.max_detour_percent));
    }
    if cfg.peripheral_low_band_floor_percent > cfg.peripheral_pooled_min_ratio_percent {
        return Err(peripheral_text(cfg.peripheral_low_band_floor_percent, cfg.peripheral_pooled_min_ratio_percent));
    }
    if cfg.arterial_count_ns_min > cfg.arterial_count_ns_max {
        return Err(pair_text(
            "arterial_count_ns_min",
            cfg.arterial_count_ns_min as i64,
            "arterial_count_ns_max",
            cfg.arterial_count_ns_max as i64,
        ));
    }
    if cfg.arterial_count_ew_min > cfg.arterial_count_ew_max {
        return Err(pair_text(
            "arterial_count_ew_min",
            cfg.arterial_count_ew_min as i64,
            "arterial_count_ew_max",
            cfg.arterial_count_ew_max as i64,
        ));
    }
    if !even_i32(cfg.envelope_side_gap_periphery_cells) {
        return Err(side_gap_text(cfg.envelope_side_gap_periphery_cells));
    }
    assert(config_prefix_ok(*cfg));
    let mut i: usize = 0;
    while i < 4
        invariant
            i <= 4,
            config_prefix_ok(*cfg),
            forall|k: int| 0 <= k < i ==> #[trigger] use_ok(*cfg, k),
        decreases 4 - i,
    {
        match check_use(cfg, i) {
            Ok(()) => {},
            Err(e) => {
                proof {
                    lemma_first_use_error(*cfg, 0, i as int);
                }
                return Err(e);
            },
        }
        i += 1;
    }
    let (w0, d0) = min_footprints(cfg, 0);
    let (w1, d1) = min_footprints(cfg, 1);
    let (w2, d2) = min_footprints(cfg, 2);
    let (w3, d3) = min_footprints(cfg, 3);
    let min_w = if w0 <= w1 { w0 } else { w1 };
    let min_w2 = if w2 <= w3 { w2 } else { w3 };
    let min_w = if min_w <= min_w2 { min_w } else { min_w2 };
    let min_d = if d0 <= d1 { d0 } else { d1 };
    let min_d2 = if d2 <= d3 { d2 } else { d3 };
    let min_d = if min_d <= min_d2 { min_d } else { min_d2 };
    if (cfg.envelope_mean_width_cells as i64) < min_w || cfg.envelope_mean_width_cells > cfg.envelope_max_width_cells {
        return Err(mean_text("mean_width_cells", cfg.envelope_mean_width_cells, min_w, cfg.envelope_max_width_cells));
    }
    if (cfg.envelope_mean_depth_cells as i64) < min_d || cfg.envelope_mean_depth_cells > cfg.envelope_max_depth_cells {
        return Err(mean_text("mean_depth_cells", cfg.envelope_mean_depth_cells, min_d, cfg.envelope_max_depth_cells));
    }
    Ok(())
}

/// The deepest core a block at `density` keeps before it becomes an open
/// plot: interpolated from the periphery ceiling at `density_min` down (or
/// up) to the core ceiling at `density_max`, the density clamped into that
/// range first and the step rounded toward zero.
pub open spec fn spec_max_core_depth(c: GenerationConfig, density: int) -> int {
    let span_density = if c.density_max - c.density_min >= 1 { c.density_max - c.density_min } else { 1 };
    let span = c.plot_max_core_depth_periphery_cells - c.plot_max_core_depth_cells;
    let clamped = if density < c.density_min { c.density_min as int } else if density > c.density_max { c.density_max as int } else { density };
    c.plot_max_core_depth_periphery_cells - trunc_div(span * (clamped - c.density_min), span_density)
}

/// [`GenerationConfig::max_core_depth_cells`] can be computed: the density
/// range is not inverted and every step stays within `i32`.
pub open spec fn max_core_depth_fits(c: GenerationConfig, density: int) -> bool {
    let span = c.plot_max_core_depth_periphery_cells - c.plot_max_core_depth_cells;
    let clamped = if density < c.density_min { c.density_min as int } else if density > c.density_max { c.density_max as int } else { density };
    &&& c.density_min <= c.density_max
    &&& fits_i32(c.density_max - c.density_min)
    &&& fits_i32(span)
    &&& fits_i32(span * (clamped - c.density_min))
    &&& fits_i32(spec_max_core_depth(c, density))
}

impl GenerationConfig {
    /// Reads every key the passes need from `balance` and checks the
    /// cross-key constraints no single key's own range can express; `Err`
    /// names the first that fails. `balance` must carry every key.
    pub fn from_balance(balance: &[BalanceSeed]) -> (r: Result<Self, GenerationError>)
        requires
            has_generation_keys(balance@),
        ensures
            match r {
                Ok(cfg) => cfg == read_config(balance@) && config_ok(cfg),
                Err(e) => !config_ok(read_config(balance@)) && (e matches GenerationError::InvalidConfig(m) && m@
                    == config_error_text(read_config(balance@))),
            },
    {
        let cfg = GenerationConfig {
            site_extent_cells: value(balance, "generation.site_extent_cells") as i32,
            coarse_cell_size_cells: value(balance, "generation.land_use.coarse_cell_size_cells") as i32,
            land_use_min_leaf_cells: value(balance, "generation.land_use.min_leaf_cells") as i32,
            land_use_max_leaf_cells: value(balance, "generation.land_use.max_leaf_cells") as i32,
            land_use_split_jitter_pct: value(balance, "generation.land_use.split_jitter_pct") as i32,
            land_use_max_recursion_depth: value(balance, "generation.land_use.max_recursion_depth") as u32,
            density_min: value(balance, "generation.land_use.density_min") as i32,
            density_max: value(balance, "generation.land_use.density_max") as i32,
            density_peak_offset_min_pct: value(balance, "generation.land_use.density_peak_offset_min_pct") as i32,
            density_peak_offset_max_pct: value(balance, "generation.land_use.density_peak_offset_max_pct") as i32,
            share_residential_pct: value(balance, "generation.land_use.share_residential_pct") as i32,
            share_commercial_pct: value(balance, "generation.land_use.share_commercial_pct") as i32,
            share_industrial_pct: value(balance, "generation.land_use.share_industrial_pct") as i32,
            share_institutional_pct: value(balance, "generation.land_use.share_institutional_pct") as i32,
            arterial_count_ns_min: value(balance, "generation.streets.arterial_count_ns_min") as u32,
            arterial_count_ns_max: value(balance, "generation.streets.arterial_count_ns_max") as u32,
            arterial_count_ew_min: value(balance, "generation.streets.arterial_count_ew_min") as u32,
            arterial_count_ew_max: value(balance, "generation.streets.arterial_count_ew_max") as u32,
            arterial_width_cells: value(balance, "generation.streets.arterial_width_cells") as i32,
            street_width_cells: value(balance, "generation.streets.street_width_cells") as i32,
            lane_width_cells: value(balance, "generation.streets.lane_width_cells") as i32,
            arterial_jitter_pct: value(balance, "generation.streets.arterial_jitter_pct") as i32,
            block_size_min_cells: value(balance, "generation.streets.block_size_min_cells") as i32,
            block_size_max_cells: value(balance, "generation.streets.block_size_max_cells") as i32,
            min_block_depth_cells: value(balance, "generation.streets.min_block_depth_cells") as i32,
            max_block_depth_min_cells: value(balance, "generation.streets.max_block_depth_min_cells") as i32,
            max_block_depth_max_cells: value(balance, "generation.streets.max_block_depth_max_cells") as i32,
            split_jitter_pct: value(balance, "generation.streets.split_jitter_pct") as i32,
            max_recursion_depth: value(balance, "generation.streets.max_recursion_depth") as u32,
            max_lane_splits: value(balance, "generation.streets.max_lane_splits") as u32,
            max_street_splits_per_superblock: value(balance, "generation.streets.max_street_splits_per_superblock") as u32,
            junction_min_separation_cells: value(balance, "generation.streets.junction_min_separation_cells") as i32,
            detour_long_pair_cells: value(balance, "generation.streets.detour_long_pair_cells") as i32,
            max_detour_percent: value(balance, "generation.streets.max_detour_percent") as i32,
            max_detour_excess_cells: value(balance, "generation.streets.max_detour_excess_cells") as i32,
            p99_detour_percent: value(balance, "generation.streets.p99_detour_percent") as i32,
            min_distinct_block_sizes: value(balance, "generation.streets.min_distinct_block_sizes"),
            peripheral_low_band_floor_percent: value(balance, "generation.streets.peripheral_low_band_floor_percent") as i32,
            peripheral_pooled_min_ratio_percent: value(balance, "generation.streets.peripheral_pooled_min_ratio_percent") as i32,
            institutional_min_pockets: value(balance, "generation.land_use.institutional_min_pockets"),
            institutional_max_pocket_share_percent: value(balance, "generation.land_use.institutional_max_pocket_share_percent"),
            plot_frontage_min_cells: value(balance, "generation.plots.frontage_min_cells") as i32,
            plot_high_density_threshold: value(balance, "generation.plots.high_density_threshold") as i32,
            plot_setback_periphery_cells: value(balance, "generation.plots.setback_periphery_cells") as i32,
            plot_width_min_cells: [value(balance, "generation.plots.residential_width_min_cells") as i32, value(balance, "generation.plots.commercial_width_min_cells") as i32, value(balance, "generation.plots.industrial_width_min_cells") as i32, value(balance, "generation.plots.institutional_width_min_cells") as i32],
            plot_width_max_cells: [value(balance, "generation.plots.residential_width_max_cells") as i32, value(balance, "generation.plots.commercial_width_max_cells") as i32, value(balance, "generation.plots.industrial_width_max_cells") as i32, value(balance, "generation.plots.institutional_width_max_cells") as i32],
            plot_row_depth_cells: [value(balance, "generation.plots.residential_row_depth_cells") as i32, value(balance, "generation.plots.commercial_row_depth_cells") as i32, value(balance, "generation.plots.industrial_row_depth_cells") as i32, value(balance, "generation.plots.institutional_row_depth_cells") as i32],
            plot_max_core_depth_cells: value(balance, "generation.plots.max_core_depth_cells") as i32,
            plot_max_core_depth_periphery_cells: value(balance, "generation.plots.max_core_depth_periphery_cells") as i32,
            plot_open_min_side_cells: value(balance, "generation.plots.open_min_side_cells") as i32,
            plot_max_open_percent_by_count: value(balance, "generation.plots.max_open_percent_by_count"),
            plot_max_open_percent_by_area: value(balance, "generation.plots.max_open_percent_by_area"),
            plot_max_unplotted_percent: value(balance, "generation.plots.max_unplotted_percent"),
            envelope_wall_thickness_cells: value(balance, "generation.envelopes.wall_thickness_cells") as i32,
            envelope_min_interior_width_cells: [value(balance, "generation.envelopes.residential_min_interior_width_cells") as i32, value(balance, "generation.envelopes.commercial_min_interior_width_cells") as i32, value(balance, "generation.envelopes.industrial_min_interior_width_cells") as i32, value(balance, "generation.envelopes.institutional_min_interior_width_cells") as i32],
            envelope_min_interior_depth_cells: [value(balance, "generation.envelopes.residential_min_interior_depth_cells") as i32, value(balance, "generation.envelopes.commercial_min_interior_depth_cells") as i32, value(balance, "generation.envelopes.industrial_min_interior_depth_cells") as i32, value(balance, "generation.envelopes.institutional_min_interior_depth_cells") as i32],
            envelope_max_width_cells: value(balance, "generation.envelopes.max_width_cells") as i32,
            envelope_max_depth_cells: value(balance, "generation.envelopes.max_depth_cells") as i32,
            envelope_side_gap_periphery_cells: value(balance, "generation.envelopes.side_gap_periphery_cells") as i32,
            envelope_size_trim_max_cells: value(balance, "generation.envelopes.size_trim_max_cells") as i32,
            envelope_mean_width_cells: value(balance, "generation.envelopes.mean_width_cells") as i32,
            envelope_mean_width_tolerance_cells: value(balance, "generation.envelopes.mean_width_tolerance_cells") as i32,
            envelope_mean_depth_cells: value(balance, "generation.envelopes.mean_depth_cells") as i32,
            envelope_mean_depth_tolerance_cells: value(balance, "generation.envelopes.mean_depth_tolerance_cells") as i32,
            envelope_min_distinct_sizes: value(balance, "generation.envelopes.min_distinct_sizes"),
            envelope_target_count_per_million_cells: value(balance, "generation.envelopes.target_count_per_million_cells"),
            envelope_count_tolerance_percent: value(balance, "generation.envelopes.count_tolerance_percent"),
            envelope_mean_count_tolerance_percent: value(balance, "generation.envelopes.mean_count_tolerance_percent"),
            envelope_max_rejected_plot_percent: value(balance, "generation.envelopes.max_rejected_plot_percent"),
            workplace_target_count_per_million_cells: value(balance, "generation.building_types.target_workplaces_per_million_cells"),
            workplace_count_tolerance_percent: value(balance, "generation.building_types.workplace_count_tolerance_percent"),
            workplace_mean_count_tolerance_percent: value(balance, "generation.building_types.workplace_mean_count_tolerance_percent"),
            building_type_catchment_extent_cells: value(balance, "generation.building_types.catchment_extent_cells") as i32,
        };
        proof {
            assert(cfg == read_config(balance@));
        }
        match check_config(&cfg) {
            Ok(()) => Ok(cfg),
            Err(msg) => Err(GenerationError::InvalidConfig(msg)),
        }
    }

    /// One land use's envelope size band: the minimum footprint is the
    /// class's minimum usable interior plus two wall rings, the maximum the
    /// shared outer ceiling.
    pub fn envelope_limits(&self, use_: LandUse) -> (l: EnvelopeLimits)
        requires
            fits_i32(2 * self.envelope_wall_thickness_cells),
            fits_i32(min_footprint_w(*self, use_index(use_))),
            fits_i32(min_footprint_d(*self, use_index(use_))),
        ensures
            l.min_width_cells == min_footprint_w(*self, use_index(use_)),
            l.min_depth_cells == min_footprint_d(*self, use_index(use_)),
            l.max_width_cells == self.envelope_max_width_cells,
            l.max_depth_cells == self.envelope_max_depth_cells,
    {
        let i = land_use_index(use_);
        EnvelopeLimits {
            min_width_cells: self.envelope_min_interior_width_cells[i] + 2 * self.envelope_wall_thickness_cells,
            min_depth_cells: self.envelope_min_interior_depth_cells[i] + 2 * self.envelope_wall_thickness_cells,
            max_width_cells: self.envelope_max_width_cells,
            max_depth_cells: self.envelope_max_depth_cells,
        }
    }

    /// The scaled building-count target for a site of `site_cells` cells.
    pub fn building_count_target(&self, site_cells: i64) -> (t: i64)
        requires
            fits_i64(self.envelope_target_count_per_million_cells * site_cells),
        ensures
            t == trunc_div(self.envelope_target_count_per_million_cells * site_cells, 1_000_000),
    {
        (self.envelope_target_count_per_million_cells * site_cells) / 1_000_000
    }

    /// The `[min, max]` placed-building-count band around the target.
    pub fn building_count_band(&self, site_cells: i64) -> (b: (i64, i64))
        requires
            fits_i64(self.envelope_target_count_per_million_cells * site_cells),
            band_fits(
                trunc_div(self.envelope_target_count_per_million_cells * site_cells, 1_000_000),
                self.envelope_count_tolerance_percent as int,
            ),
        ensures
            b == spec_band(
                trunc_div(self.envelope_target_count_per_million_cells * site_cells, 1_000_000),
                self.envelope_count_tolerance_percent as int,
            ),
    {
        let target = self.building_count_target(site_cells);
        band(target, self.envelope_count_tolerance_percent)
    }

    /// The scaled workplace-count target for a site of `site_cells` cells.
    pub fn workplace_count_target(&self, site_cells: i64) -> (t: i64)
        requires
            fits_i64(self.workplace_target_count_per_million_cells * site_cells),
        ensures
            t == trunc_div(self.workplace_target_count_per_million_cells * site_cells, 1_000_000),
    {
        (self.workplace_target_count_per_million_cells * site_cells) / 1_000_000
    }

    /// The `[min, max]` workplace-count band around the target.
    pub fn workplace_count_band(&self, site_cells: i64) -> (b: (i64, i64))
        requires
            fits_i64(self.workplace_target_count_per_million_cells * site_cells),
            band_fits(
                trunc_div(self.workplace_target_count_per_million_cells * site_cells, 1_000_000),
                self.workplace_count_tolerance_percent as int,
            ),
        ensures
            b == spec_band(
                trunc_div(self.workplace_target_count_per_million_cells * site_cells, 1_000_000),
                self.workplace_count_tolerance_percent as int,
            ),
    {
        let target = self.workplace_count_target(site_cells);
        band(target, self.workplace_count_tolerance_percent)
    }

    /// The deepest core a block at `density` may keep before it becomes
    /// an open plot, interpolated between the periphery and core ceilings.
    pub fn max_core_depth_cells(&self, density: i32) -> (r: i32)
        requires
            max_core_depth_fits(*self, density as int),
        ensures
            r == spec_max_core_depth(*self, density as int),
    {
        let diff = self.density_max - self.density_min;
        let span_density = if diff >= 1 { diff } else { 1 };
        let span = self.plot_max_core_depth_periphery_cells - self.plot_max_core_depth_cells;
        let clamped = if density < self.density_min {
            self.density_min
        } else if density > self.density_max {
            self.density_max
        } else {
            density
        };
        let d = clamped - self.density_min;
        self.plot_max_core_depth_periphery_cells - (span * d) / span_density
    }

    /// The build-line setback at `density`: none at or above the high
    /// density threshold, the periphery setback below it.
    pub fn setback_cells(&self, density: i32) -> (s: i32)
        ensures
            s == if density >= self.plot_high_density_threshold { 0 } else { self.plot_setback_periphery_cells },
    {
        if density >= self.plot_high_density_threshold {
            0
        } else {
            self.plot_setback_periphery_cells
        }
    }

    /// The total gap between neighbouring envelopes at `density`.
    pub fn side_gap_cells(&self, density: i32) -> (s: i32)
        ensures
            s == if density >= self.plot_high_density_threshold { 0 } else { self.envelope_side_gap_periphery_cells },
    {
        if density >= self.plot_high_density_threshold {
            0
        } else {
            self.envelope_side_gap_periphery_cells
        }
    }

    /// The site this config describes: `[0, site_extent_cells)` square.
    pub fn site(&self) -> (r: SiteBounds)
        ensures
            r == (Rect { x0: 0, y0: 0, x1: self.site_extent_cells, y1: self.site_extent_cells }),
    {
        Rect { x0: 0, y0: 0, x1: self.site_extent_cells, y1: self.site_extent_cells }
    }
}

pub open spec fn fits_i32(v: int) -> bool {
    i32::MIN <= v <= i32::MAX
}

pub open spec fn fits_i64(v: int) -> bool {
    i64::MIN <= v <= i64::MAX
}

/// Rust's own integer division: rounds toward zero.
pub open spec fn trunc_div(a: int, b: int) -> int
    recommends
        b > 0,
{
    if a >= 0 {
        a / b
    } else {
        -((-a) / b)
    }
}

/// `target * (100 -+ tolerance) / 100`, each rounded toward zero.
pub open spec fn spec_band(target: int, tolerance: int) -> (i64, i64) {
    (trunc_div(target * (100 - tolerance), 100) as i64, trunc_div(target * (100 + tolerance), 100) as i64)
}

pub open spec fn band_fits(target: int, tolerance: int) -> bool {
    &&& fits_i64(100 - tolerance)
    &&& fits_i64(100 + tolerance)
    &&& fits_i64(target * (100 - tolerance))
    &&& fits_i64(target * (100 + tolerance))
}

fn band(target: i64, tolerance: i64) -> (b: (i64, i64))
    requires
        band_fits(target as int, tolerance as int),
    ensures
        b == spec_band(target as int, tolerance as int),
{
    let min = target * (100 - tolerance) / 100;
    let max = target * (100 + tolerance) / 100;
    (min, max)
}

} // verus!
