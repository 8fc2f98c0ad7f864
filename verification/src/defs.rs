//! The shapes of the content tables the library reads: balance seeds,
//! appearance parts, object definitions, tags and building types. Content
//! is always an input -- a caller hands these in, nothing here holds a
//! committed table.

use vstd::prelude::*;

verus! {

/// One balance key: its value and its legal range.
#[derive(Clone, Copy, Debug)]
pub struct BalanceSeed {
    pub key: &'static str,
    pub value: i64,
    pub min: i64,
    pub max: i64,
}

/// Which body family an appearance part belongs to.
#[derive(Clone, Copy, Debug, PartialEq, Eq, Structural)]
pub enum Family {
    Adult,
    Kid,
}

/// Which pool a part is drawn from: the civilian look, or a role-only
/// part reserved for a profession's uniform.
#[derive(Clone, Copy, Debug, PartialEq, Eq, Structural)]
pub enum Pool {
    Civilian,
    RoleOnly,
}

/// One appearance part (a body, eyes, an outfit, a hairstyle or an
/// accessory). `pool` and `rare` only matter for the kinds that read them.
#[derive(Clone, Copy, Debug)]
pub struct PartDef {
    pub id: u32,
    pub key: &'static str,
    pub family: Family,
    pub pool: Pool,
    pub rare: bool,
}

/// A profession's fixed uniform, naming parts by key.
#[derive(Clone, Copy, Debug)]
pub struct UniformDef {
    pub profession: &'static str,
    pub outfit: Option<&'static str>,
    pub accessory: Option<&'static str>,
}

/// A sprite's rectangle on its sheet.
#[derive(Clone, Copy, Debug)]
pub struct SpriteRect {
    pub sheet: &'static str,
    pub x: u32,
    pub y: u32,
    pub w: u32,
    pub h: u32,
}

/// A collider rectangle in sub-cells, relative to the footprint's own
/// north-west sub-cell.
#[derive(Clone, Copy, Debug)]
pub struct ColliderRect {
    pub x0: i32,
    pub y0: i32,
    pub x1: i32,
    pub y1: i32,
}

/// One placeable object definition.
#[derive(Clone, Copy, Debug)]
pub struct ObjectDef {
    pub id: u32,
    pub key: &'static str,
    pub name: &'static str,
    pub layer: u32,
    pub sprite: SpriteRect,
    pub width: u32,
    pub height: u32,
    pub collider: Option<ColliderRect>,
    pub interact_at: Option<(i32, i32)>,
    pub window: bool,
    pub tags: &'static [u32],
}

/// One tag's permanent id and key.
#[derive(Clone, Copy, Debug)]
pub struct TagDef {
    pub id: u32,
    pub key: &'static str,
}

/// Sub-cells per cell edge in collider coordinates: a one-cell-wide
/// doorway is this many sub-cells wide.
pub const COLLIDER_SUBCELLS_PER_CELL: i32 = 16;

/// Whether two strings hold the same characters.
///
/// Calls `<str as PartialEq>::eq`; the contract claims what std documents:
/// two string slices are equal exactly when their contents are.
#[verifier::external_body]
pub fn str_eq(a: &str, b: &str) -> (r: bool)
    ensures
        r == (a@ == b@),
{
    a == b
}


/// One building type: its fill weight (0 for a type only distribution
/// rows place), the land uses it may stand on (in land-use order), its
/// density band, the least interior it needs, whether it needs a corner,
/// which way it leans in density when a distribution row sites it, its
/// tags and the professions it employs.
#[derive(Clone, Copy, Debug)]
pub struct BuildingTypeDef {
    pub id: u32,
    pub weight: u32,
    pub land_uses: [bool; 4],
    pub density_min: i32,
    pub density_max: i32,
    pub min_interior_width_cells: u32,
    pub min_interior_depth_cells: u32,
    pub requires_corner: bool,
    pub density_affinity: i32,
    pub tags: &'static [u32],
    pub professions: &'static [&'static str],
}

} // verus!
