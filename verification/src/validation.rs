//! The validation harness: composes [`crate::rules::evaluate`] with the
//! walkability checks (`enclosed_regions`, `narrow_passages`) over the real
//! placed-object shape of a block, and reports every defect from every
//! check, sorted and deduplicated. A candidate stamped with another
//! content version is refused outright.

use vstd::prelude::*;
use crate::text::decimal;
use crate::defs::{BalanceSeed, ObjectDef};
use crate::rules::{AreaId, Cell, RuleDef, RuleSite, TagId, Violation, cell_lt, flagged};
use crate::rules::source::{RuleSet, first_key};
use crate::rules::testing::{Site, SiteBuilder};
use crate::world::collision::{AreaSpec, Rect};
use crate::world::walkability::{
    Finding, Placement, first_def, fits_i32, raster_colliders, regions_report, reachable, reachable_fit,
    spec_body_fits, raster_arith_ok, all_defs_found, rasterise, enclosed_regions, narrow_passages,
    player_body_subcells, lemma_report_bounds, MAX_SUBCELLS,
};
use crate::world::bits;
use crate::balance::{has_key, spec_value};
use crate::world::bits::any_covers;

verus! {

/// A window onto one floor: the sub-cell rect the walkability checks scan
/// and the seed sub-cell reachability is judged from.
#[derive(Debug, Clone, Copy, PartialEq, Eq, Structural)]
pub struct FloorWindow {
    pub floor: i8,
    pub bounds: Rect,
    pub seed_x: i32,
    pub seed_y: i32,
}

/// The real shape [`validate`] checks, with the content version it was
/// produced against.
#[derive(Debug, Clone, Copy)]
pub struct Candidate<'a> {
    pub defs_version: &'a str,
    pub placements: &'a [Placement],
    pub building_areas: &'a [AreaSpec],
    pub room_areas: &'a [AreaSpec],
    pub floors: &'a [FloorWindow],
}

/// The content a build validates against: its version stamp, its rule
/// table, its object definitions and its balance seeds.
#[derive(Debug, Clone, Copy)]
pub struct Content<'a> {
    pub defs_version: &'static str,
    pub rules: RuleSet<'a>,
    pub objects: &'a [ObjectDef],
    pub balance: &'a [BalanceSeed],
}

/// What [`validate`] refuses to do at all, as opposed to a [`Defect`].
#[derive(Debug, Clone, PartialEq, Eq)]
pub enum ValidationError {
    /// The candidate was produced against another content version.
    RuleSourceMismatch { expected: &'static str, actual: String },
    /// The block itself could not be read.
    Unreadable(String),
}

/// The text [`mismatch_text`] produces.
pub open spec fn spec_mismatch_text(expected: Seq<char>, actual: Seq<char>) -> Seq<char> {
    "validation: candidate defs_version '"@ + actual + "' does not match the committed '"@ + expected + "'"@
}

/// The text of a refusal.
///
/// Formats with `format!`; the contract claims what std documents of
/// `Display`: the literal text, each integer in decimal (a leading `-`
/// when negative) and each string as it is.
#[verifier::external_body]
fn mismatch_text(expected: &str, actual: &str) -> (s: String)
    ensures
        s@ == spec_mismatch_text(expected@, actual@),
{
    format!("validation: candidate defs_version '{actual}' does not match the committed '{expected}'")
}

/// The text [`unreadable_text`] produces.
pub open spec fn spec_unreadable_text(msg: Seq<char>) -> Seq<char> {
    "validation: "@ + msg
}

/// The text of a refusal.
///
/// Formats with `format!`; the contract claims what std documents of
/// `Display`: the literal text, each integer in decimal (a leading `-`
/// when negative) and each string as it is.
#[verifier::external_body]
fn unreadable_text(msg: &str) -> (s: String)
    ensures
        s@ == spec_unreadable_text(msg@),
{
    format!("validation: {msg}")
}

impl ValidationError {
    /// The error as text; it names both versions, or the unreadable
    /// block's own message.
    pub fn to_text(&self) -> (s: String)
        ensures
            s@ == match *self {
                ValidationError::RuleSourceMismatch { expected, actual } => spec_mismatch_text(expected@, actual@),
                ValidationError::Unreadable(msg) => spec_unreadable_text(msg@),
            },
    {
        match self {
            ValidationError::RuleSourceMismatch { expected, actual } => mismatch_text(expected, actual.as_str()),
            ValidationError::Unreadable(msg) => unreadable_text(msg.as_str()),
        }
    }
}

/// One thing a block is checked against: a rule row, or one of the two
/// walkability checks.
#[derive(Debug, Clone, Copy, PartialEq, Eq, PartialOrd, Ord, Structural)]
pub enum Check {
    Rule(u32),
    EnclosedRegion,
    NarrowPassage,
}

impl Check {
    /// The rule's own key, or a fixed `walkability.*` name.
    pub fn name<'a>(&self, rules: &RuleSet<'a>) -> (r: &'a str)
        requires
            *self matches Check::Rule(id) ==> first_key(rules.spec_rules(), id) is Some,
        ensures
            *self matches Check::Rule(id) ==> Some(r) == first_key(rules.spec_rules(), id),
            *self == Check::EnclosedRegion ==> r@ == "walkability.enclosed_region"@,
            *self == Check::NarrowPassage ==> r@ == "walkability.narrow_passage"@,
    {
        match self {
            Check::Rule(id) => match rules.key_of(*id) {
                Some(k) => k,
                None => "",
            },
            Check::EnclosedRegion => "walkability.enclosed_region",
            Check::NarrowPassage => "walkability.narrow_passage",
        }
    }
}

/// Where a [`Defect`] was found: a cell (plus the matched neighbour of an
/// adjacency `Forbid`) for a rule row, or a sub-cell rect on one floor for
/// a walkability finding.
#[derive(Debug, Clone, Copy, PartialEq, Eq, PartialOrd, Ord, Structural)]
pub enum Location {
    Cell { cell: Cell, other: Option<Cell> },
    SubcellRect { floor: i8, rect: Rect },
}

/// The text [`pair_text`] produces.
pub open spec fn spec_pair_text(x: int, y: int, f: int, ox: int, oy: int, of: int) -> Seq<char> {
    "("@ + decimal(x as int) + ", "@ + decimal(y as int) + ", "@ + decimal(f as int) + ") <-> ("@ + decimal(ox as int) + ", "@ + decimal(oy as int) + ", "@ + decimal(of as int) + ")"@
}

/// The text of a refusal.
///
/// Formats with `format!`; the contract claims what std documents of
/// `Display`: the literal text, each integer in decimal (a leading `-`
/// when negative) and each string as it is.
#[verifier::external_body]
fn pair_text(x: i32, y: i32, f: i8, ox: i32, oy: i32, of: i8) -> (s: String)
    ensures
        s@ == spec_pair_text(x as int, y as int, f as int, ox as int, oy as int, of as int),
{
    format!("({x}, {y}, {f}) <-> ({ox}, {oy}, {of})")
}

/// The text [`cell_text`] produces.
pub open spec fn spec_cell_text(x: int, y: int, f: int) -> Seq<char> {
    "("@ + decimal(x as int) + ", "@ + decimal(y as int) + ", "@ + decimal(f as int) + ")"@
}

/// The text of a refusal.
///
/// Formats with `format!`; the contract claims what std documents of
/// `Display`: the literal text, each integer in decimal (a leading `-`
/// when negative) and each string as it is.
#[verifier::external_body]
fn cell_text(x: i32, y: i32, f: i8) -> (s: String)
    ensures
        s@ == spec_cell_text(x as int, y as int, f as int),
{
    format!("({x}, {y}, {f})")
}

/// The text [`rect_text`] produces.
pub open spec fn spec_rect_text(floor: int, x0: int, y0: int, x1: int, y1: int) -> Seq<char> {
    "floor "@ + decimal(floor as int) + " sub-cells ("@ + decimal(x0 as int) + ", "@ + decimal(y0 as int) + ")-("@ + decimal(x1 as int) + ", "@ + decimal(y1 as int) + ")"@
}

/// The text of a refusal.
///
/// Formats with `format!`; the contract claims what std documents of
/// `Display`: the literal text, each integer in decimal (a leading `-`
/// when negative) and each string as it is.
#[verifier::external_body]
fn rect_text(floor: i8, x0: i32, y0: i32, x1: i32, y1: i32) -> (s: String)
    ensures
        s@ == spec_rect_text(floor as int, x0 as int, y0 as int, x1 as int, y1 as int),
{
    format!("floor {floor} sub-cells ({x0}, {y0})-({x1}, {y1})")
}

/// The text [`defect_text`] produces.
pub open spec fn spec_defect_text(name: Seq<char>, location: Seq<char>) -> Seq<char> {
    name + " at "@ + location
}

/// The text of a refusal.
///
/// Formats with `format!`; the contract claims what std documents of
/// `Display`: the literal text, each integer in decimal (a leading `-`
/// when negative) and each string as it is.
#[verifier::external_body]
fn defect_text(name: &str, location: &str) -> (s: String)
    ensures
        s@ == spec_defect_text(name@, location@),
{
    format!("{name} at {location}")
}

/// A location as text: the cell (and the cell it pairs with), or the
/// floor and sub-cell corners of a rect.
pub open spec fn spec_location_text(l: Location) -> Seq<char> {
    match l {
        Location::Cell { cell, other: Some(o) } => spec_pair_text(
            cell.x as int,
            cell.y as int,
            cell.floor as int,
            o.x as int,
            o.y as int,
            o.floor as int,
        ),
        Location::Cell { cell, other: None } => spec_cell_text(cell.x as int, cell.y as int, cell.floor as int),
        Location::SubcellRect { floor, rect } => spec_rect_text(floor as int, rect.x0 as int, rect.y0 as int, rect.x1 as int, rect.y1 as int),
    }
}

impl Location {
    /// The location as text.
    pub fn to_text(&self) -> (s: String)
        ensures
            s@ == spec_location_text(*self),
    {
        match self {
            Location::Cell { cell, other: Some(o) } => pair_text(cell.x, cell.y, cell.floor, o.x, o.y, o.floor),
            Location::Cell { cell, other: None } => cell_text(cell.x, cell.y, cell.floor),
            Location::SubcellRect { floor, rect } => rect_text(*floor, rect.x0, rect.y0, rect.x1, rect.y1),
        }
    }
}

/// One reported content violation.
#[derive(Debug, Clone, Copy, PartialEq, Eq, PartialOrd, Ord, Structural)]
pub struct Defect {
    pub check: Check,
    pub location: Location,
}

impl Defect {
    /// The defect as text: the check's name, then where.
    pub fn to_text<'a>(&self, rules: &RuleSet<'a>) -> (s: String)
        requires
            self.check matches Check::Rule(id) ==> first_key(rules.spec_rules(), id) is Some,
        ensures
            s@ == spec_defect_text(
                match self.check {
                    Check::Rule(id) => first_key(rules.spec_rules(), id).unwrap()@,
                    Check::EnclosedRegion => "walkability.enclosed_region"@,
                    Check::NarrowPassage => "walkability.narrow_passage"@,
                },
                spec_location_text(self.location),
            ),
    {
        let name = self.check.name(rules);
        let loc = self.location.to_text();
        defect_text(name, loc.as_str())
    }
}

pub open spec fn check_lt(a: Check, b: Check) -> bool {
    match (a, b) {
        (Check::Rule(x), Check::Rule(y)) => x < y,
        (Check::Rule(_), _) => true,
        (Check::EnclosedRegion, Check::NarrowPassage) => true,
        _ => false,
    }
}

pub open spec fn opt_cell_lt(a: Option<Cell>, b: Option<Cell>) -> bool {
    match (a, b) {
        (None, Some(_)) => true,
        (Some(p), Some(q)) => cell_lt(p, q),
        _ => false,
    }
}

pub open spec fn rect_lt(a: Rect, b: Rect) -> bool {
    a.x0 < b.x0 || (a.x0 == b.x0 && (a.y0 < b.y0 || (a.y0 == b.y0 && (a.x1 < b.x1 || (a.x1 == b.x1
        && a.y1 < b.y1)))))
}

pub open spec fn location_lt(a: Location, b: Location) -> bool {
    match (a, b) {
        (Location::Cell { cell: c1, other: o1 }, Location::Cell { cell: c2, other: o2 }) => cell_lt(c1, c2) || (c1
            == c2 && opt_cell_lt(o1, o2)),
        (Location::Cell { .. }, Location::SubcellRect { .. }) => true,
        (Location::SubcellRect { floor: f1, rect: r1 }, Location::SubcellRect { floor: f2, rect: r2 }) => f1 < f2
            || (f1 == f2 && rect_lt(r1, r2)),
        _ => false,
    }
}

/// The order defects are reported in: by check, then location.
pub open spec fn defect_lt(a: Defect, b: Defect) -> bool {
    check_lt(a.check, b.check) || (a.check == b.check && location_lt(a.location, b.location))
}

pub open spec fn defects_sorted(s: Seq<Defect>) -> bool {
    forall|i: int, j: int| 0 <= i < j < s.len() ==> defect_lt(#[trigger] s[i], #[trigger] s[j])
}

fn defect_lt_exec(a: &Defect, b: &Defect) -> (r: bool)
    ensures
        r == defect_lt(*a, *b),
{
    let ca = match a.check {
        Check::Rule(_) => 0u8,
        Check::EnclosedRegion => 1u8,
        Check::NarrowPassage => 2u8,
    };
    let cb = match b.check {
        Check::Rule(_) => 0u8,
        Check::EnclosedRegion => 1u8,
        Check::NarrowPassage => 2u8,
    };
    if ca != cb {
        return ca < cb;
    }
    match (a.check, b.check) {
        (Check::Rule(x), Check::Rule(y)) => {
            if x != y {
                return x < y;
            }
        },
        _ => {},
    }
    match (a.location, b.location) {
        (Location::Cell { cell: c1, other: o1 }, Location::Cell { cell: c2, other: o2 }) => {
            if c1 != c2 {
                crate::rules::cell_lt_exec(c1, c2)
            } else {
                match (o1, o2) {
                    (None, Some(_)) => true,
                    (Some(p), Some(q)) => crate::rules::cell_lt_exec(p, q),
                    _ => false,
                }
            }
        },
        (Location::Cell { .. }, Location::SubcellRect { .. }) => true,
        (Location::SubcellRect { floor: f1, rect: r1 }, Location::SubcellRect { floor: f2, rect: r2 }) => {
            if f1 != f2 {
                f1 < f2
            } else {
                r1.x0 < r2.x0 || (r1.x0 == r2.x0 && (r1.y0 < r2.y0 || (r1.y0 == r2.y0 && (r1.x1 < r2.x1 || (r1.x1
                    == r2.x1 && r1.y1 < r2.y1)))))
            }
        },
        _ => false,
    }
}

/// Adds `d` to a strictly sorted vector, keeping it strictly sorted.
fn insert_defect(out: &mut Vec<Defect>, d: Defect)
    requires
        defects_sorted(old(out)@),
    ensures
        defects_sorted(final(out)@),
        forall|w: Defect| #[trigger] final(out)@.contains(w) <==> (old(out)@.contains(w) || w == d),
{
    let mut p: usize = 0;
    while p < out.len() && defect_lt_exec(&out[p], &d)
        invariant
            p <= out.len(),
            forall|j: int| 0 <= j < p ==> defect_lt(#[trigger] out@[j], d),
        decreases out.len() - p,
    {
        p += 1;
    }
    if p < out.len() && out[p] == d {
        return;
    }
    let ghost o = out@;
    proof {
        if p < o.len() {
            assert(defect_lt(d, o[p as int]));
            assert forall|j: int| p <= j < o.len() implies defect_lt(d, #[trigger] o[j]) by {
                if j > p {
                    assert(defect_lt(o[p as int], o[j]));
                }
            }
        }
    }
    out.insert(p, d);
    proof {
        assert forall|j: int| 0 <= j < out.len() implies #[trigger] out@[j] == if j < p {
            o[j]
        } else if j == p {
            d
        } else {
            o[j - 1]
        } by {}
        assert forall|i: int, j: int| 0 <= i < j < out.len() implies defect_lt(#[trigger] out@[i], #[trigger] out@[j]) by {
            if j < p {
            } else if j == p {
            } else if i < p {
                assert(defect_lt(o[i], o[j - 1]));
            } else if i == p {
            } else {
                assert(defect_lt(o[i - 1], o[j - 1]));
            }
        }
        assert forall|w: Defect| #[trigger] out@.contains(w) <==> (o.contains(w) || w == d) by {
            if o.contains(w) {
                let j = choose|j: int| 0 <= j < o.len() && o[j] == w;
                if j < p {
                    assert(out@[j] == w);
                } else {
                    assert(out@[j + 1] == w);
                }
            }
            if w == d {
                assert(out@[p as int] == w);
            }
            if out@.contains(w) {
                let j = choose|j: int| 0 <= j < out.len() && out@[j] == w;
                if j < p {
                    assert(o[j] == w);
                } else if j > p {
                    assert(o[j - 1] == w);
                }
            }
        }
    }
}

/// Cell `c` lies under the footprint of placement `p` of definition `d`:
/// `d.width` cells east from the anchor, `d.height` cells north-to-south
/// ending at the anchor's row.
pub open spec fn covers(p: Placement, d: ObjectDef, c: Cell) -> bool {
    let oy = p.anchor_y - (d.height - 1);
    &&& c.floor == p.floor
    &&& p.anchor_x <= c.x < p.anchor_x + d.width
    &&& oy <= c.y < oy + d.height
}

/// Every placement names a known definition.
pub open spec fn all_known(placements: Seq<Placement>, objects: Seq<ObjectDef>) -> bool {
    forall|i: int| 0 <= i < placements.len() ==> first_def(objects, (#[trigger] placements[i]).def_id) is Some
}

/// Every known placement's footprint cells fit `i32`.
pub open spec fn footprints_fit(placements: Seq<Placement>, objects: Seq<ObjectDef>) -> bool {
    forall|i: int|
        0 <= i < placements.len() ==> match first_def(objects, (#[trigger] placements[i]).def_id) {
            Some(d) => d.width <= i32::MAX && d.height <= i32::MAX && fits_i32(
                placements[i].anchor_y - (d.height - 1),
            ) && (d.width == 0 || fits_i32(placements[i].anchor_x + d.width - 1)),
            None => true,
        }
}

/// Some placement before index `i` covers `c`.
pub open spec fn placed_before(placements: Seq<Placement>, objects: Seq<ObjectDef>, i: int, c: Cell) -> bool {
    exists|j: int|
        0 <= j < i && #[trigger] first_def(objects, placements[j].def_id) is Some && covers(
            placements[j],
            first_def(objects, placements[j].def_id).unwrap(),
            c,
        )
}

/// Some placement before index `i` covers `c` with an object tagged `t`.
pub open spec fn tagged_before(placements: Seq<Placement>, objects: Seq<ObjectDef>, i: int, c: Cell, t: TagId) -> bool {
    exists|j: int|
        0 <= j < i && #[trigger] first_def(objects, placements[j].def_id) is Some && covers(
            placements[j],
            first_def(objects, placements[j].def_id).unwrap(),
            c,
        ) && first_def(objects, placements[j].def_id).unwrap().tags@.contains(t)
}

/// The distinct owners named in `areas`.
pub open spec fn owner_set(areas: Seq<AreaSpec>) -> Set<u64> {
    Set::new(|o: u64| exists|j: int| 0 <= j < areas.len() && (#[trigger] areas[j]).owner_id == o)
}

/// How many of `s` sort below `o`.
pub open spec fn rank(s: Set<u64>, o: u64) -> int {
    s.filter(|x: u64| x < o).len() as int
}

/// The area id a building owner gets: ids number the distinct building
/// owners from 1 in ascending owner order, then the room owners.
pub open spec fn building_area_id(b: Seq<AreaSpec>, o: u64) -> int {
    1 + rank(owner_set(b), o)
}

pub open spec fn room_area_id(b: Seq<AreaSpec>, r: Seq<AreaSpec>, o: u64) -> int {
    1 + owner_set(b).len() + rank(owner_set(r), o)
}

/// `a` lies on `c`'s floor and its rect contains `c`.
pub open spec fn area_covers(a: AreaSpec, c: Cell) -> bool {
    a.floor == c.floor && a.rect.spec_contains(c.x as int, c.y as int)
}

/// The ids of every building area before index `nb` and every room area
/// before index `nr` that covers `c`.
pub open spec fn ids_upto(b: Seq<AreaSpec>, r: Seq<AreaSpec>, nb: int, nr: int, c: Cell) -> Set<AreaId> {
    Set::new(
        |id: AreaId|
            (exists|j: int| 0 <= j < nb && area_covers(#[trigger] b[j], c) && id == building_area_id(b, b[j].owner_id))
                || (exists|j: int| 0 <= j < nr && area_covers(#[trigger] r[j], c) && id == room_area_id(b, r, r[j].owner_id)),
    )
}

/// The ids of every area that covers `c`.
pub open spec fn covering_ids(b: Seq<AreaSpec>, r: Seq<AreaSpec>, c: Cell) -> Set<AreaId> {
    ids_upto(b, r, b.len() as int, r.len() as int, c)
}

/// A real [`RuleSite`] over placed objects: every footprint cell carries
/// every tag of every object over it, and sits in every area whose rect
/// covers it.
pub struct PlacedSite {
    site: Site,
}

impl RuleSite for PlacedSite {
    closed spec fn site_tags(&self, cell: Cell) -> Seq<TagId> {
        self.site.site_tags(cell)
    }

    closed spec fn site_areas(&self, cell: Cell) -> Seq<AreaId> {
        self.site.site_areas(cell)
    }

    closed spec fn site_subjects(&self, area: Option<AreaId>, tag: TagId) -> Seq<Cell> {
        self.site.site_subjects(area, tag)
    }

    fn tags_at(&self, cell: Cell) -> (r: &[TagId]) {
        self.site.tags_at(cell)
    }

    fn areas_containing(&self, cell: Cell) -> (r: &[AreaId]) {
        self.site.areas_containing(cell)
    }

    fn subjects_in_area(&self, area: Option<AreaId>, tag: TagId) -> (r: &[Cell]) {
        self.site.subjects_in_area(area, tag)
    }
}

/// The text [`unknown_object_text`] produces.
pub open spec fn spec_unknown_object_text(id: int) -> Seq<char> {
    "sim::validation: placement names unknown object def id "@ + decimal(id as int)
}

/// The text of a refusal.
///
/// Formats with `format!`; the contract claims what std documents of
/// `Display`: the literal text, each integer in decimal (a leading `-`
/// when negative) and each string as it is.
#[verifier::external_body]
fn unknown_object_text(id: u32) -> (s: String)
    ensures
        s@ == spec_unknown_object_text(id as int),
{
    format!("sim::validation: placement names unknown object def id {id}")
}

/// In a strictly ascending list holding exactly `s`, `o`'s index is the
/// number of members of `s` below it.
proof fn lemma_rank(v: Seq<u64>, i: int)
    requires
        crate::rules::testing::areas_sorted(v),
        0 <= i < v.len(),
    ensures
        rank(v.to_set(), v[i]) == i,
{
    let below = v.to_set().filter(|x: u64| x < v[i]);
    let pre = v.take(i);
    assert(below =~= pre.to_set()) by {
        assert forall|x: u64| below.contains(x) <==> pre.to_set().contains(x) by {
            if below.contains(x) {
                let k = choose|k: int| 0 <= k < v.len() && v[k] == x;
                if k >= i {
                    if k > i {
                        assert(v[i] < v[k]);
                    }
                }
                assert(pre[k] == x);
            }
            if pre.to_set().contains(x) {
                let k = choose|k: int| 0 <= k < pre.len() && pre[k] == x;
                assert(v[k] < v[i]);
                assert(v.contains(x));
            }
        }
    }
    assert(pre.no_duplicates()) by {
        assert forall|a: int, b: int| 0 <= a < pre.len() && 0 <= b < pre.len() && a != b implies pre[a] != pre[b] by {
            assert(pre[a] == v[a] && pre[b] == v[b]);
            if a < b {
                assert(v[a] < v[b]);
            } else {
                assert(v[b] < v[a]);
            }
        }
    }
    pre.unique_seq_to_set();
}

/// The index of `o` in an ascending list that holds it.
fn index_of(v: &Vec<u64>, o: u64) -> (i: usize)
    requires
        v@.contains(o),
    ensures
        i < v.len(),
        v@[i as int] == o,
{
    let mut i: usize = 0;
    while i < v.len()
        invariant
            i <= v.len(),
            v@.contains(o),
            forall|j: int| 0 <= j < i ==> v@[j] != o,
        decreases v.len() - i,
    {
        if v[i] == o {
            return i;
        }
        i += 1;
    }
    proof {
        let k = choose|k: int| 0 <= k < v.len() && v@[k] == o;
    }
    0
}

/// The distinct owners of `areas`, ascending.
fn owners_of(areas: &[AreaSpec]) -> (v: Vec<u64>)
    ensures
        crate::rules::testing::areas_sorted(v@),
        v@.to_set() == owner_set(areas@),
        v.len() <= areas.len(),
{
    let mut v: Vec<u64> = Vec::new();
    let mut j: usize = 0;
    while j < areas.len()
        invariant
            j <= areas.len(),
            crate::rules::testing::areas_sorted(v@),
            v@.to_set() == owner_set(areas@.take(j as int)),
        decreases areas.len() - j,
    {
        crate::rules::testing::add_area(&mut v, areas[j].owner_id);
        proof {
            assert(owner_set(areas@.take(j + 1)) =~= owner_set(areas@.take(j as int)).insert(areas@[j as int].owner_id)) by {
                assert forall|o: u64| owner_set(areas@.take(j + 1)).contains(o) <==> owner_set(areas@.take(j as int)).insert(
                    areas@[j as int].owner_id,
                ).contains(o) by {
                    if owner_set(areas@.take(j + 1)).contains(o) {
                        let k = choose|k: int| 0 <= k < j + 1 && (#[trigger] areas@.take(j + 1)[k]).owner_id == o;
                        if k < j {
                            assert(areas@.take(j as int)[k] == areas@[k]);
                        }
                    }
                    if owner_set(areas@.take(j as int)).contains(o) {
                        let k = choose|k: int| 0 <= k < j && (#[trigger] areas@.take(j as int)[k]).owner_id == o;
                        assert(areas@.take(j + 1)[k] == areas@[k]);
                    }
                    if o == areas@[j as int].owner_id {
                        assert(areas@.take(j + 1)[j as int] == areas@[j as int]);
                    }
                }
            }
        }
        j += 1;
    }
    proof {
        assert(areas@.take(areas.len() as int) =~= areas@);
        v@.unique_seq_to_set();
        assert(v@.no_duplicates()) by {
            assert forall|a: int, b: int| 0 <= a < v@.len() && 0 <= b < v@.len() && a != b implies v@[a] != v@[b] by {
                if a < b {
                    assert(v@[a] < v@[b]);
                } else {
                    assert(v@[b] < v@[a]);
                }
            }
        }
        assert(owner_set(areas@).subset_of(areas@.map_values(|a: AreaSpec| a.owner_id).to_set())) by {
            assert forall|o: u64| owner_set(areas@).contains(o) implies areas@.map_values(|a: AreaSpec| a.owner_id).to_set().contains(o) by {
                let k = choose|k: int| 0 <= k < areas@.len() && (#[trigger] areas@[k]).owner_id == o;
                assert(areas@.map_values(|a: AreaSpec| a.owner_id)[k] == o);
            }
        }
        areas@.map_values(|a: AreaSpec| a.owner_id).lemma_cardinality_of_set();
        vstd::set_lib::lemma_len_subset(owner_set(areas@), areas@.map_values(|a: AreaSpec| a.owner_id).to_set());
    }
    v
}

/// Within placement `p`'s footprint, `c` sits in a row before `dy`, or in
/// row `dy` before column `dx`.
pub open spec fn covers_upto(p: Placement, d: ObjectDef, c: Cell, dy: int, dx: int) -> bool {
    let oy = p.anchor_y - (d.height - 1);
    let lx = c.x - p.anchor_x;
    let ly = c.y - oy;
    &&& covers(p, d, c)
    &&& (ly < dy || (ly == dy && lx < dx))
}

/// Stamps every footprint cell of `placements` with its object's tags.
fn stamp_tags(placements: &[Placement], objects: &[ObjectDef]) -> (r: Result<SiteBuilder, String>)
    requires
        footprints_fit(placements@, objects@),
    ensures
        r is Ok <==> all_known(placements@, objects@),
        r matches Ok(b) ==> {
            &&& b.wf()
            &&& forall|c: Cell| #[trigger] b.has_cell(c) == placed_before(placements@, objects@, placements.len() as int, c)
            &&& forall|c: Cell|
                #[trigger] b.spec_tags(c).to_set() == Set::new(
                    |t: TagId| tagged_before(placements@, objects@, placements.len() as int, c, t),
                )
            &&& forall|c: Cell| #[trigger] b.spec_areas(c) == Seq::<AreaId>::empty()
        },
{
    let mut b = SiteBuilder::new();
    let mut i: usize = 0;
    proof {
        assert forall|c: Cell| #[trigger] b.spec_tags(c).to_set() == Set::new(
            |t: TagId| tagged_before(placements@, objects@, 0, c, t),
        ) by {
            assert(b.spec_tags(c).to_set() =~= Set::new(|t: TagId| tagged_before(placements@, objects@, 0, c, t)));
        }
    }
    while i < placements.len()
        invariant
            i <= placements.len(),
            footprints_fit(placements@, objects@),
            forall|j: int| 0 <= j < i ==> first_def(objects@, (#[trigger] placements@[j]).def_id) is Some,
            b.wf(),
            forall|c: Cell| #[trigger] b.has_cell(c) == placed_before(placements@, objects@, i as int, c),
            forall|c: Cell|
                #[trigger] b.spec_tags(c).to_set() == Set::new(|t: TagId| tagged_before(placements@, objects@, i as int, c, t)),
            forall|c: Cell| #[trigger] b.spec_areas(c) == Seq::<AreaId>::empty(),
        decreases placements.len() - i,
    {
        let p = placements[i];
        let d = match crate::world::walkability::find_def(objects, p.def_id) {
            Some(d) => d,
            None => {
                return Err(unknown_object_text(p.def_id));
            },
        };
        proof {
            assert(first_def(objects@, placements@[i as int].def_id) == Some(d));
        }
        let (ox, oy) = crate::world::walkability::footprint_origin(p.anchor_x, p.anchor_y, d.width, d.height);
        let w = d.width as i32;
        let h = d.height as i32;
        let mut dy: i32 = 0;
        while dy < h
            invariant
                i < placements.len(),
                p == placements@[i as int],
                first_def(objects@, p.def_id) == Some(d),
                d.width <= i32::MAX && d.height <= i32::MAX,
                w == d.width && h == d.height,
                ox == p.anchor_x && oy == p.anchor_y - (d.height - 1),
                d.width == 0 || fits_i32(p.anchor_x + d.width - 1),
                0 <= dy <= h,
                footprints_fit(placements@, objects@),
                forall|j: int| 0 <= j < i ==> first_def(objects@, (#[trigger] placements@[j]).def_id) is Some,
                b.wf(),
                forall|c: Cell| #[trigger] b.has_cell(c) == (placed_before(placements@, objects@, i as int, c) || covers_upto(p, d, c, dy as int, 0)),
                forall|c: Cell|
                    #[trigger] b.spec_tags(c).to_set() == Set::new(|t: TagId| tagged_before(placements@, objects@, i as int, c, t)
                        || (covers_upto(p, d, c, dy as int, 0) && d.tags@.contains(t))),
                forall|c: Cell| #[trigger] b.spec_areas(c) == Seq::<AreaId>::empty(),
            decreases h - dy,
        {
            let mut dx: i32 = 0;
            while dx < w
                invariant
                    i < placements.len(),
                    p == placements@[i as int],
                    first_def(objects@, p.def_id) == Some(d),
                    d.width <= i32::MAX && d.height <= i32::MAX,
                    w == d.width && h == d.height,
                    ox == p.anchor_x && oy == p.anchor_y - (d.height - 1),
                    d.width == 0 || fits_i32(p.anchor_x + d.width - 1),
                    0 <= dy < h,
                    0 <= dx <= w,
                    footprints_fit(placements@, objects@),
                    forall|j: int| 0 <= j < i ==> first_def(objects@, (#[trigger] placements@[j]).def_id) is Some,
                    b.wf(),
                    forall|c: Cell| #[trigger] b.has_cell(c) == (placed_before(placements@, objects@, i as int, c) || covers_upto(p, d, c, dy as int, dx as int)),
                    forall|c: Cell|
                        #[trigger] b.spec_tags(c).to_set() == Set::new(|t: TagId| tagged_before(placements@, objects@, i as int, c, t)
                            || (covers_upto(p, d, c, dy as int, dx as int) && d.tags@.contains(t))),
                    forall|c: Cell| #[trigger] b.spec_areas(c) == Seq::<AreaId>::empty(),
                decreases w - dx,
            {
                let cell = Cell::new(ox + dx, oy + dy, p.floor);
                let ghost b0 = b;
                b = b.cell(cell, d.tags);
                proof {
                    assert forall|c: Cell| #[trigger] b.has_cell(c) == (placed_before(placements@, objects@, i as int, c) || covers_upto(p, d, c, dy as int, dx + 1)) by {
                        assert(b0.has_cell(c) == (placed_before(placements@, objects@, i as int, c) || covers_upto(p, d, c, dy as int, dx as int)));
                    }
                    assert forall|c: Cell|
                        #[trigger] b.spec_tags(c).to_set() == Set::new(|t: TagId| tagged_before(placements@, objects@, i as int, c, t)
                            || (covers_upto(p, d, c, dy as int, dx + 1) && d.tags@.contains(t))) by {
                        assert(b0.spec_tags(c).to_set() == Set::new(|t: TagId| tagged_before(placements@, objects@, i as int, c, t)
                            || (covers_upto(p, d, c, dy as int, dx as int) && d.tags@.contains(t))));
                        if c == cell {
                            assert(b.spec_tags(c).to_set() =~= Set::new(|t: TagId| tagged_before(placements@, objects@, i as int, c, t)
                                || (covers_upto(p, d, c, dy as int, dx + 1) && d.tags@.contains(t))));
                        } else {
                            assert(b.spec_tags(c) == b0.spec_tags(c));
                            assert(Set::new(|t: TagId| tagged_before(placements@, objects@, i as int, c, t)
                                || (covers_upto(p, d, c, dy as int, dx + 1) && d.tags@.contains(t))) =~= Set::new(|t: TagId| tagged_before(placements@, objects@, i as int, c, t)
                                || (covers_upto(p, d, c, dy as int, dx as int) && d.tags@.contains(t))));
                        }
                    }
                }
                dx += 1;
            }
            proof {
                assert forall|c: Cell| #[trigger] covers_upto(p, d, c, dy as int, w as int) == covers_upto(p, d, c, dy + 1, 0) by {}
                assert forall|c: Cell|
                    #[trigger] b.spec_tags(c).to_set() == Set::new(|t: TagId| tagged_before(placements@, objects@, i as int, c, t)
                        || (covers_upto(p, d, c, dy + 1, 0) && d.tags@.contains(t))) by {
                    assert(Set::new(|t: TagId| tagged_before(placements@, objects@, i as int, c, t)
                        || (covers_upto(p, d, c, dy + 1, 0) && d.tags@.contains(t))) =~= Set::new(|t: TagId| tagged_before(placements@, objects@, i as int, c, t)
                        || (covers_upto(p, d, c, dy as int, w as int) && d.tags@.contains(t))));
                }
            }
            dy += 1;
        }
        proof {
            assert forall|c: Cell| #[trigger] b.has_cell(c) == placed_before(placements@, objects@, i + 1, c) by {
                if covers_upto(p, d, c, h as int, 0) {
                    assert(first_def(objects@, placements@[i as int].def_id) is Some);
                }
                if placed_before(placements@, objects@, i + 1, c) {
                    let j = choose|j: int| 0 <= j < i + 1 && #[trigger] first_def(objects@, placements@[j].def_id) is Some && covers(
                        placements@[j],
                        first_def(objects@, placements@[j].def_id).unwrap(),
                        c,
                    );
                    if j < i {
                        assert(placed_before(placements@, objects@, i as int, c));
                    }
                }
            }
            assert forall|c: Cell|
                #[trigger] b.spec_tags(c).to_set() == Set::new(|t: TagId| tagged_before(placements@, objects@, i + 1, c, t)) by {
                assert forall|t: TagId| tagged_before(placements@, objects@, i + 1, c, t) == (tagged_before(placements@, objects@, i as int, c, t)
                    || (covers_upto(p, d, c, h as int, 0) && d.tags@.contains(t))) by {
                    if tagged_before(placements@, objects@, i + 1, c, t) {
                        let j = choose|j: int| 0 <= j < i + 1 && #[trigger] first_def(objects@, placements@[j].def_id) is Some && covers(
                            placements@[j],
                            first_def(objects@, placements@[j].def_id).unwrap(),
                            c,
                        ) && first_def(objects@, placements@[j].def_id).unwrap().tags@.contains(t);
                        if j < i {
                            assert(tagged_before(placements@, objects@, i as int, c, t));
                        }
                    }
                    if covers_upto(p, d, c, h as int, 0) && d.tags@.contains(t) {
                        assert(first_def(objects@, placements@[i as int].def_id) is Some);
                    }
                }
                assert(Set::new(|t: TagId| tagged_before(placements@, objects@, i + 1, c, t)) =~= Set::new(|t: TagId| tagged_before(placements@, objects@, i as int, c, t)
                    || (covers_upto(p, d, c, h as int, 0) && d.tags@.contains(t))));
            }
        }
        i += 1;
    }
    Ok(b)
}

/// The areas a cell already visited carries: every covering one.
pub open spec fn visited_ids(b: Seq<AreaSpec>, r: Seq<AreaSpec>, done: Seq<Cell>, c: Cell) -> Set<AreaId> {
    if done.contains(c) {
        covering_ids(b, r, c)
    } else {
        Set::empty()
    }
}

/// Puts every declared cell into every area that covers it.
fn assign_areas(b0: SiteBuilder, building_areas: &[AreaSpec], room_areas: &[AreaSpec]) -> (r: SiteBuilder)
    requires
        b0.wf(),
        forall|c: Cell| #[trigger] b0.spec_areas(c) == Seq::<AreaId>::empty(),
        building_areas@.len() + room_areas@.len() < u64::MAX,
    ensures
        r.wf(),
        forall|c: Cell| #[trigger] r.spec_tags(c) == b0.spec_tags(c),
        forall|c: Cell| #[trigger] r.has_cell(c) == b0.has_cell(c),
        forall|c: Cell| crate::rules::testing::areas_sorted(#[trigger] r.spec_areas(c)),
        forall|c: Cell|
            #[trigger] r.spec_areas(c).to_set() == if b0.has_cell(c) {
                covering_ids(building_areas@, room_areas@, c)
            } else {
                Set::empty()
            },
{
    let ob = owners_of(building_areas);
    let orr = owners_of(room_areas);
    let cells = b0.tagged_cells();
    let mut b = b0;
    let mut k: usize = 0;
    let ghost bs = building_areas@;
    let ghost rs = room_areas@;
    proof {
        assert forall|c: Cell| #[trigger] b.spec_areas(c).to_set() == visited_ids(bs, rs, cells@.take(0), c) by {
            assert(b.spec_areas(c).to_set() =~= Set::<AreaId>::empty());
        }
    }
    while k < cells.len()
        invariant
            k <= cells.len(),
            bs == building_areas@,
            rs == room_areas@,
            bs.len() + rs.len() < u64::MAX,
            crate::rules::testing::areas_sorted(ob@),
            ob@.to_set() == owner_set(bs),
            ob.len() <= bs.len(),
            crate::rules::testing::areas_sorted(orr@),
            orr@.to_set() == owner_set(rs),
            orr.len() <= rs.len(),
            forall|c: Cell| #[trigger] cells@.contains(c) <==> b0.has_cell(c),
            b.wf(),
            forall|c: Cell| #[trigger] b.spec_tags(c) == b0.spec_tags(c),
            forall|c: Cell| #[trigger] b.has_cell(c) == b0.has_cell(c),
            forall|c: Cell| crate::rules::testing::areas_sorted(#[trigger] b.spec_areas(c)),
            forall|c: Cell| #[trigger] b.spec_areas(c).to_set() == visited_ids(bs, rs, cells@.take(k as int), c),
        decreases cells.len() - k,
    {
        let c = cells[k];
        let ghost done = cells@.take(k as int);
        let mut j: usize = 0;
        proof {
            assert forall|x: Cell| #[trigger] b.spec_areas(x).to_set() == visited_ids(bs, rs, done, x) + if x == c {
                ids_upto(bs, rs, 0, 0, x)
            } else {
                Set::empty()
            } by {
                assert(ids_upto(bs, rs, 0, 0, x) =~= Set::<AreaId>::empty());
                assert(visited_ids(bs, rs, done, x) + Set::<AreaId>::empty() =~= visited_ids(bs, rs, done, x));
            }
        }
        while j < building_areas.len()
            invariant
                k < cells.len(),
                c == cells@[k as int],
                done == cells@.take(k as int),
                j <= building_areas.len(),
                bs == building_areas@,
                rs == room_areas@,
                bs.len() + rs.len() < u64::MAX,
                crate::rules::testing::areas_sorted(ob@),
                ob@.to_set() == owner_set(bs),
                ob.len() <= bs.len(),
                b.wf(),
                forall|x: Cell| #[trigger] b.spec_tags(x) == b0.spec_tags(x),
                forall|x: Cell| #[trigger] b.has_cell(x) == b0.has_cell(x),
                forall|x: Cell| crate::rules::testing::areas_sorted(#[trigger] b.spec_areas(x)),
                forall|x: Cell| #[trigger] b.spec_areas(x).to_set() == visited_ids(bs, rs, done, x) + if x == c {
                    ids_upto(bs, rs, j as int, 0, x)
                } else {
                    Set::empty()
                },
            decreases building_areas.len() - j,
        {
            let a = building_areas[j];
            let ghost bb = b;
            if a.floor == c.floor && a.rect.contains(c.x, c.y) {
                proof {
                    assert(owner_set(bs).contains(a.owner_id)) by {
                        assert(bs[j as int].owner_id == a.owner_id);
                    }
                    assert(ob@.to_set().contains(a.owner_id));
                }
                let idx = index_of(&ob, a.owner_id);
                let id = idx as u64 + 1;
                proof {
                    lemma_rank(ob@, idx as int);
                    assert(id == building_area_id(bs, a.owner_id));
                }
                b = b.area(c, id);
            }
            proof {
                assert forall|x: Cell| #[trigger] b.spec_areas(x).to_set() == visited_ids(bs, rs, done, x) + if x == c {
                    ids_upto(bs, rs, j + 1, 0, x)
                } else {
                    Set::empty()
                } by {
                    assert(bb.spec_areas(x).to_set() == visited_ids(bs, rs, done, x) + if x == c {
                        ids_upto(bs, rs, j as int, 0, x)
                    } else {
                        Set::empty()
                    });
                    if x == c {
                        assert forall|id: AreaId| #[trigger] ids_upto(bs, rs, j + 1, 0, x).contains(id) <==> (ids_upto(bs, rs, j as int, 0, x).contains(id)
                            || (area_covers(bs[j as int], x) && id == building_area_id(bs, bs[j as int].owner_id))) by {
                            if ids_upto(bs, rs, j + 1, 0, x).contains(id) {
                                if exists|q: int| 0 <= q < j + 1 && area_covers(#[trigger] bs[q], x) && id == building_area_id(bs, bs[q].owner_id) {
                                    let q = choose|q: int| 0 <= q < j + 1 && area_covers(#[trigger] bs[q], x) && id == building_area_id(bs, bs[q].owner_id);
                                    if q < j {
                                        assert(ids_upto(bs, rs, j as int, 0, x).contains(id));
                                    }
                                }
                            }
                            if ids_upto(bs, rs, j as int, 0, x).contains(id) {
                                let q = choose|q: int| 0 <= q < j && area_covers(#[trigger] bs[q], x) && id == building_area_id(bs, bs[q].owner_id);
                                assert(ids_upto(bs, rs, j + 1, 0, x).contains(id));
                            }
                            if area_covers(bs[j as int], x) && id == building_area_id(bs, bs[j as int].owner_id) {
                                assert(ids_upto(bs, rs, j + 1, 0, x).contains(id));
                            }
                        }
                        assert(b.spec_areas(x).to_set() =~= visited_ids(bs, rs, done, x) + ids_upto(bs, rs, j + 1, 0, x));
                    } else {
                        assert(b.spec_areas(x) == bb.spec_areas(x));
                    }
                }
            }
            j += 1;
        }
        let mut j: usize = 0;
        let nb = ob.len() as u64;
        proof {
            assert(owner_set(bs).len() == ob.len()) by {
                assert(ob@.no_duplicates()) by {
                    assert forall|a1: int, a2: int| 0 <= a1 < ob@.len() && 0 <= a2 < ob@.len() && a1 != a2 implies ob@[a1] != ob@[a2] by {
                        if a1 < a2 {
                            assert(ob@[a1] < ob@[a2]);
                        } else {
                            assert(ob@[a2] < ob@[a1]);
                        }
                    }
                }
                ob@.unique_seq_to_set();
            }
        }
        while j < room_areas.len()
            invariant
                k < cells.len(),
                c == cells@[k as int],
                done == cells@.take(k as int),
                j <= room_areas.len(),
                bs == building_areas@,
                rs == room_areas@,
                nb == owner_set(bs).len(),
                nb <= bs.len(),
                bs.len() + rs.len() < u64::MAX,
                crate::rules::testing::areas_sorted(orr@),
                orr@.to_set() == owner_set(rs),
                orr.len() <= rs.len(),
                b.wf(),
                forall|x: Cell| #[trigger] b.spec_tags(x) == b0.spec_tags(x),
                forall|x: Cell| #[trigger] b.has_cell(x) == b0.has_cell(x),
                forall|x: Cell| crate::rules::testing::areas_sorted(#[trigger] b.spec_areas(x)),
                forall|x: Cell| #[trigger] b.spec_areas(x).to_set() == visited_ids(bs, rs, done, x) + if x == c {
                    ids_upto(bs, rs, bs.len() as int, j as int, x)
                } else {
                    Set::empty()
                },
            decreases room_areas.len() - j,
        {
            let a = room_areas[j];
            let ghost bb = b;
            if a.floor == c.floor && a.rect.contains(c.x, c.y) {
                proof {
                    assert(owner_set(rs).contains(a.owner_id)) by {
                        assert(rs[j as int].owner_id == a.owner_id);
                    }
                    assert(orr@.to_set().contains(a.owner_id));
                }
                let idx = index_of(&orr, a.owner_id);
                let id = nb + idx as u64 + 1;
                proof {
                    lemma_rank(orr@, idx as int);
                    assert(id == room_area_id(bs, rs, a.owner_id));
                }
                b = b.area(c, id);
            }
            proof {
                let n = bs.len() as int;
                assert forall|x: Cell| #[trigger] b.spec_areas(x).to_set() == visited_ids(bs, rs, done, x) + if x == c {
                    ids_upto(bs, rs, n, j + 1, x)
                } else {
                    Set::empty()
                } by {
                    assert(bb.spec_areas(x).to_set() == visited_ids(bs, rs, done, x) + if x == c {
                        ids_upto(bs, rs, n, j as int, x)
                    } else {
                        Set::empty()
                    });
                    if x == c {
                        assert forall|id: AreaId| #[trigger] ids_upto(bs, rs, n, j + 1, x).contains(id) <==> (ids_upto(bs, rs, n, j as int, x).contains(id)
                            || (area_covers(rs[j as int], x) && id == room_area_id(bs, rs, rs[j as int].owner_id))) by {
                            if ids_upto(bs, rs, n, j + 1, x).contains(id) {
                                if exists|q: int| 0 <= q < j + 1 && area_covers(#[trigger] rs[q], x) && id == room_area_id(bs, rs, rs[q].owner_id) {
                                    let q = choose|q: int| 0 <= q < j + 1 && area_covers(#[trigger] rs[q], x) && id == room_area_id(bs, rs, rs[q].owner_id);
                                    if q < j {
                                        assert(ids_upto(bs, rs, n, j as int, x).contains(id));
                                    }
                                }
                            }
                            if ids_upto(bs, rs, n, j as int, x).contains(id) {
                                if exists|q: int| 0 <= q < j && area_covers(#[trigger] rs[q], x) && id == room_area_id(bs, rs, rs[q].owner_id) {
                                    let q = choose|q: int| 0 <= q < j && area_covers(#[trigger] rs[q], x) && id == room_area_id(bs, rs, rs[q].owner_id);
                                    assert(ids_upto(bs, rs, n, j + 1, x).contains(id));
                                }
                            }
                            if area_covers(rs[j as int], x) && id == room_area_id(bs, rs, rs[j as int].owner_id) {
                                assert(ids_upto(bs, rs, n, j + 1, x).contains(id));
                            }
                        }
                        assert(b.spec_areas(x).to_set() =~= visited_ids(bs, rs, done, x) + ids_upto(bs, rs, n, j + 1, x));
                    } else {
                        assert(b.spec_areas(x) == bb.spec_areas(x));
                    }
                }
            }
            j += 1;
        }
        proof {
            let nd = cells@.take(k + 1);
            assert forall|x: Cell| #[trigger] b.spec_areas(x).to_set() == visited_ids(bs, rs, nd, x) by {
                assert(nd.contains(x) <==> (done.contains(x) || x == c)) by {
                    if nd.contains(x) {
                        let q = choose|q: int| 0 <= q < nd.len() && nd[q] == x;
                        if q < k {
                            assert(done[q] == x);
                        }
                    }
                    if done.contains(x) {
                        let q = choose|q: int| 0 <= q < done.len() && done[q] == x;
                        assert(nd[q] == x);
                    }
                    if x == c {
                        assert(nd[k as int] == x);
                    }
                }
                assert(covering_ids(bs, rs, x) == ids_upto(bs, rs, bs.len() as int, rs.len() as int, x));
                if x == c {
                    assert(b.spec_areas(x).to_set() =~= visited_ids(bs, rs, nd, x));
                } else {
                    assert(b.spec_areas(x).to_set() =~= visited_ids(bs, rs, nd, x));
                }
            }
        }
        k += 1;
    }
    proof {
        assert(cells@.take(cells.len() as int) =~= cells@);
    }
    b
}

/// What a [`PlacedSite`] built from these inputs answers: each cell's
/// tags (ascending) are every tag of every object over it; each covered
/// cell's areas (ascending) are every area whose rect covers it; and a
/// query lists, ascending, the cells carrying the tag inside the area.
pub open spec fn placed_site_of<S: RuleSite>(
    s: &S,
    placements: Seq<Placement>,
    building_areas: Seq<AreaSpec>,
    room_areas: Seq<AreaSpec>,
    objects: Seq<ObjectDef>,
) -> bool {
    let n = placements.len() as int;
    &&& forall|c: Cell|
        crate::rules::testing::tags_sorted(#[trigger] s.site_tags(c)) && s.site_tags(c).to_set() == Set::new(
            |t: TagId| tagged_before(placements, objects, n, c, t),
        )
    &&& forall|c: Cell|
        crate::rules::testing::areas_sorted(#[trigger] s.site_areas(c)) && s.site_areas(c).to_set() == if placed_before(
            placements,
            objects,
            n,
            c,
        ) {
            covering_ids(building_areas, room_areas, c)
        } else {
            Set::empty()
        }
    &&& forall|scope: Option<AreaId>, t: TagId| crate::rules::testing::cells_sorted(#[trigger] s.site_subjects(scope, t))
    &&& forall|scope: Option<AreaId>, t: TagId, c: Cell|
        #[trigger] s.site_subjects(scope, t).contains(c) <==> (placed_before(placements, objects, n, c) && s.site_tags(c).contains(t)
            && match scope {
            None => true,
            Some(a) => s.site_areas(c).contains(a),
        })
}

impl PlacedSite {
    /// Stamps every footprint cell with every tag of its object and puts
    /// it in every covering area; `Err` only when a placement names an
    /// unknown definition.
    pub fn build(
        placements: &[Placement],
        building_areas: &[AreaSpec],
        room_areas: &[AreaSpec],
        objects: &[ObjectDef],
    ) -> (r: Result<Self, String>)
        requires
            footprints_fit(placements@, objects@),
            building_areas@.len() + room_areas@.len() < u64::MAX,
        ensures
            r is Ok <==> all_known(placements@, objects@),
            r matches Ok(s) ==> placed_site_of(&s, placements@, building_areas@, room_areas@, objects@),
    {
        let b = match stamp_tags(placements, objects) {
            Ok(b) => b,
            Err(e) => {
                return Err(e);
            },
        };
        let b2 = assign_areas(b, building_areas, room_areas);
        let ghost bb = b2;
        let site = b2.build();
        let r = PlacedSite { site };
        proof {
            let n = placements@.len() as int;
            assert forall|c: Cell|
                crate::rules::testing::tags_sorted(#[trigger] r.site_tags(c)) && r.site_tags(c).to_set() == Set::new(
                    |t: TagId| tagged_before(placements@, objects@, n, c, t),
                ) by {
                bb.lemma_tags_sorted(c);
            }
            assert forall|scope: Option<AreaId>, t: TagId, c: Cell|
                #[trigger] r.site_subjects(scope, t).contains(c) <==> (placed_before(placements@, objects@, n, c) && r.site_tags(c).contains(t)
                    && match scope {
                    None => true,
                    Some(a) => r.site_areas(c).contains(a),
                }) by {
                if r.site_tags(c).contains(t) {
                    assert(r.site_tags(c).to_set().contains(t));
                    assert(tagged_before(placements@, objects@, n, c, t));
                }
            }
        }
        Ok(r)
    }
}

/// A sub-cell of window `fw` some placed collider on its floor covers.
pub open spec fn window_blocked(fw: FloorWindow, placements: Seq<Placement>, objects: Seq<ObjectDef>, x: int, y: int) -> bool {
    fw.bounds.spec_contains(x, y) && any_covers(raster_colliders(fw.floor, placements, objects), x, y)
}

/// The walkable sub-cells of window `fw`.
pub open spec fn window_pass(fw: FloorWindow, placements: Seq<Placement>, objects: Seq<ObjectDef>) -> spec_fn(int, int) -> bool {
    |x: int, y: int| fw.bounds.spec_contains(x, y) && !window_blocked(fw, placements, objects, x, y)
}

/// A `bw x bh` body with its north-west corner at `(x, y)` fits inside
/// window `fw`'s walkable sub-cells.
pub open spec fn window_fits(fw: FloorWindow, placements: Seq<Placement>, objects: Seq<ObjectDef>, bw: int, bh: int, x: int, y: int) -> bool {
    &&& fw.bounds.spec_contains(x, y)
    &&& bw >= 1 && bh >= 1
    &&& x + bw <= fw.bounds.x1
    &&& y + bh <= fw.bounds.y1
    &&& forall|dx: int, dy: int|
        0 <= dx < bw && 0 <= dy < bh ==> !#[trigger] window_blocked(fw, placements, objects, x + dx, y + dy)
}

/// The sub-cells of window `fw` where the body fits that a raw walk from
/// the seed reaches.
pub open spec fn window_reach_fit(fw: FloorWindow, placements: Seq<Placement>, objects: Seq<ObjectDef>, bw: int, bh: int) -> spec_fn(int, int) -> bool {
    |x: int, y: int|
        window_pass(fw, placements, objects)(x, y) && reachable(
            fw.bounds,
            window_pass(fw, placements, objects),
            (fw.seed_x as int, fw.seed_y as int),
            (x, y),
        ) && window_fits(fw, placements, objects, bw, bh, x, y)
}

/// `d` is a walkability finding of window `fw`: a region no walk from the
/// seed reaches (`EnclosedRegion`), or one the body cannot reach
/// (`NarrowPassage`), by its bounding rect.
pub open spec fn window_defect(fw: FloorWindow, placements: Seq<Placement>, objects: Seq<ObjectDef>, bw: int, bh: int, d: Defect) -> bool {
    let seed = (fw.seed_x as int, fw.seed_y as int);
    match (d.check, d.location) {
        (Check::EnclosedRegion, Location::SubcellRect { floor, rect }) => floor == fw.floor && exists|r: Seq<Finding>|
            regions_report(fw.bounds, window_pass(fw, placements, objects), seed, r) && exists|i: int|
                0 <= i < r.len() && (#[trigger] r[i]).bounds == rect,
        (Check::NarrowPassage, Location::SubcellRect { floor, rect }) => floor == fw.floor && exists|r: Seq<Finding>|
            regions_report(fw.bounds, window_reach_fit(fw, placements, objects, bw, bh), seed, r) && exists|i: int|
                0 <= i < r.len() && (#[trigger] r[i]).bounds == rect,
        _ => false,
    }
}

/// `d` is a rule violation of the site.
pub open spec fn rule_defect<S: RuleSite>(site: &S, rules: Seq<RuleDef>, d: Defect) -> bool {
    match (d.check, d.location) {
        (Check::Rule(id), Location::Cell { cell, other }) => flagged(site, rules, Violation { rule_id: id, subject: cell, other }),
        _ => false,
    }
}

/// Every defect of a readable candidate: each rule violation of the
/// placed site (any site that `placed_site_of` describes), and each
/// walkability finding of each window.
pub open spec fn candidate_defect(c: Candidate, content: Content, bw: int, bh: int, d: Defect) -> bool {
    ||| exists|s: PlacedSite|
        placed_site_of(&s, c.placements@, c.building_areas@, c.room_areas@, content.objects@) && #[trigger] rule_defect(
            &s,
            content.rules.spec_rules(),
            d,
        )
    ||| exists|k: int| 0 <= k < c.floors@.len() && #[trigger] window_defect(c.floors@[k], c.placements@, content.objects@, bw, bh, d)
}

fn add_findings(ds: &mut Vec<Defect>, check: Check, floor: i8, fs: &Vec<Finding>)
    requires
        defects_sorted(old(ds)@),
    ensures
        defects_sorted(final(ds)@),
        forall|d: Defect|
            #[trigger] final(ds)@.contains(d) <==> (old(ds)@.contains(d) || (d.check == check && exists|i: int|
                0 <= i < fs.len() && d.location == (Location::SubcellRect { floor, rect: (#[trigger] fs@[i]).bounds }))),
{
    let ghost o = ds@;
    let mut i: usize = 0;
    while i < fs.len()
        invariant
            i <= fs.len(),
            defects_sorted(ds@),
            forall|d: Defect|
                #[trigger] ds@.contains(d) <==> (o.contains(d) || (d.check == check && exists|q: int|
                    0 <= q < i && d.location == (Location::SubcellRect { floor, rect: (#[trigger] fs@[q]).bounds }))),
        decreases fs.len() - i,
    {
        let d = Defect { check, location: Location::SubcellRect { floor, rect: fs[i].bounds } };
        insert_defect(ds, d);
        proof {
            assert forall|w: Defect|
                #[trigger] ds@.contains(w) <==> (o.contains(w) || (w.check == check && exists|q: int|
                    0 <= q < i + 1 && w.location == (Location::SubcellRect { floor, rect: (#[trigger] fs@[q]).bounds }))) by {
                if w == d {
                    assert(w.location == (Location::SubcellRect { floor, rect: fs@[i as int].bounds }));
                }
                if w.check == check && exists|q: int| 0 <= q < i + 1 && w.location == (Location::SubcellRect { floor, rect: (#[trigger] fs@[q]).bounds }) {
                    let q = choose|q: int| 0 <= q < i + 1 && w.location == (Location::SubcellRect { floor, rect: (#[trigger] fs@[q]).bounds });
                    if q < i {
                        assert(exists|q2: int| 0 <= q2 < i && w.location == (Location::SubcellRect { floor, rect: (#[trigger] fs@[q2]).bounds }));
                    }
                }
            }
        }
        i += 1;
    }
}

fn add_violations(ds: &mut Vec<Defect>, vs: &Vec<Violation>)
    requires
        defects_sorted(old(ds)@),
    ensures
        defects_sorted(final(ds)@),
        forall|d: Defect|
            #[trigger] final(ds)@.contains(d) <==> (old(ds)@.contains(d) || match (d.check, d.location) {
                (Check::Rule(id), Location::Cell { cell, other }) => vs@.contains(Violation { rule_id: id, subject: cell, other }),
                _ => false,
            }),
{
    let ghost o = ds@;
    let mut i: usize = 0;
    while i < vs.len()
        invariant
            i <= vs.len(),
            defects_sorted(ds@),
            forall|d: Defect|
                #[trigger] ds@.contains(d) <==> (o.contains(d) || match (d.check, d.location) {
                    (Check::Rule(id), Location::Cell { cell, other }) => vs@.take(i as int).contains(
                        Violation { rule_id: id, subject: cell, other },
                    ),
                    _ => false,
                }),
        decreases vs.len() - i,
    {
        let v = vs[i];
        let d = Defect { check: Check::Rule(v.rule_id), location: Location::Cell { cell: v.subject, other: v.other } };
        insert_defect(ds, d);
        proof {
            let t0 = vs@.take(i as int);
            let t1 = vs@.take(i + 1);
            assert(t1 =~= t0.push(v));
            assert forall|w: Violation| #[trigger] t1.contains(w) <==> (t0.contains(w) || w == v) by {
                if t1.contains(w) {
                    let q = choose|q: int| 0 <= q < t1.len() && t1[q] == w;
                    if q < i {
                        assert(t0[q] == w);
                    }
                }
                if t0.contains(w) {
                    let q = choose|q: int| 0 <= q < t0.len() && t0[q] == w;
                    assert(t1[q] == w);
                }
                if w == v {
                    assert(t1[i as int] == w);
                }
            }
        }
        i += 1;
    }
    proof {
        assert(vs@.take(vs.len() as int) =~= vs@);
    }
}

/// The player body's width in sub-cells, as the balance gives it.
pub open spec fn body_width(balance: Seq<BalanceSeed>) -> int {
    (spec_value(balance, "movement.player_body_width_subcells"@) as i32) as int
}

/// The player body's height in sub-cells, as the balance gives it.
pub open spec fn body_height(balance: Seq<BalanceSeed>) -> int {
    (spec_value(balance, "movement.player_body_height_subcells"@) as i32) as int
}

/// Every defect of a readable candidate against `site`: each of its rule
/// violations, and each walkability finding of each window.
pub open spec fn defect_of(c: Candidate, content: Content, site: PlacedSite, d: Defect) -> bool {
    ||| rule_defect(&site, content.rules.spec_rules(), d)
    ||| exists|k: int|
        0 <= k < c.floors@.len() && #[trigger] window_defect(
            c.floors@[k],
            c.placements@,
            content.objects@,
            body_width(content.balance@),
            body_height(content.balance@),
            d,
        )
}

/// Composes [`crate::rules::evaluate`] with the walkability checks over
/// `candidate`'s placed objects and returns every defect from every check,
/// sorted and deduplicated. Refuses a candidate produced against another
/// content version, and a block that cannot be read.
pub fn validate(candidate: &Candidate, content: &Content) -> (r: Result<Vec<Defect>, ValidationError>)
    requires
        footprints_fit(candidate.placements@, content.objects@),
        candidate.building_areas@.len() + candidate.room_areas@.len() < u64::MAX,
        forall|k: int|
            0 <= k < candidate.floors@.len() ==> raster_arith_ok(
                (#[trigger] candidate.floors@[k]).floor,
                candidate.placements@,
                content.objects@,
            ),
        has_key(content.balance@, "movement.player_body_width_subcells"@),
        has_key(content.balance@, "movement.player_body_height_subcells"@),
    ensures
        (candidate.defs_version@ != content.defs_version@) <==> (r matches Err(
            ValidationError::RuleSourceMismatch { .. },
        )),
        r matches Err(ValidationError::RuleSourceMismatch { expected, actual }) ==> expected == content.defs_version
            && actual@ == candidate.defs_version@,
        candidate.defs_version@ == content.defs_version@ ==> ((r matches Err(ValidationError::Unreadable(_))) <==> (
        !all_known(candidate.placements@, content.objects@) || exists|k: int|
            0 <= k < candidate.floors@.len() && !bits::grid_bounds_ok(
                (#[trigger] candidate.floors@[k]).bounds,
                MAX_SUBCELLS as int,
            ))),
        r matches Ok(ds) ==> {
            &&& defects_sorted(ds@)
            &&& exists|s: PlacedSite|
                #[trigger] placed_site_of(
                    &s,
                    candidate.placements@,
                    candidate.building_areas@,
                    candidate.room_areas@,
                    content.objects@,
                ) && forall|d: Defect| #[trigger] ds@.contains(d) <==> defect_of(*candidate, *content, s, d)
        },
{
    if !crate::defs::str_eq(candidate.defs_version, content.defs_version) {
        return Err(ValidationError::RuleSourceMismatch {
            expected: content.defs_version,
            actual: candidate.defs_version.to_owned(),
        });
    }
    let site = match PlacedSite::build(candidate.placements, candidate.building_areas, candidate.room_areas, content.objects) {
        Ok(s) => s,
        Err(e) => {
            return Err(ValidationError::Unreadable(e));
        },
    };
    let vs = crate::rules::evaluate(content.rules.rules(), &site);
    let mut ds: Vec<Defect> = Vec::new();
    add_violations(&mut ds, &vs);
    let (bw, bh) = player_body_subcells(content.balance);
    let ghost placements = candidate.placements@;
    let ghost objects = content.objects@;
    let mut k: usize = 0;
    while k < candidate.floors.len()
        invariant
            k <= candidate.floors.len(),
            candidate.defs_version@ == content.defs_version@,
            placements == candidate.placements@,
            objects == content.objects@,
            all_known(placements, objects),
            bw == body_width(content.balance@),
            bh == body_height(content.balance@),
            forall|q: int| 0 <= q < candidate.floors@.len() ==> raster_arith_ok((#[trigger] candidate.floors@[q]).floor, placements, objects),
            forall|q: int| 0 <= q < k ==> bits::grid_bounds_ok((#[trigger] candidate.floors@[q]).bounds, MAX_SUBCELLS as int),
            defects_sorted(ds@),
            forall|d: Defect|
                #[trigger] ds@.contains(d) <==> (rule_defect(&site, content.rules.spec_rules(), d) || exists|q: int|
                    0 <= q < k && #[trigger] window_defect(candidate.floors@[q], placements, objects, bw as int, bh as int, d)),
        decreases candidate.floors.len() - k,
    {
        let fw = candidate.floors[k];
        proof {
            assert(raster_arith_ok(candidate.floors@[k as int].floor, placements, objects));
            assert(all_defs_found(fw.floor, placements, objects)) by {
                assert forall|i: int| 0 <= i < placements.len() && (#[trigger] placements[i]).floor == fw.floor implies first_def(
                    objects,
                    placements[i].def_id,
                ) is Some by {}
            }
        }
        let grid = match rasterise(fw.bounds, fw.floor, candidate.placements, content.objects) {
            Ok(g) => g,
            Err(e) => {
                return Err(ValidationError::Unreadable(e));
            },
        };
        let ghost seed = (fw.seed_x as int, fw.seed_y as int);
        proof {
            let wp = window_pass(fw, placements, objects);
            assert((|x: int, y: int| grid.spec_passable(x, y)) =~= wp);
            assert(grid.spec_bounds() == fw.bounds);
            assert forall|x: int, y: int| #[trigger] spec_body_fits(grid, bw as int, bh as int, x, y) == window_fits(fw, placements, objects, bw as int, bh as int, x, y) by {
                if spec_body_fits(grid, bw as int, bh as int, x, y) {
                    assert forall|dx: int, dy: int| 0 <= dx < bw && 0 <= dy < bh implies !#[trigger] window_blocked(fw, placements, objects, x + dx, y + dy) by {
                        assert(!grid.spec_blocked(x + dx, y + dy));
                    }
                }
                if window_fits(fw, placements, objects, bw as int, bh as int, x, y) {
                    assert forall|dx: int, dy: int| 0 <= dx < bw && 0 <= dy < bh implies !#[trigger] grid.spec_blocked(x + dx, y + dy) by {
                        assert(!window_blocked(fw, placements, objects, x + dx, y + dy));
                    }
                }
            }
            assert(reachable_fit(grid, seed, bw as int, bh as int) =~= window_reach_fit(fw, placements, objects, bw as int, bh as int));
        }
        let enc = enclosed_regions(&grid, fw.seed_x, fw.seed_y);
        let ghost before = ds@;
        add_findings(&mut ds, Check::EnclosedRegion, fw.floor, &enc);
        let nar = narrow_passages(&grid, fw.seed_x, fw.seed_y, bw, bh);
        let ghost mid = ds@;
        add_findings(&mut ds, Check::NarrowPassage, fw.floor, &nar);
        proof {
            let wp = window_pass(fw, placements, objects);
            let wf = window_reach_fit(fw, placements, objects, bw as int, bh as int);
            assert(regions_report(fw.bounds, wp, seed, enc@));
            assert(regions_report(fw.bounds, wf, seed, nar@));
            assert forall|d: Defect|
                #[trigger] ds@.contains(d) <==> (rule_defect(&site, content.rules.spec_rules(), d) || exists|q: int|
                    0 <= q < k + 1 && #[trigger] window_defect(candidate.floors@[q], placements, objects, bw as int, bh as int, d)) by {
                let here = window_defect(fw, placements, objects, bw as int, bh as int, d);
                let from_enc = d.check == Check::EnclosedRegion && exists|i: int|
                    0 <= i < enc.len() && d.location == (Location::SubcellRect { floor: fw.floor, rect: (#[trigger] enc@[i]).bounds });
                let from_nar = d.check == Check::NarrowPassage && exists|i: int|
                    0 <= i < nar.len() && d.location == (Location::SubcellRect { floor: fw.floor, rect: (#[trigger] nar@[i]).bounds });
                assert(here == (from_enc || from_nar)) by {
                    if from_enc {
                        let i = choose|i: int| 0 <= i < enc.len() && d.location == (Location::SubcellRect { floor: fw.floor, rect: (#[trigger] enc@[i]).bounds });
                        assert(regions_report(fw.bounds, wp, seed, enc@) && 0 <= i < enc@.len() && enc@[i].bounds == enc@[i].bounds);
                    }
                    if from_nar {
                        let i = choose|i: int| 0 <= i < nar.len() && d.location == (Location::SubcellRect { floor: fw.floor, rect: (#[trigger] nar@[i]).bounds });
                        assert(regions_report(fw.bounds, wf, seed, nar@) && 0 <= i < nar@.len() && nar@[i].bounds == nar@[i].bounds);
                    }
                    if here {
                        match (d.check, d.location) {
                            (Check::EnclosedRegion, Location::SubcellRect { floor, rect }) => {
                                let r2 = choose|r2: Seq<Finding>| regions_report(fw.bounds, wp, seed, r2) && exists|i: int|
                                    0 <= i < r2.len() && (#[trigger] r2[i]).bounds == rect;
                                let i = choose|i: int| 0 <= i < r2.len() && (#[trigger] r2[i]).bounds == rect;
                                lemma_report_bounds(fw.bounds, wp, seed, r2, enc@, i);
                                let j = choose|j: int| 0 <= j < enc@.len() && (#[trigger] enc@[j]).bounds == r2[i].bounds;
                                assert(d.location == (Location::SubcellRect { floor: fw.floor, rect: enc@[j].bounds }));
                            },
                            (Check::NarrowPassage, Location::SubcellRect { floor, rect }) => {
                                let r2 = choose|r2: Seq<Finding>| regions_report(fw.bounds, wf, seed, r2) && exists|i: int|
                                    0 <= i < r2.len() && (#[trigger] r2[i]).bounds == rect;
                                let i = choose|i: int| 0 <= i < r2.len() && (#[trigger] r2[i]).bounds == rect;
                                lemma_report_bounds(fw.bounds, wf, seed, r2, nar@, i);
                                let j = choose|j: int| 0 <= j < nar@.len() && (#[trigger] nar@[j]).bounds == r2[i].bounds;
                                assert(d.location == (Location::SubcellRect { floor: fw.floor, rect: nar@[j].bounds }));
                            },
                            _ => {},
                        }
                    }
                }
                if exists|q: int| 0 <= q < k + 1 && #[trigger] window_defect(candidate.floors@[q], placements, objects, bw as int, bh as int, d) {
                    let q = choose|q: int| 0 <= q < k + 1 && #[trigger] window_defect(candidate.floors@[q], placements, objects, bw as int, bh as int, d);
                    if q < k {
                        assert(exists|q2: int| 0 <= q2 < k && #[trigger] window_defect(candidate.floors@[q2], placements, objects, bw as int, bh as int, d));
                    }
                }
                if here {
                    assert(window_defect(candidate.floors@[k as int], placements, objects, bw as int, bh as int, d));
                }
            }
        }
        k += 1;
    }
    proof {
        assert(placed_site_of(&site, candidate.placements@, candidate.building_areas@, candidate.room_areas@, content.objects@));
        assert forall|d: Defect| #[trigger] ds@.contains(d) <==> defect_of(*candidate, *content, site, d) by {
            match (d.check, d.location) {
                (Check::Rule(id), Location::Cell { cell, other }) => {
                    assert(vs@.contains(Violation { rule_id: id, subject: cell, other }) == flagged(&site, content.rules.spec_rules(), Violation { rule_id: id, subject: cell, other }));
                },
                _ => {},
            }
        }
    }
    Ok(ds)
}

} // verus!
