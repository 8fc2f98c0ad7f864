//! The generic rule engine: one evaluator over one rule table. A rule
//! never names content: it carries tag ids and integers, in five closed
//! kinds (Placement, Distribution, Coherence, Adjacency, Requirement).
//! [`RuleSite`] is the one seam between this engine and whatever holds
//! real geometry: which tags a cell carries, which areas contain it, and
//! which cells of a tag an area (or the whole site) holds.

use vstd::prelude::*;

pub mod source;
pub mod testing;
pub mod spread;

verus! {

/// A tag's resolved numeric id -- the only vocabulary a rule carries.
pub type TagId = u32;

/// An area's id, opaque to this module.
pub type AreaId = u64;

/// `(x, y, floor)` addressing. Ordered by `x`, then `y`, then `floor`.
#[derive(Debug, Clone, Copy, PartialEq, Eq, PartialOrd, Ord, Hash, Structural)]
pub struct Cell {
    pub x: i32,
    pub y: i32,
    pub floor: i8,
}

impl Cell {
    pub fn new(x: i32, y: i32, floor: i8) -> (c: Self)
        ensures
            c == (Cell { x, y, floor }),
    {
        Cell { x, y, floor }
    }
}

/// `a` sorts strictly before `b`: by `x`, then `y`, then `floor`.
pub open spec fn cell_lt(a: Cell, b: Cell) -> bool {
    a.x < b.x || (a.x == b.x && (a.y < b.y || (a.y == b.y && a.floor < b.floor)))
}

pub fn cell_lt_exec(a: Cell, b: Cell) -> (r: bool)
    ensures
        r == cell_lt(a, b),
{
    a.x < b.x || (a.x == b.x && (a.y < b.y || (a.y == b.y && a.floor < b.floor)))
}

/// One of the four same-floor neighbours. South is `y + 1`.
#[derive(Debug, Clone, Copy, PartialEq, Eq, Structural)]
pub enum Direction {
    North,
    East,
    South,
    West,
}

/// The neighbour of `c` one cell towards `d`, same floor, each coordinate
/// wrapping at the numeric edge.
pub open spec fn spec_step(d: Direction, c: Cell) -> Cell {
    match d {
        Direction::North => Cell { x: c.x, y: c.y.wrapping_add(-1i32), floor: c.floor },
        Direction::East => Cell { x: c.x.wrapping_add(1i32), y: c.y, floor: c.floor },
        Direction::South => Cell { x: c.x, y: c.y.wrapping_add(1i32), floor: c.floor },
        Direction::West => Cell { x: c.x.wrapping_add(-1i32), y: c.y, floor: c.floor },
    }
}

impl Direction {
    /// Steps `cell` one cell in this direction, same floor; total over
    /// every input (`wrapping_add` at the numeric edge).
    pub fn step(self, cell: Cell) -> (r: Cell)
        ensures
            r == spec_step(self, cell),
    {
        match self {
            Direction::North => Cell { x: cell.x, y: cell.y.wrapping_add(-1i32), floor: cell.floor },
            Direction::East => Cell { x: cell.x.wrapping_add(1i32), y: cell.y, floor: cell.floor },
            Direction::South => Cell { x: cell.x, y: cell.y.wrapping_add(1i32), floor: cell.floor },
            Direction::West => Cell { x: cell.x.wrapping_add(-1i32), y: cell.y, floor: cell.floor },
        }
    }
}

/// The seam between this engine and real geometry: three questions over
/// integers, each answered in the model by a spec function.
pub trait RuleSite {
    /// Every tag `cell` carries.
    spec fn site_tags(&self, cell: Cell) -> Seq<TagId>;

    /// Every real area that contains `cell`.
    spec fn site_areas(&self, cell: Cell) -> Seq<AreaId>;

    /// The cells tagged `tag`, within `area` when given, or the whole site.
    spec fn site_subjects(&self, area: Option<AreaId>, tag: TagId) -> Seq<Cell>;

    fn tags_at(&self, cell: Cell) -> (r: &[TagId])
        ensures
            r@ == self.site_tags(cell),
    ;

    fn areas_containing(&self, cell: Cell) -> (r: &[AreaId])
        ensures
            r@ == self.site_areas(cell),
    ;

    fn subjects_in_area(&self, area: Option<AreaId>, tag: TagId) -> (r: &[Cell])
        ensures
            r@ == self.site_subjects(area, tag),
    ;
}

/// `mode` on a coherence row.
#[derive(Debug, Clone, Copy, PartialEq, Eq, Structural)]
pub enum CoherenceMode {
    /// `subject` may only appear within a real area that also contains
    /// `within`.
    Allow,
    /// `subject` may never appear within a real area that also contains
    /// `within`.
    Forbid,
}

/// `relation` on an adjacency row.
#[derive(Debug, Clone, Copy, PartialEq, Eq, Structural)]
pub enum AdjacencyRelation {
    Forbid,
    Require,
}

/// One term of an adjacency alternative: `direction`'s neighbour must
/// (`present`) or must not carry `tag`.
#[derive(Debug, Clone, Copy, PartialEq, Eq, Structural)]
pub struct NeighbourTerm {
    pub direction: Direction,
    pub tag: TagId,
    pub present: bool,
}

/// The closed set of five constraint kinds.
#[derive(Debug, Clone, Copy)]
pub enum RuleKind {
    /// `subject` only within `[floor_min, floor_max]`; with a `container`,
    /// only checked on cells in a real area that also holds `container`.
    Placement { subject: TagId, container: Option<TagId>, floor_min: Option<i8>, floor_max: Option<i8> },
    /// `subject` at one per `ratio` of `per` within `tolerance_percent`
    /// (rounded up); no two `subject` cells closer than `min_spacing`
    /// (Chebyshev, same floor) when it is positive; every `per` cell
    /// within `max_distance` of some `subject` cell.
    Distribution {
        subject: TagId,
        per: TagId,
        ratio: u32,
        tolerance_percent: u32,
        min_spacing: u32,
        max_distance: u32,
    },
    /// Whether `subject` may (`Allow`) or may never (`Forbid`) appear in a
    /// real area that also holds `within`.
    Coherence { subject: TagId, within: TagId, mode: CoherenceMode },
    /// Whether every `a` cell must (`Require`) or must never (`Forbid`)
    /// have a neighbourhood matching one of `alternatives`.
    Adjacency { a: TagId, relation: AdjacencyRelation, alternatives: &'static [&'static [NeighbourTerm]] },
    /// Every real area holding a `container` cell holds between `min` and
    /// `max` `requires` cells; a `container` cell in no area at all
    /// violates.
    Requirement { container: TagId, requires: TagId, min: u32, max: Option<u32> },
}

/// One rule row: its permanent id and key, and its kind.
#[derive(Debug, Clone, Copy)]
pub struct RuleDef {
    pub id: u32,
    pub key: &'static str,
    pub kind: RuleKind,
}

/// One rejection: the rule, the offending cell, and for an adjacency
/// `Forbid` the matched neighbour.
#[derive(Debug, Clone, Copy, PartialEq, Eq, PartialOrd, Ord, Structural)]
pub struct Violation {
    pub rule_id: u32,
    pub subject: Cell,
    pub other: Option<Cell>,
}

/// The order `evaluate` reports in: by rule id, then subject, then the
/// other cell (`None` first).
pub open spec fn violation_lt(a: Violation, b: Violation) -> bool {
    a.rule_id < b.rule_id || (a.rule_id == b.rule_id && (cell_lt(a.subject, b.subject) || (
    a.subject == b.subject && match (a.other, b.other) {
        (None, Some(_)) => true,
        (Some(p), Some(q)) => cell_lt(p, q),
        _ => false,
    })))
}

fn violation_lt_exec(a: &Violation, b: &Violation) -> (r: bool)
    ensures
        r == violation_lt(*a, *b),
{
    if a.rule_id != b.rule_id {
        return a.rule_id < b.rule_id;
    }
    if a.subject != b.subject {
        return cell_lt_exec(a.subject, b.subject);
    }
    match (a.other, b.other) {
        (None, Some(_)) => true,
        (Some(p), Some(q)) => cell_lt_exec(p, q),
        _ => false,
    }
}

/// Strictly increasing in [`violation_lt`]: sorted, no repeats.
pub open spec fn strictly_sorted(s: Seq<Violation>) -> bool {
    forall|i: int, j: int| 0 <= i < j < s.len() ==> violation_lt(#[trigger] s[i], #[trigger] s[j])
}

/// Adds `v` to a strictly sorted vector, keeping it strictly sorted.
fn insert_sorted(out: &mut Vec<Violation>, v: Violation)
    requires
        strictly_sorted(old(out)@),
    ensures
        strictly_sorted(final(out)@),
        forall|w: Violation| #[trigger] final(out)@.contains(w) <==> (old(out)@.contains(w) || w == v),
{
    let mut p: usize = 0;
    while p < out.len() && violation_lt_exec(&out[p], &v)
        invariant
            p <= out.len(),
            forall|j: int| 0 <= j < p ==> violation_lt(#[trigger] out@[j], v),
        decreases out.len() - p,
    {
        p += 1;
    }
    if p < out.len() && out[p] == v {
        return;
    }
    let ghost o = out@;
    proof {
        if p < o.len() {
            assert(violation_lt(v, o[p as int]));
            assert forall|j: int| p <= j < o.len() implies violation_lt(v, #[trigger] o[j]) by {
                if j > p {
                    assert(violation_lt(o[p as int], o[j]));
                }
            }
        }
    }
    out.insert(p, v);
    proof {
        assert forall|j: int| 0 <= j < out.len() implies #[trigger] out@[j] == if j < p {
            o[j]
        } else if j == p {
            v
        } else {
            o[j - 1]
        } by {}
        assert forall|i: int, j: int| 0 <= i < j < out.len() implies violation_lt(#[trigger] out@[i], #[trigger] out@[j]) by {
            if j < p {
            } else if j == p {
            } else if i < p {
                assert(violation_lt(o[i], o[j - 1]));
            } else if i == p {
            } else {
                assert(violation_lt(o[i - 1], o[j - 1]));
            }
        }
        assert forall|w: Violation| #[trigger] out@.contains(w) <==> (o.contains(w) || w == v) by {
            if o.contains(w) {
                let j = choose|j: int| 0 <= j < o.len() && o[j] == w;
                if j < p {
                    assert(out@[j] == w);
                } else {
                    assert(out@[j + 1] == w);
                }
            }
            if w == v {
                assert(out@[p as int] == w);
            }
            if out@.contains(w) {
                let j = choose|j: int| 0 <= j < out.len() && out@[j] == w;
                if j < p {
                    assert(o[j] == w);
                } else if j > p {
                    assert(o[j - 1] == w);
                }
            }
        }
    }
}

/// Some real area containing `cell` also holds a `tag` cell.
pub open spec fn area_holds<S: RuleSite>(site: &S, cell: Cell, tag: TagId) -> bool {
    exists|j: int|
        0 <= j < site.site_areas(cell).len() && #[trigger] site.site_subjects(Some(site.site_areas(cell)[j]), tag).len() > 0
}

fn area_holds_exec<S: RuleSite>(site: &S, cell: Cell, tag: TagId) -> (r: bool)
    ensures
        r == area_holds(site, cell, tag),
{
    let areas = site.areas_containing(cell);
    let mut j: usize = 0;
    while j < areas.len()
        invariant
            areas@ == site.site_areas(cell),
            j <= areas.len(),
            forall|k: int| 0 <= k < j ==> #[trigger] site.site_subjects(Some(areas@[k]), tag).len() == 0,
        decreases areas.len() - j,
    {
        let subs = site.subjects_in_area(Some(areas[j]), tag);
        if subs.len() > 0 {
            proof {
                assert(site.site_subjects(Some(site.site_areas(cell)[j as int]), tag).len() > 0);
            }
            return true;
        }
        j += 1;
    }
    false
}

/// The cells a placement row flags.
pub open spec fn placement_flags<S: RuleSite>(
    site: &S,
    subject: TagId,
    container: Option<TagId>,
    floor_min: Option<i8>,
    floor_max: Option<i8>,
    c: Cell,
) -> bool {
    &&& site.site_subjects(None, subject).contains(c)
    &&& (container matches Some(t) ==> area_holds(site, c, t))
    &&& ((floor_min matches Some(m) && c.floor < m) || (floor_max matches Some(m) && c.floor > m))
}

/// The cells a coherence row flags.
pub open spec fn coherence_flags<S: RuleSite>(site: &S, subject: TagId, within: TagId, mode: CoherenceMode, c: Cell) -> bool {
    &&& site.site_subjects(None, subject).contains(c)
    &&& match mode {
        CoherenceMode::Forbid => area_holds(site, c, within),
        CoherenceMode::Allow => !area_holds(site, c, within),
    }
}

/// Every term of `alt` holds around `c`.
pub open spec fn alt_matches<S: RuleSite>(site: &S, alt: Seq<NeighbourTerm>, c: Cell) -> bool {
    forall|t: int|
        0 <= t < alt.len() ==> site.site_tags(spec_step((#[trigger] alt[t]).direction, c)).contains(alt[t].tag)
            == alt[t].present
}

/// The neighbour an alternative names first, if it has a term.
pub open spec fn first_neighbour(alt: Seq<NeighbourTerm>, c: Cell) -> Option<Cell> {
    if alt.len() > 0 {
        Some(spec_step(alt[0].direction, c))
    } else {
        None
    }
}

/// The violations an adjacency row yields at an `a` cell `v.subject`.
pub open spec fn adjacency_flags<S: RuleSite>(
    site: &S,
    a: TagId,
    relation: AdjacencyRelation,
    alts: Seq<&'static [NeighbourTerm]>,
    v: Violation,
) -> bool {
    &&& site.site_subjects(None, a).contains(v.subject)
    &&& match relation {
        AdjacencyRelation::Require => v.other is None && !exists|k: int|
            0 <= k < alts.len() && #[trigger] alt_matches(site, alts[k]@, v.subject),
        AdjacencyRelation::Forbid => exists|k: int|
            0 <= k < alts.len() && #[trigger] alt_matches(site, alts[k]@, v.subject) && v.other == first_neighbour(
                alts[k]@,
                v.subject,
            ),
    }
}

/// Some real area containing `c` holds a number of `requires` cells
/// outside `[min, max]`.
pub open spec fn area_count_fails<S: RuleSite>(site: &S, c: Cell, req: TagId, min: u32, max: Option<u32>) -> bool {
    exists|j: int|
        0 <= j < site.site_areas(c).len() && {
            let n = (#[trigger] site.site_subjects(Some(site.site_areas(c)[j]), req)).len() as u32;
            n < min || (max matches Some(m) && n > m)
        }
}

/// The cells a requirement row flags.
pub open spec fn requirement_flags<S: RuleSite>(site: &S, container: TagId, req: TagId, min: u32, max: Option<u32>, c: Cell) -> bool {
    &&& site.site_subjects(None, container).contains(c)
    &&& (site.site_areas(c).len() == 0 || area_count_fails(site, c, req, min, max))
}

/// The ratio half of a distribution row: with `per` cells present, a
/// `subject` count outside `expected +- tolerance` flags one anchor cell,
/// the first subject (or, with none, the first `per` cell).
pub open spec fn ratio_flags(subjects: Seq<Cell>, per: Seq<Cell>, ratio: u32, tolerance_percent: u32, c: Cell) -> bool {
    let basis = per.len() as int;
    let expected = basis / (if ratio == 0 { 1 } else { ratio as int });
    let tolerance = (expected * tolerance_percent + 99) / 100;
    let lower = if expected >= tolerance { expected - tolerance } else { 0 };
    let upper = expected + tolerance;
    &&& basis > 0
    &&& (subjects.len() < lower || subjects.len() > upper)
    &&& c == if subjects.len() > 0 { subjects[0] } else { per[0] }
}

/// The cells a distribution row flags.
pub open spec fn distribution_flags<S: RuleSite>(
    site: &S,
    subject: TagId,
    per: TagId,
    ratio: u32,
    tolerance_percent: u32,
    min_spacing: u32,
    max_distance: u32,
    c: Cell,
) -> bool {
    let subjects = site.site_subjects(None, subject);
    let pers = site.site_subjects(None, per);
    ||| ratio_flags(subjects, pers, ratio, tolerance_percent, c)
    ||| spread::spacing_flags(subjects, min_spacing, c)
    ||| spread::coverage_flags(subjects, pers, max_distance, c)
}

/// Whether `rule` yields violation `v` on `site`.
pub open spec fn rule_flags<S: RuleSite>(site: &S, rule: RuleDef, v: Violation) -> bool {
    &&& v.rule_id == rule.id
    &&& match rule.kind {
        RuleKind::Placement { subject, container, floor_min, floor_max } => v.other is None && placement_flags(
            site,
            subject,
            container,
            floor_min,
            floor_max,
            v.subject,
        ),
        RuleKind::Distribution { subject, per, ratio, tolerance_percent, min_spacing, max_distance } => v.other is None
            && distribution_flags(site, subject, per, ratio, tolerance_percent, min_spacing, max_distance, v.subject),
        RuleKind::Coherence { subject, within, mode } => v.other is None && coherence_flags(
            site,
            subject,
            within,
            mode,
            v.subject,
        ),
        RuleKind::Adjacency { a, relation, alternatives } => adjacency_flags(site, a, relation, alternatives@, v),
        RuleKind::Requirement { container, requires: req, min, max } => v.other is None && requirement_flags(
            site,
            container,
            req,
            min,
            max,
            v.subject,
        ),
    }
}

/// Whether some rule of `rules` yields violation `v` on `site`.
pub open spec fn flagged<S: RuleSite>(site: &S, rules: Seq<RuleDef>, v: Violation) -> bool {
    exists|i: int| 0 <= i < rules.len() && #[trigger] rule_flags(site, rules[i], v)
}

fn contains_tag(tags: &[TagId], t: TagId) -> (r: bool)
    ensures
        r == tags@.contains(t),
{
    let mut i: usize = 0;
    while i < tags.len()
        invariant
            i <= tags.len(),
            forall|j: int| 0 <= j < i ==> tags@[j] != t,
        decreases tags.len() - i,
    {
        if tags[i] == t {
            return true;
        }
        i += 1;
    }
    false
}

fn alt_matches_exec<S: RuleSite>(site: &S, alt: &[NeighbourTerm], cell: Cell) -> (r: bool)
    ensures
        r == alt_matches(site, alt@, cell),
{
    let mut t: usize = 0;
    while t < alt.len()
        invariant
            t <= alt.len(),
            forall|u: int|
                0 <= u < t ==> site.site_tags(spec_step((#[trigger] alt@[u]).direction, cell)).contains(alt@[u].tag)
                    == alt@[u].present,
        decreases alt.len() - t,
    {
        let term = alt[t];
        let tags = site.tags_at(term.direction.step(cell));
        if contains_tag(tags, term.tag) != term.present {
            return false;
        }
        t += 1;
    }
    true
}

/// Adds every violation `rule` yields on `site`.
fn add_rule<S: RuleSite>(out: &mut Vec<Violation>, rule: &RuleDef, site: &S)
    requires
        strictly_sorted(old(out)@),
    ensures
        strictly_sorted(final(out)@),
        forall|w: Violation| #[trigger] final(out)@.contains(w) <==> (old(out)@.contains(w) || rule_flags(site, *rule, w)),
{
    let ghost o = out@;
    let id = rule.id;
    match rule.kind {
        RuleKind::Placement { subject, container, floor_min, floor_max } => {
            let cells = site.subjects_in_area(None, subject);
            let mut i: usize = 0;
            while i < cells.len()
                invariant
                    cells@ == site.site_subjects(None, subject),
                    i <= cells.len(),
                    strictly_sorted(out@),
                    forall|w: Violation|
                        #[trigger] out@.contains(w) <==> (o.contains(w) || (w.rule_id == id && w.other is None
                            && cells@.take(i as int).contains(w.subject) && placement_flags(
                            site,
                            subject,
                            container,
                            floor_min,
                            floor_max,
                            w.subject,
                        ))),
                decreases cells.len() - i,
            {
                let cell = cells[i];
                let scoped = match container {
                    Some(t) => area_holds_exec(site, cell, t),
                    None => true,
                };
                let below = match floor_min {
                    Some(m) => cell.floor < m,
                    None => false,
                };
                let above = match floor_max {
                    Some(m) => cell.floor > m,
                    None => false,
                };
                if scoped && (below || above) {
                    insert_sorted(out, Violation { rule_id: id, subject: cell, other: None });
                }
                proof {
                    lemma_take_push(cells@, i as int);
                    assert(cells@.contains(cell));
                }
                i += 1;
            }
            proof {
                assert(cells@.take(cells.len() as int) =~= cells@);
            }
        },
        RuleKind::Distribution { subject, per, ratio, tolerance_percent, min_spacing, max_distance } => {
            let subjects = site.subjects_in_area(None, subject);
            let per_cells = site.subjects_in_area(None, per);
            let basis = per_cells.len() as u128;
            if basis > 0 {
                let actual = subjects.len() as u128;
                let r: u128 = if ratio == 0 {
                    1
                } else {
                    ratio as u128
                };
                let expected = basis / r;
                proof {
                    assert(expected <= basis) by (nonlinear_arith)
                        requires
                            r >= 1,
                            expected == basis / r,
                    ;
                    assert(expected * tolerance_percent <= 0x1_0000_0000_0000_0000 * 0x1_0000_0000) by (nonlinear_arith)
                        requires
                            expected <= 0x1_0000_0000_0000_0000,
                            tolerance_percent <= 0x1_0000_0000,
                    ;
                }
                let tolerance = (expected * tolerance_percent as u128 + 99) / 100;
                let lower = if expected >= tolerance {
                    expected - tolerance
                } else {
                    0
                };
                let upper = expected + tolerance;
                if actual < lower || actual > upper {
                    let anchor = if subjects.len() > 0 {
                        subjects[0]
                    } else {
                        per_cells[0]
                    };
                    insert_sorted(out, Violation { rule_id: id, subject: anchor, other: None });
                }
            }
            let ghost o1 = out@;
            spread::distribution_spacing_violations(out, id, subjects, min_spacing);
            let ghost o2 = out@;
            spread::distribution_coverage_violations(out, id, subjects, per_cells, max_distance);
            proof {
                assert forall|w: Violation| #[trigger] out@.contains(w) <==> (o.contains(w) || rule_flags(site, *rule, w)) by {
                    assert(o2.contains(w) <==> (o1.contains(w) || (w.rule_id == id && w.other is None
                        && spread::spacing_flags(subjects@, min_spacing, w.subject))));
                    assert(o1.contains(w) <==> (o.contains(w) || (w.rule_id == id && w.other is None
                        && ratio_flags(subjects@, per_cells@, ratio, tolerance_percent, w.subject))));
                }
            }
        },
        RuleKind::Coherence { subject, within, mode } => {
            let cells = site.subjects_in_area(None, subject);
            let mut i: usize = 0;
            while i < cells.len()
                invariant
                    cells@ == site.site_subjects(None, subject),
                    i <= cells.len(),
                    strictly_sorted(out@),
                    forall|w: Violation|
                        #[trigger] out@.contains(w) <==> (o.contains(w) || (w.rule_id == id && w.other is None
                            && cells@.take(i as int).contains(w.subject) && coherence_flags(
                            site,
                            subject,
                            within,
                            mode,
                            w.subject,
                        ))),
                decreases cells.len() - i,
            {
                let cell = cells[i];
                let present = area_holds_exec(site, cell, within);
                let violated = match mode {
                    CoherenceMode::Forbid => present,
                    CoherenceMode::Allow => !present,
                };
                if violated {
                    insert_sorted(out, Violation { rule_id: id, subject: cell, other: None });
                }
                proof {
                    lemma_take_push(cells@, i as int);
                    assert(cells@.contains(cell));
                }
                i += 1;
            }
            proof {
                assert(cells@.take(cells.len() as int) =~= cells@);
            }
        },
        RuleKind::Adjacency { a, relation, alternatives } => {
            let cells = site.subjects_in_area(None, a);
            let mut i: usize = 0;
            while i < cells.len()
                invariant
                    cells@ == site.site_subjects(None, a),
                    i <= cells.len(),
                    strictly_sorted(out@),
                    forall|w: Violation|
                        #[trigger] out@.contains(w) <==> (o.contains(w) || (w.rule_id == id
                            && cells@.take(i as int).contains(w.subject) && adjacency_flags(
                            site,
                            a,
                            relation,
                            alternatives@,
                            w,
                        ))),
                decreases cells.len() - i,
            {
                let cell = cells[i];
                let ghost before = out@;
                match relation {
                    AdjacencyRelation::Require => {
                        let mut k: usize = 0;
                        let mut satisfied = false;
                        while k < alternatives.len()
                            invariant
                                k <= alternatives.len(),
                                satisfied == exists|q: int| 0 <= q < k && #[trigger] alt_matches(site, alternatives@[q]@, cell),
                            decreases alternatives.len() - k,
                        {
                            if alt_matches_exec(site, alternatives[k], cell) {
                                satisfied = true;
                            }
                            k += 1;
                        }
                        if !satisfied {
                            insert_sorted(out, Violation { rule_id: id, subject: cell, other: None });
                        }
                    },
                    AdjacencyRelation::Forbid => {
                        let mut k: usize = 0;
                        while k < alternatives.len()
                            invariant
                                k <= alternatives.len(),
                                strictly_sorted(out@),
                                forall|w: Violation|
                                    #[trigger] out@.contains(w) <==> (before.contains(w) || (w.rule_id == id && w.subject == cell
                                        && exists|q: int|
                                        0 <= q < k && #[trigger] alt_matches(site, alternatives@[q]@, cell) && w.other
                                            == first_neighbour(alternatives@[q]@, cell))),
                            decreases alternatives.len() - k,
                        {
                            let alt = alternatives[k];
                            if alt_matches_exec(site, alt, cell) {
                                let other = if alt.len() > 0 {
                                    Some(alt[0].direction.step(cell))
                                } else {
                                    None
                                };
                                insert_sorted(out, Violation { rule_id: id, subject: cell, other });
                                proof {
                                    assert(other == first_neighbour(alternatives@[k as int]@, cell));
                                }
                            }
                            k += 1;
                        }
                    },
                }
                proof {
                    lemma_take_push(cells@, i as int);
                    assert(cells@.contains(cell));
                }
                i += 1;
            }
            proof {
                assert(cells@.take(cells.len() as int) =~= cells@);
            }
        },
        RuleKind::Requirement { container, requires: req, min, max } => {
            let cells = site.subjects_in_area(None, container);
            let mut i: usize = 0;
            while i < cells.len()
                invariant
                    cells@ == site.site_subjects(None, container),
                    i <= cells.len(),
                    strictly_sorted(out@),
                    forall|w: Violation|
                        #[trigger] out@.contains(w) <==> (o.contains(w) || (w.rule_id == id && w.other is None
                            && cells@.take(i as int).contains(w.subject) && requirement_flags(
                            site,
                            container,
                            req,
                            min,
                            max,
                            w.subject,
                        ))),
                decreases cells.len() - i,
            {
                let cell = cells[i];
                let areas = site.areas_containing(cell);
                let mut fails = areas.len() == 0;
                let mut j: usize = 0;
                while j < areas.len()
                    invariant
                        areas@ == site.site_areas(cell),
                        j <= areas.len(),
                        fails == (areas.len() == 0 || exists|q: int|
                            0 <= q < j && {
                                let n = (#[trigger] site.site_subjects(Some(areas@[q]), req)).len() as u32;
                                n < min || (max matches Some(m) && n > m)
                            }),
                    decreases areas.len() - j,
                {
                    let count = site.subjects_in_area(Some(areas[j]), req).len() as u32;
                    let over = match max {
                        Some(m) => count > m,
                        None => false,
                    };
                    if count < min || over {
                        fails = true;
                    }
                    j += 1;
                }
                if fails {
                    insert_sorted(out, Violation { rule_id: id, subject: cell, other: None });
                }
                proof {
                    lemma_take_push(cells@, i as int);
                    assert(cells@.contains(cell));
                }
                i += 1;
            }
            proof {
                assert(cells@.take(cells.len() as int) =~= cells@);
            }
        },
    }
}

proof fn lemma_take_push(s: Seq<Cell>, i: int)
    requires
        0 <= i < s.len(),
    ensures
        s.take(i + 1) == s.take(i).push(s[i]),
        forall|c: Cell| #[trigger] s.take(i + 1).contains(c) <==> (s.take(i).contains(c) || c == s[i]),
{
    assert(s.take(i + 1) =~= s.take(i).push(s[i]));
    let a = s.take(i + 1);
    let b = s.take(i);
    assert forall|c: Cell| #[trigger] a.contains(c) <==> (b.contains(c) || c == s[i]) by {
        if a.contains(c) {
            let k = choose|k: int| 0 <= k < a.len() && #[trigger] a[k] == c;
            if k < i {
                assert(b[k] == c);
            }
        }
        if b.contains(c) {
            let k = choose|k: int| 0 <= k < b.len() && #[trigger] b[k] == c;
            assert(a[k] == c);
        }
        if c == s[i] {
            assert(a[i] == c);
        }
    }
}

/// Runs every rule against `site` and returns every distinct violation,
/// sorted by rule id, then subject, then the other cell. Never stops
/// early: a rule that fails on ten cells reports all ten.
pub fn evaluate<S: RuleSite>(rules: &[RuleDef], site: &S) -> (r: Vec<Violation>)
    ensures
        strictly_sorted(r@),
        forall|v: Violation| #[trigger] r@.contains(v) <==> flagged(site, rules@, v),
{
    let mut out: Vec<Violation> = Vec::new();
    let mut i: usize = 0;
    while i < rules.len()
        invariant
            i <= rules.len(),
            strictly_sorted(out@),
            forall|v: Violation| #[trigger] out@.contains(v) <==> flagged(site, rules@.take(i as int), v),
        decreases rules.len() - i,
    {
        let ghost before = out@;
        add_rule(&mut out, &rules[i], site);
        proof {
            let t0 = rules@.take(i as int);
            let t1 = rules@.take(i + 1);
            assert forall|v: Violation| #[trigger] out@.contains(v) <==> flagged(site, t1, v) by {
                if flagged(site, t1, v) {
                    let k = choose|k: int| 0 <= k < t1.len() && #[trigger] rule_flags(site, t1[k], v);
                    if k < i {
                        assert(t0[k] == t1[k]);
                        assert(rule_flags(site, t0[k], v));
                    } else {
                        assert(t1[k] == rules@[i as int]);
                    }
                }
                if before.contains(v) {
                    let k = choose|k: int| 0 <= k < t0.len() && #[trigger] rule_flags(site, t0[k], v);
                    assert(t1[k] == t0[k]);
                    assert(rule_flags(site, t1[k], v));
                }
                if rule_flags(site, rules@[i as int], v) {
                    assert(t1[i as int] == rules@[i as int]);
                }
            }
        }
        i += 1;
    }
    proof {
        assert(rules@.take(rules.len() as int) =~= rules@);
    }
    out
}

} // verus!
