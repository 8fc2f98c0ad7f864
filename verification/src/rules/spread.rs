//! The distribution kind's spacing and coverage checks, over spatial
//! buckets: a cell is compared only with cells in the 3x3 neighbourhood
//! of its own bucket, never with every other cell.

use vstd::prelude::*;
use std::collections::BTreeMap;
use super::{Cell, Violation, strictly_sorted, insert_sorted};

verus! {

/// Chebyshev distance over `x` and `y`.
pub open spec fn chebyshev(a: Cell, b: Cell) -> int {
    let dx = if a.x >= b.x { a.x - b.x } else { b.x - a.x };
    let dy = if a.y >= b.y { a.y - b.y } else { b.y - a.y };
    if dx >= dy { dx } else { dy }
}

/// Same floor, and within `dist` (strictly below it when `strict`).
pub open spec fn close(a: Cell, b: Cell, dist: int, strict: bool) -> bool {
    a.floor == b.floor && if strict {
        chebyshev(a, b) < dist
    } else {
        chebyshev(a, b) <= dist
    }
}

/// Some cell before index `i` of `s` is close to `c`.
pub open spec fn close_before(s: Seq<Cell>, i: int, c: Cell, dist: int, strict: bool) -> bool {
    exists|j: int| 0 <= j < i && #[trigger] close(s[j], c, dist, strict)
}

/// A bucket's edge: `radius` cells, at least one.
pub open spec fn side(radius: u32) -> int {
    if radius == 0 {
        1
    } else {
        radius as int
    }
}

/// The bucket a cell falls in.
pub open spec fn bucket(c: Cell, radius: u32) -> (i8, i64, i64) {
    (c.floor, (c.x as int / side(radius)) as i64, (c.y as int / side(radius)) as i64)
}

/// The buckets hold exactly the first `i` cells of `s`, each under its
/// own bucket.
pub open spec fn buckets_ok(m: Map<(i8, i64, i64), Vec<Cell>>, s: Seq<Cell>, i: int, radius: u32) -> bool {
    &&& forall|k: (i8, i64, i64), t: int|
        #![trigger m[k]@[t]]
        m.contains_key(k) && 0 <= t < m[k]@.len() ==> exists|j: int|
            0 <= j < i && #[trigger] s[j] == m[k]@[t] && bucket(s[j], radius) == k
    &&& forall|j: int|
        0 <= j < i ==> m.contains_key(bucket(#[trigger] s[j], radius)) && m[bucket(s[j], radius)]@.contains(s[j])
}

/// A bucket coordinate stays within `i32`'s range.
proof fn lemma_bucket_range(c: Cell, radius: u32)
    ensures
        -0x8000_0000 <= c.x as int / side(radius) <= 0x7fff_ffff,
        -0x8000_0000 <= c.y as int / side(radius) <= 0x7fff_ffff,
        bucket(c, radius).1 == c.x as int / side(radius),
        bucket(c, radius).2 == c.y as int / side(radius),
{
    vstd::arithmetic::div_mod::lemma_div_is_ordered(-0x8000_0000, c.x as int, side(radius));
    vstd::arithmetic::div_mod::lemma_div_is_ordered(c.x as int, 0x7fff_ffff, side(radius));
    vstd::arithmetic::div_mod::lemma_div_is_ordered(-0x8000_0000, c.y as int, side(radius));
    vstd::arithmetic::div_mod::lemma_div_is_ordered(c.y as int, 0x7fff_ffff, side(radius));
    assert(-0x8000_0000int / side(radius) >= -0x8000_0000) by (nonlinear_arith)
        requires
            side(radius) >= 1,
    {
        vstd::arithmetic::div_mod::lemma_div_is_ordered_by_denominator(0x8000_0000, 1, side(radius));
        vstd::arithmetic::div_mod::lemma_fundamental_div_mod(-0x8000_0000, side(radius));
        vstd::arithmetic::div_mod::lemma_mod_bound(-0x8000_0000, side(radius));
    }
    assert(0x7fff_ffffint / side(radius) <= 0x7fff_ffff) by {
        vstd::arithmetic::div_mod::lemma_div_is_ordered_by_denominator(0x7fff_ffff, 1, side(radius));
    }
}

fn bucket_of(cell: Cell, radius: u32) -> (r: (i8, i64, i64))
    ensures
        r == bucket(cell, radius),
        -0x8000_0000 <= r.1 <= 0x7fff_ffff,
        -0x8000_0000 <= r.2 <= 0x7fff_ffff,
{
    proof {
        lemma_bucket_range(cell, radius);
    }
    let s: i64 = if radius == 0 {
        1
    } else {
        radius as i64
    };
    let bx = match (cell.x as i64).checked_div_euclid(s) {
        Some(q) => q,
        None => 0,
    };
    let by = match (cell.y as i64).checked_div_euclid(s) {
        Some(q) => q,
        None => 0,
    };
    (cell.floor, bx, by)
}

fn chebyshev_exec(a: Cell, b: Cell) -> (r: i64)
    ensures
        r == chebyshev(a, b),
{
    let dx: i64 = if a.x >= b.x { a.x as i64 - b.x as i64 } else { b.x as i64 - a.x as i64 };
    let dy: i64 = if a.y >= b.y { a.y as i64 - b.y as i64 } else { b.y as i64 - a.y as i64 };
    if dx >= dy { dx } else { dy }
}

fn close_exec(a: Cell, b: Cell, dist: i64, strict: bool) -> (r: bool)
    ensures
        r == close(a, b, dist as int, strict),
{
    if a.floor != b.floor {
        return false;
    }
    let d = chebyshev_exec(a, b);
    if strict {
        d < dist
    } else {
        d <= dist
    }
}

/// Whether bucket `key` holds a cell close to `cell`.
fn scan(m: &BTreeMap<(i8, i64, i64), Vec<Cell>>, key: (i8, i64, i64), cell: Cell, dist: i64, strict: bool) -> (r: bool)
    ensures
        r == (m@.contains_key(key) && exists|t: int|
            0 <= t < m@[key]@.len() && #[trigger] close(m@[key]@[t], cell, dist as int, strict)),
{
    match m.get(&key) {
        None => false,
        Some(placed) => {
            let mut t: usize = 0;
            while t < placed.len()
                invariant
                    t <= placed.len(),
                    m@.contains_key(key),
                    m@[key] == *placed,
                    forall|u: int| 0 <= u < t ==> !#[trigger] close(placed@[u], cell, dist as int, strict),
                decreases placed.len() - t,
            {
                if close_exec(placed[t], cell, dist, strict) {
                    proof {
                        assert(m@[key]@[t as int] == placed@[t as int]);
                    }
                    return true;
                }
                t += 1;
            }
            false
        },
    }
}

/// Two coordinates at most `s` apart fall in buckets at most one apart.
proof fn lemma_bucket_near(a: int, b: int, s: int)
    requires
        s >= 1,
        a - b <= s,
        b - a <= s,
    ensures
        a / s - b / s <= 1,
        b / s - a / s <= 1,
{
    vstd::arithmetic::div_mod::lemma_fundamental_div_mod(a, s);
    vstd::arithmetic::div_mod::lemma_fundamental_div_mod(b, s);
    vstd::arithmetic::div_mod::lemma_mod_bound(a, s);
    vstd::arithmetic::div_mod::lemma_mod_bound(b, s);
    let qa = a / s;
    let qb = b / s;
    assert(qa - qb <= 1 && qb - qa <= 1) by (nonlinear_arith)
        requires
            s >= 1,
            a == s * qa + a % s,
            b == s * qb + b % s,
            0 <= a % s < s,
            0 <= b % s < s,
            a - b <= s,
            b - a <= s,
    ;
}

/// Whether any of the nine buckets around `cell`'s own holds a cell close
/// to it.
fn scan_around(m: &BTreeMap<(i8, i64, i64), Vec<Cell>>, cell: Cell, radius: u32, dist: i64, strict: bool) -> (r: bool)
    ensures
        r == exists|dx: int, dy: int|
            -1 <= dx <= 1 && -1 <= dy <= 1 && #[trigger] near_in(m@, cell, radius, dx, dy, dist as int, strict),
{
    let k = bucket_of(cell, radius);
    let h0 = scan(m, (k.0, k.1 - 1, k.2 - 1), cell, dist, strict);
    let h1 = scan(m, (k.0, k.1 - 1, k.2), cell, dist, strict);
    let h2 = scan(m, (k.0, k.1 - 1, k.2 + 1), cell, dist, strict);
    let h3 = scan(m, (k.0, k.1, k.2 - 1), cell, dist, strict);
    let h4 = scan(m, (k.0, k.1, k.2), cell, dist, strict);
    let h5 = scan(m, (k.0, k.1, k.2 + 1), cell, dist, strict);
    let h6 = scan(m, (k.0, k.1 + 1, k.2 - 1), cell, dist, strict);
    let h7 = scan(m, (k.0, k.1 + 1, k.2), cell, dist, strict);
    let h8 = scan(m, (k.0, k.1 + 1, k.2 + 1), cell, dist, strict);
    let found = h0 || h1 || h2 || h3 || h4 || h5 || h6 || h7 || h8;
    proof {
        let d = dist as int;
        assert(h0 == near_in(m@, cell, radius, -1, -1, d, strict));
        assert(h1 == near_in(m@, cell, radius, -1, 0, d, strict));
        assert(h2 == near_in(m@, cell, radius, -1, 1, d, strict));
        assert(h3 == near_in(m@, cell, radius, 0, -1, d, strict));
        assert(h4 == near_in(m@, cell, radius, 0, 0, d, strict));
        assert(h5 == near_in(m@, cell, radius, 0, 1, d, strict));
        assert(h6 == near_in(m@, cell, radius, 1, -1, d, strict));
        assert(h7 == near_in(m@, cell, radius, 1, 0, d, strict));
        assert(h8 == near_in(m@, cell, radius, 1, 1, d, strict));
        if exists|dx: int, dy: int| -1 <= dx <= 1 && -1 <= dy <= 1 && #[trigger] near_in(m@, cell, radius, dx, dy, d, strict) {
            let (dx, dy) = choose|dx: int, dy: int| -1 <= dx <= 1 && -1 <= dy <= 1 && #[trigger] near_in(m@, cell, radius, dx, dy, d, strict);
            assert(found);
        }
    }
    found
}

/// Bucket `(dx, dy)` away from `cell`'s own holds a cell close to it.
pub open spec fn near_in(
    m: Map<(i8, i64, i64), Vec<Cell>>,
    cell: Cell,
    radius: u32,
    dx: int,
    dy: int,
    dist: int,
    strict: bool,
) -> bool {
    let b = bucket(cell, radius);
    let key = (b.0, (b.1 + dx) as i64, (b.2 + dy) as i64);
    m.contains_key(key) && exists|t: int| 0 <= t < m[key]@.len() && #[trigger] close(m[key]@[t], cell, dist, strict)
}

/// With the buckets holding the first `i` cells, a close cell among them
/// shows up in the nine buckets around `cell`, and only then.
proof fn lemma_scan_exact(m: Map<(i8, i64, i64), Vec<Cell>>, s: Seq<Cell>, i: int, radius: u32, cell: Cell, dist: int, strict: bool)
    requires
        buckets_ok(m, s, i, radius),
        0 <= i <= s.len(),
        dist <= side(radius),
    ensures
        (exists|dx: int, dy: int| -1 <= dx <= 1 && -1 <= dy <= 1 && #[trigger] near_in(m, cell, radius, dx, dy, dist, strict))
            <==> close_before(s, i, cell, dist, strict),
{
    let sd = side(radius);
    if close_before(s, i, cell, dist, strict) {
        let j = choose|j: int| 0 <= j < i && #[trigger] close(s[j], cell, dist, strict);
        let o = s[j];
        lemma_bucket_near(o.x as int, cell.x as int, sd);
        lemma_bucket_near(o.y as int, cell.y as int, sd);
        lemma_bucket_range(o, radius);
        lemma_bucket_range(cell, radius);
        let dx = o.x as int / sd - cell.x as int / sd;
        let dy = o.y as int / sd - cell.y as int / sd;
        let key = bucket(o, radius);
        assert(m.contains_key(key) && m[key]@.contains(o));
        let t = choose|t: int| 0 <= t < m[key]@.len() && m[key]@[t] == o;
        assert(close(m[key]@[t], cell, dist, strict));
        assert(near_in(m, cell, radius, dx, dy, dist, strict));
    }
    if exists|dx: int, dy: int| -1 <= dx <= 1 && -1 <= dy <= 1 && #[trigger] near_in(m, cell, radius, dx, dy, dist, strict) {
        let (dx, dy) = choose|dx: int, dy: int| -1 <= dx <= 1 && -1 <= dy <= 1 && #[trigger] near_in(m, cell, radius, dx, dy, dist, strict);
        let b = bucket(cell, radius);
        let key = (b.0, (b.1 + dx) as i64, (b.2 + dy) as i64);
        lemma_bucket_range(cell, radius);
        let t = choose|t: int| 0 <= t < m[key]@.len() && #[trigger] close(m[key]@[t], cell, dist, strict);
        let j = choose|j: int| 0 <= j < i && #[trigger] s[j] == m[key]@[t] && bucket(s[j], radius) == key;
        assert(close(s[j], cell, dist, strict));
    }
}

/// Files `cell`, the `i`-th of `s`, under its bucket.
fn file(m: &mut BTreeMap<(i8, i64, i64), Vec<Cell>>, cell: Cell, radius: u32, Ghost(s): Ghost<Seq<Cell>>, Ghost(i): Ghost<int>)
    requires
        buckets_ok(old(m)@, s, i, radius),
        0 <= i < s.len(),
        s[i] == cell,
    ensures
        buckets_ok(final(m)@, s, i + 1, radius),
{
    let key = bucket_of(cell, radius);
    let ghost m0 = m@;
    let mut v = match m.remove(&key) {
        Some(v) => v,
        None => Vec::new(),
    };
    proof {
        assert(m0.contains_key(key) ==> v@ == m0[key]@);
        assert(!m0.contains_key(key) ==> v@ == Seq::<Cell>::empty());
    }
    v.push(cell);
    m.insert(key, v);
    proof {
        assert(m@ == m0.insert(key, v));
        assert forall|k: (i8, i64, i64), t: int|
            #![trigger m@[k]@[t]]
            m@.contains_key(k) && 0 <= t < m@[k]@.len() implies exists|j: int|
                0 <= j < i + 1 && #[trigger] s[j] == m@[k]@[t] && bucket(s[j], radius) == k by {
            if k == key {
                if t == m@[k]@.len() - 1 {
                    assert(s[i] == m@[k]@[t]);
                } else {
                    assert(m0[k]@[t] == m@[k]@[t]);
                    let j = choose|j: int| 0 <= j < i && #[trigger] s[j] == m0[k]@[t] && bucket(s[j], radius) == k;
                }
            } else {
                assert(m0[k]@[t] == m@[k]@[t]);
                let j = choose|j: int| 0 <= j < i && #[trigger] s[j] == m0[k]@[t] && bucket(s[j], radius) == k;
            }
        }
        assert forall|j: int|
            0 <= j < i + 1 implies m@.contains_key(bucket(#[trigger] s[j], radius)) && m@[bucket(s[j], radius)]@.contains(s[j]) by {
            if j == i {
                assert(m@[key]@[m@[key]@.len() - 1] == cell);
            } else if bucket(s[j], radius) == key {
                let t = choose|t: int| 0 <= t < m0[key]@.len() && m0[key]@[t] == s[j];
                assert(m@[key]@[t] == s[j]);
            }
        }
    }
}

/// Appends, for rule `rule_id`, one violation per `subjects` cell closer
/// than `min_spacing` (Chebyshev, same floor) to an earlier one.
pub fn distribution_spacing_violations(out: &mut Vec<Violation>, rule_id: u32, subjects: &[Cell], min_spacing: u32)
    requires
        strictly_sorted(old(out)@),
    ensures
        strictly_sorted(final(out)@),
        forall|w: Violation|
            #[trigger] final(out)@.contains(w) <==> (old(out)@.contains(w) || (w.rule_id == rule_id && w.other is None
                && spacing_flags(subjects@, min_spacing, w.subject))),
{
    if min_spacing == 0 {
        return;
    }
    let ghost o = out@;
    let mut m: BTreeMap<(i8, i64, i64), Vec<Cell>> = BTreeMap::new();
    let mut i: usize = 0;
    while i < subjects.len()
        invariant
            min_spacing > 0,
            i <= subjects.len(),
            strictly_sorted(out@),
            buckets_ok(m@, subjects@, i as int, min_spacing),
            forall|w: Violation|
                #[trigger] out@.contains(w) <==> (o.contains(w) || (w.rule_id == rule_id && w.other is None
                    && exists|k: int| 0 <= k < i && subjects@[k] == w.subject && close_before(subjects@, k, w.subject, min_spacing as int, true))),
        decreases subjects.len() - i,
    {
        let cell = subjects[i];
        let near = scan_around(&m, cell, min_spacing, min_spacing as i64, true);
        proof {
            lemma_scan_exact(m@, subjects@, i as int, min_spacing, cell, min_spacing as int, true);
        }
        let ghost before = out@;
        if near {
            insert_sorted(out, Violation { rule_id, subject: cell, other: None });
        }
        file(&mut m, cell, min_spacing, Ghost(subjects@), Ghost(i as int));
        proof {
            assert forall|w: Violation|
                #[trigger] out@.contains(w) <==> (o.contains(w) || (w.rule_id == rule_id && w.other is None
                    && exists|k: int| 0 <= k < i + 1 && subjects@[k] == w.subject && close_before(subjects@, k, w.subject, min_spacing as int, true))) by {
                if w.rule_id == rule_id && w.other is None && w.subject == cell && near {
                    assert(subjects@[i as int] == w.subject);
                }
            }
        }
        i += 1;
    }
    proof {
        assert forall|w: Violation|
            #[trigger] out@.contains(w) <==> (o.contains(w) || (w.rule_id == rule_id && w.other is None
                && spacing_flags(subjects@, min_spacing, w.subject))) by {}
    }
}

/// Some `subjects` cell equal to `c` has a close cell before it.
pub open spec fn spacing_flags(subjects: Seq<Cell>, min_spacing: u32, c: Cell) -> bool {
    min_spacing > 0 && exists|k: int|
        0 <= k < subjects.len() && subjects[k] == c && close_before(subjects, k, c, min_spacing as int, true)
}

/// `c` is a `per` cell with no `subjects` cell within `max_distance`
/// (Chebyshev, same floor).
pub open spec fn coverage_flags(subjects: Seq<Cell>, per: Seq<Cell>, max_distance: u32, c: Cell) -> bool {
    per.contains(c) && !close_before(subjects, subjects.len() as int, c, max_distance as int, false)
}

/// Appends, for rule `rule_id`, one violation per `per_cells` cell with no
/// `subjects` cell within `max_distance`.
pub fn distribution_coverage_violations(out: &mut Vec<Violation>, rule_id: u32, subjects: &[Cell], per_cells: &[Cell], max_distance: u32)
    requires
        strictly_sorted(old(out)@),
    ensures
        strictly_sorted(final(out)@),
        forall|w: Violation|
            #[trigger] final(out)@.contains(w) <==> (old(out)@.contains(w) || (w.rule_id == rule_id && w.other is None
                && coverage_flags(subjects@, per_cells@, max_distance, w.subject))),
{
    let ghost o = out@;
    let mut m: BTreeMap<(i8, i64, i64), Vec<Cell>> = BTreeMap::new();
    let mut i: usize = 0;
    while i < subjects.len()
        invariant
            i <= subjects.len(),
            buckets_ok(m@, subjects@, i as int, max_distance),
        decreases subjects.len() - i,
    {
        file(&mut m, subjects[i], max_distance, Ghost(subjects@), Ghost(i as int));
        i += 1;
    }
    let mut p: usize = 0;
    while p < per_cells.len()
        invariant
            p <= per_cells.len(),
            buckets_ok(m@, subjects@, subjects.len() as int, max_distance),
            strictly_sorted(out@),
            forall|w: Violation|
                #[trigger] out@.contains(w) <==> (o.contains(w) || (w.rule_id == rule_id && w.other is None
                    && per_cells@.take(p as int).contains(w.subject)
                    && !close_before(subjects@, subjects.len() as int, w.subject, max_distance as int, false))),
        decreases per_cells.len() - p,
    {
        let cell = per_cells[p];
        let covered = scan_around(&m, cell, max_distance, max_distance as i64, false);
        proof {
            lemma_scan_exact(m@, subjects@, subjects.len() as int, max_distance, cell, max_distance as int, false);
        }
        let ghost before = out@;
        if !covered {
            insert_sorted(out, Violation { rule_id, subject: cell, other: None });
        }
        proof {
            assert(per_cells@.take(p + 1) =~= per_cells@.take(p as int).push(cell));
            assert forall|w: Violation|
                #[trigger] out@.contains(w) <==> (o.contains(w) || (w.rule_id == rule_id && w.other is None
                    && per_cells@.take(p + 1).contains(w.subject)
                    && !close_before(subjects@, subjects.len() as int, w.subject, max_distance as int, false))) by {
                let nt = per_cells@.take(p + 1);
                let ot = per_cells@.take(p as int);
                if nt.contains(w.subject) && w.subject != cell {
                    let k = choose|k: int| 0 <= k < nt.len() && #[trigger] nt[k] == w.subject;
                    assert(ot[k] == w.subject);
                }
                if w.subject == cell {
                    assert(per_cells@.take(p + 1)[p as int] == cell);
                }
            }
        }
        p += 1;
    }
    proof {
        assert(per_cells@.take(per_cells.len() as int) =~= per_cells@);
    }
}

} // verus!
