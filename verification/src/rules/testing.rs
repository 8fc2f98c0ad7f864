//! A small builder for [`RuleSite`] fixtures: which tags each cell
//! carries and which real areas each cell sits inside. `build()` computes
//! the `(area, tag) -> cells` index once, so a query never rescans.

use vstd::prelude::*;
use super::{AreaId, Cell, RuleSite, TagId, cell_lt, cell_lt_exec};

verus! {

/// `s`'s cells strictly increase.
pub open spec fn keys_sorted<T>(s: Seq<(Cell, Vec<T>)>) -> bool {
    forall|i: int, j: int| 0 <= i < j < s.len() ==> cell_lt((#[trigger] s[i]).0, (#[trigger] s[j]).0)
}

/// The values listed under `c`, or none.
pub open spec fn lookup<T>(s: Seq<(Cell, Vec<T>)>, c: Cell) -> Seq<T> {
    if exists|i: int| 0 <= i < s.len() && (#[trigger] s[i]).0 == c {
        s[choose|i: int| 0 <= i < s.len() && (#[trigger] s[i]).0 == c].1@
    } else {
        Seq::empty()
    }
}

pub open spec fn tags_sorted(s: Seq<TagId>) -> bool {
    forall|i: int, j: int| 0 <= i < j < s.len() ==> #[trigger] s[i] < #[trigger] s[j]
}

pub open spec fn areas_sorted(s: Seq<AreaId>) -> bool {
    forall|i: int, j: int| 0 <= i < j < s.len() ==> #[trigger] s[i] < #[trigger] s[j]
}

/// In a key-sorted list, the entry at `i` is the one `lookup` reads.
proof fn lemma_lookup_at<T>(s: Seq<(Cell, Vec<T>)>, i: int)
    requires
        keys_sorted(s),
        0 <= i < s.len(),
    ensures
        lookup(s, s[i].0) == s[i].1@,
{
    let j = choose|j: int| 0 <= j < s.len() && (#[trigger] s[j]).0 == s[i].0;
    if j < i {
        assert(cell_lt(s[j].0, s[i].0));
    } else if j > i {
        assert(cell_lt(s[i].0, s[j].0));
    }
}

/// Adds `t` to a strictly increasing list of tags.
pub(crate) fn add_tag(v: &mut Vec<TagId>, t: TagId)
    requires
        tags_sorted(old(v)@),
    ensures
        tags_sorted(final(v)@),
        final(v)@.to_set() == old(v)@.to_set().insert(t),
{
    let mut p: usize = 0;
    while p < v.len() && v[p] < t
        invariant
            p <= v.len(),
            forall|j: int| 0 <= j < p ==> #[trigger] v@[j] < t,
        decreases v.len() - p,
    {
        p += 1;
    }
    if p < v.len() && v[p] == t {
        proof {
            assert(v@.to_set().insert(t) =~= v@.to_set());
        }
        return;
    }
    let ghost o = v@;
    v.insert(p, t);
    proof {
        assert forall|j: int| 0 <= j < v.len() implies #[trigger] v@[j] == if j < p {
            o[j]
        } else if j == p {
            t
        } else {
            o[j - 1]
        } by {}
        assert forall|i: int, j: int| 0 <= i < j < v.len() implies #[trigger] v@[i] < #[trigger] v@[j] by {
            if p < o.len() && j > p {
                assert(o[p as int] > t);
                if i >= p && i > p {
                    assert(o[i - 1] < o[j - 1]);
                } else if i < p {
                    assert(o[i] < o[p as int]);
                    assert(o[p as int] <= o[j - 1]) by {
                        if j - 1 > p {
                            assert(o[p as int] < o[j - 1]);
                        }
                    }
                }
            }
        }
        assert(v@.to_set() =~= o.to_set().insert(t)) by {
            assert forall|x: TagId| v@.to_set().contains(x) <==> o.to_set().insert(t).contains(x) by {
                if v@.contains(x) {
                    let j = choose|j: int| 0 <= j < v.len() && v@[j] == x;
                    if j < p {
                        assert(o[j] == x);
                    } else if j > p {
                        assert(o[j - 1] == x);
                    }
                }
                if o.contains(x) {
                    let j = choose|j: int| 0 <= j < o.len() && o[j] == x;
                    if j < p {
                        assert(v@[j] == x);
                    } else {
                        assert(v@[j + 1] == x);
                    }
                }
                if x == t {
                    assert(v@[p as int] == x);
                }
            }
        }
    }
}

/// Adds `a` to a strictly increasing list of areas.
pub(crate) fn add_area(v: &mut Vec<AreaId>, a: AreaId)
    requires
        areas_sorted(old(v)@),
    ensures
        areas_sorted(final(v)@),
        final(v)@.to_set() == old(v)@.to_set().insert(a),
{
    let mut p: usize = 0;
    while p < v.len() && v[p] < a
        invariant
            p <= v.len(),
            forall|j: int| 0 <= j < p ==> #[trigger] v@[j] < a,
        decreases v.len() - p,
    {
        p += 1;
    }
    if p < v.len() && v[p] == a {
        proof {
            assert(v@.to_set().insert(a) =~= v@.to_set());
        }
        return;
    }
    let ghost o = v@;
    v.insert(p, a);
    proof {
        assert forall|j: int| 0 <= j < v.len() implies #[trigger] v@[j] == if j < p {
            o[j]
        } else if j == p {
            a
        } else {
            o[j - 1]
        } by {}
        assert forall|i: int, j: int| 0 <= i < j < v.len() implies #[trigger] v@[i] < #[trigger] v@[j] by {
            if p < o.len() && j > p {
                assert(o[p as int] > a);
                if i >= p && i > p {
                    assert(o[i - 1] < o[j - 1]);
                } else if i < p {
                    assert(o[i] < o[p as int]);
                    assert(o[p as int] <= o[j - 1]) by {
                        if j - 1 > p {
                            assert(o[p as int] < o[j - 1]);
                        }
                    }
                }
            }
        }
        assert(v@.to_set() =~= o.to_set().insert(a)) by {
            assert forall|x: AreaId| v@.to_set().contains(x) <==> o.to_set().insert(a).contains(x) by {
                if v@.contains(x) {
                    let j = choose|j: int| 0 <= j < v.len() && v@[j] == x;
                    if j < p {
                        assert(o[j] == x);
                    } else if j > p {
                        assert(o[j - 1] == x);
                    }
                }
                if o.contains(x) {
                    let j = choose|j: int| 0 <= j < o.len() && o[j] == x;
                    if j < p {
                        assert(v@[j] == x);
                    } else {
                        assert(v@[j + 1] == x);
                    }
                }
                if x == a {
                    assert(v@[p as int] == x);
                }
            }
        }
    }
}

/// The first index whose cell does not sort before `c`.
fn position<T>(s: &Vec<(Cell, Vec<T>)>, c: Cell) -> (p: usize)
    requires
        keys_sorted(s@),
    ensures
        p <= s.len(),
        forall|j: int| 0 <= j < p ==> cell_lt((#[trigger] s@[j]).0, c),
        p < s.len() ==> !cell_lt(s@[p as int].0, c),
{
    let mut p: usize = 0;
    while p < s.len() && cell_lt_exec(s[p].0, c)
        invariant
            p <= s.len(),
            forall|j: int| 0 <= j < p ==> cell_lt((#[trigger] s@[j]).0, c),
        decreases s.len() - p,
    {
        p += 1;
    }
    p
}

/// Inserting an entry where its cell belongs keeps the keys sorted and
/// changes only its own cell's lookup.
proof fn lemma_lookup_insert<T>(s: Seq<(Cell, Vec<T>)>, p: int, e: (Cell, Vec<T>))
    requires
        keys_sorted(s),
        0 <= p <= s.len(),
        forall|j: int| 0 <= j < p ==> cell_lt((#[trigger] s[j]).0, e.0),
        p < s.len() ==> cell_lt(e.0, s[p].0),
    ensures
        keys_sorted(s.insert(p, e)),
        forall|c: Cell| #[trigger] lookup(s.insert(p, e), c) == if c == e.0 { e.1@ } else { lookup(s, c) },
{
    let n = s.insert(p, e);
    assert forall|j: int| 0 <= j < n.len() implies #[trigger] n[j] == if j < p {
        s[j]
    } else if j == p {
        e
    } else {
        s[j - 1]
    } by {}
    assert forall|i: int, j: int| 0 <= i < j < n.len() implies cell_lt((#[trigger] n[i]).0, (#[trigger] n[j]).0) by {
        if i < p && j > p {
            if j - 1 > p {
                assert(cell_lt(s[p].0, s[j - 1].0));
            }
        } else if i > p {
            assert(cell_lt(s[i - 1].0, s[j - 1].0));
        } else if i == p && j - 1 > p {
            assert(cell_lt(s[p].0, s[j - 1].0));
        }
    }
    assert forall|c: Cell| #[trigger] lookup(n, c) == if c == e.0 { e.1@ } else { lookup(s, c) } by {
        if c == e.0 {
            lemma_lookup_at(n, p);
        } else if exists|i: int| 0 <= i < s.len() && (#[trigger] s[i]).0 == c {
            let i = choose|i: int| 0 <= i < s.len() && (#[trigger] s[i]).0 == c;
            lemma_lookup_at(s, i);
            if i < p {
                lemma_lookup_at(n, i);
            } else {
                lemma_lookup_at(n, i + 1);
            }
        } else {
            assert(!exists|i: int| 0 <= i < n.len() && (#[trigger] n[i]).0 == c) by {
                if exists|i: int| 0 <= i < n.len() && (#[trigger] n[i]).0 == c {
                    let i = choose|i: int| 0 <= i < n.len() && (#[trigger] n[i]).0 == c;
                    if i < p {
                        assert(s[i].0 == c);
                    } else if i > p {
                        assert(s[i - 1].0 == c);
                    }
                }
            }
        }
    }
}

/// Replacing the entry at `p` with one for the same cell changes only
/// that cell's lookup.
proof fn lemma_lookup_update<T>(s: Seq<(Cell, Vec<T>)>, p: int, e: (Cell, Vec<T>))
    requires
        keys_sorted(s),
        0 <= p < s.len(),
        s[p].0 == e.0,
    ensures
        keys_sorted(s.update(p, e)),
        forall|c: Cell| #[trigger] lookup(s.update(p, e), c) == if c == e.0 { e.1@ } else { lookup(s, c) },
{
    let n = s.update(p, e);
    assert forall|i: int, j: int| 0 <= i < j < n.len() implies cell_lt((#[trigger] n[i]).0, (#[trigger] n[j]).0) by {
        assert(cell_lt(s[i].0, s[j].0));
    }
    assert forall|c: Cell| #[trigger] lookup(n, c) == if c == e.0 { e.1@ } else { lookup(s, c) } by {
        if c == e.0 {
            lemma_lookup_at(n, p);
        } else if exists|i: int| 0 <= i < s.len() && (#[trigger] s[i]).0 == c {
            let i = choose|i: int| 0 <= i < s.len() && (#[trigger] s[i]).0 == c;
            lemma_lookup_at(s, i);
            lemma_lookup_at(n, i);
        } else {
            assert(!exists|i: int| 0 <= i < n.len() && (#[trigger] n[i]).0 == c) by {
                if exists|i: int| 0 <= i < n.len() && (#[trigger] n[i]).0 == c {
                    let i = choose|i: int| 0 <= i < n.len() && (#[trigger] n[i]).0 == c;
                    assert(s[i].0 == c);
                }
            }
        }
    }
}

/// Declares a small in-memory site: which tags each cell carries, and
/// which real areas each cell sits inside.
#[derive(Debug, Clone)]
pub struct SiteBuilder {
    tags: Vec<(Cell, Vec<TagId>)>,
    areas: Vec<(Cell, Vec<AreaId>)>,
}

impl SiteBuilder {
    /// Both lists sorted by cell, each cell's own list sorted, no repeats.
    pub closed spec fn wf(&self) -> bool {
        &&& keys_sorted(self.tags@)
        &&& forall|i: int| 0 <= i < self.tags@.len() ==> tags_sorted((#[trigger] self.tags@[i]).1@)
        &&& keys_sorted(self.areas@)
        &&& forall|i: int| 0 <= i < self.areas@.len() ==> areas_sorted((#[trigger] self.areas@[i]).1@)
    }

    /// Some tags (possibly none) have been declared on `c`.
    pub closed spec fn has_cell(&self, c: Cell) -> bool {
        exists|i: int| 0 <= i < self.tags@.len() && (#[trigger] self.tags@[i]).0 == c
    }

    /// Every cell declared so far.
    pub(crate) fn tagged_cells(&self) -> (r: Vec<Cell>)
        ensures
            forall|c: Cell| #[trigger] r@.contains(c) <==> self.has_cell(c),
    {
        let mut r: Vec<Cell> = Vec::new();
        let mut i: usize = 0;
        while i < self.tags.len()
            invariant
                i <= self.tags.len(),
                r@ == self.tags@.take(i as int).map_values(|e: (Cell, Vec<TagId>)| e.0),
            decreases self.tags.len() - i,
        {
            r.push(self.tags[i].0);
            proof {
                assert(self.tags@.take(i + 1).map_values(|e: (Cell, Vec<TagId>)| e.0) =~= self.tags@.take(i as int).map_values(
                    |e: (Cell, Vec<TagId>)| e.0,
                ).push(self.tags@[i as int].0));
            }
            i += 1;
        }
        proof {
            assert(self.tags@.take(self.tags.len() as int) =~= self.tags@);
            assert forall|c: Cell| #[trigger] r@.contains(c) <==> self.has_cell(c) by {
                if r@.contains(c) {
                    let k = choose|k: int| 0 <= k < r@.len() && r@[k] == c;
                    assert(self.tags@[k].0 == c);
                }
                if self.has_cell(c) {
                    let k = choose|k: int| 0 <= k < self.tags@.len() && (#[trigger] self.tags@[k]).0 == c;
                    assert(r@[k] == c);
                }
            }
        }
        r
    }

    /// The tags declared on `c`, ascending.
    pub closed spec fn spec_tags(&self, c: Cell) -> Seq<TagId> {
        lookup(self.tags@, c)
    }

    /// The areas declared for `c`, ascending.
    pub closed spec fn spec_areas(&self, c: Cell) -> Seq<AreaId> {
        lookup(self.areas@, c)
    }

    /// A well-formed builder lists every cell's tags ascending.
    pub proof fn lemma_tags_sorted(&self, c: Cell)
        requires
            self.wf(),
        ensures
            tags_sorted(self.spec_tags(c)),
    {
        if exists|i: int| 0 <= i < self.tags@.len() && (#[trigger] self.tags@[i]).0 == c {
            let i = choose|i: int| 0 <= i < self.tags@.len() && (#[trigger] self.tags@[i]).0 == c;
            lemma_lookup_at(self.tags@, i);
        }
    }

    pub fn new() -> (b: Self)
        ensures
            b.wf(),
            forall|c: Cell| #[trigger] b.spec_tags(c) == Seq::<TagId>::empty(),
            forall|c: Cell| #[trigger] b.spec_areas(c) == Seq::<AreaId>::empty(),
            forall|c: Cell| !#[trigger] b.has_cell(c),
    {
        SiteBuilder { tags: Vec::new(), areas: Vec::new() }
    }

    /// Declares that `cell` carries every tag in `tags` (merged with any
    /// already declared for it, kept ascending without repeats).
    pub fn cell(self, cell: Cell, tags: &[TagId]) -> (b: Self)
        requires
            self.wf(),
        ensures
            b.wf(),
            tags_sorted(b.spec_tags(cell)),
            b.spec_tags(cell).to_set() == self.spec_tags(cell).to_set() + tags@.to_set(),
            forall|c: Cell| c != cell ==> #[trigger] b.spec_tags(c) == self.spec_tags(c),
            forall|c: Cell| #[trigger] b.spec_areas(c) == self.spec_areas(c),
            forall|c: Cell| #[trigger] b.has_cell(c) == (self.has_cell(c) || c == cell),
    {
        let mut me = self;
        let p = position(&me.tags, cell);
        let found = p < me.tags.len() && me.tags[p].0 == cell;
        let ghost s0 = me.tags@;
        let mut v: Vec<TagId> = if found {
            let (_, old_v) = me.tags.remove(p);
            proof {
                lemma_lookup_at(s0, p as int);
            }
            old_v
        } else {
            Vec::new()
        };
        proof {
            if !found {
                assert(!exists|i: int| 0 <= i < s0.len() && (#[trigger] s0[i]).0 == cell) by {
                    if exists|i: int| 0 <= i < s0.len() && (#[trigger] s0[i]).0 == cell {
                        let i = choose|i: int| 0 <= i < s0.len() && (#[trigger] s0[i]).0 == cell;
                        if i < p {
                            assert(cell_lt(s0[i].0, cell));
                        } else if i > p {
                            assert(cell_lt(s0[p as int].0, s0[i].0));
                        }
                    }
                }
                assert(v@.to_set() =~= lookup(s0, cell).to_set());
            }
        }
        let ghost v0 = v@;
        let mut i: usize = 0;
        while i < tags.len()
            invariant
                i <= tags.len(),
                tags_sorted(v@),
                v@.to_set() == v0.to_set() + tags@.take(i as int).to_set(),
            decreases tags.len() - i,
        {
            add_tag(&mut v, tags[i]);
            proof {
                assert(tags@.take(i + 1) =~= tags@.take(i as int).push(tags@[i as int]));
                assert(tags@.take(i + 1).to_set() =~= tags@.take(i as int).to_set().insert(tags@[i as int])) by {
                    tags@.take(i as int).lemma_push_to_set_commute(tags@[i as int]);
                }
                assert(v@.to_set() =~= v0.to_set() + tags@.take(i + 1).to_set());
            }
            i += 1;
        }
        proof {
            assert(tags@.take(tags.len() as int) =~= tags@);
        }
        let ghost vv = v;
        me.tags.insert(p, (cell, v));
        proof {
            if found {
                assert(me.tags@ =~= s0.update(p as int, (cell, vv)));
                lemma_lookup_update(s0, p as int, (cell, vv));
            } else {
                lemma_lookup_insert(s0, p as int, (cell, vv));
            }
            assert forall|k: int| 0 <= k < me.tags@.len() implies tags_sorted((#[trigger] me.tags@[k]).1@) by {
                if found {
                    if k != p {
                        assert(me.tags@[k] == s0[k]);
                    }
                } else if k < p {
                    assert(me.tags@[k] == s0[k]);
                } else if k > p {
                    assert(me.tags@[k] == s0[k - 1]);
                }
            }
            assert forall|c: Cell| #[trigger] me.has_cell(c) == (self.has_cell(c) || c == cell) by {
                if me.has_cell(c) {
                    let k = choose|k: int| 0 <= k < me.tags@.len() && (#[trigger] me.tags@[k]).0 == c;
                    if found {
                        if k != p {
                            assert(s0[k].0 == c);
                        }
                    } else if k < p {
                        assert(s0[k].0 == c);
                    } else if k > p {
                        assert(s0[k - 1].0 == c);
                    }
                }
                if self.has_cell(c) {
                    let k = choose|k: int| 0 <= k < s0.len() && (#[trigger] s0[k]).0 == c;
                    if found {
                        if k != p {
                            assert(me.tags@[k].0 == c);
                        } else {
                            assert(me.tags@[p as int].0 == cell);
                        }
                    } else if k < p {
                        assert(me.tags@[k].0 == c);
                    } else {
                        assert(me.tags@[k + 1].0 == c);
                    }
                }
                if c == cell {
                    assert(me.tags@[p as int].0 == cell);
                }
            }
        }
        me
    }

    /// Declares that `cell` sits inside real area `area`.
    pub fn area(self, cell: Cell, area: AreaId) -> (b: Self)
        requires
            self.wf(),
        ensures
            b.wf(),
            areas_sorted(b.spec_areas(cell)),
            b.spec_areas(cell).to_set() == self.spec_areas(cell).to_set().insert(area),
            forall|c: Cell| c != cell ==> #[trigger] b.spec_areas(c) == self.spec_areas(c),
            forall|c: Cell| #[trigger] b.spec_tags(c) == self.spec_tags(c),
            forall|c: Cell| #[trigger] b.has_cell(c) == self.has_cell(c),
    {
        let mut me = self;
        let p = position(&me.areas, cell);
        let found = p < me.areas.len() && me.areas[p].0 == cell;
        let ghost s0 = me.areas@;
        let mut v: Vec<AreaId> = if found {
            let (_, old_v) = me.areas.remove(p);
            proof {
                lemma_lookup_at(s0, p as int);
            }
            old_v
        } else {
            Vec::new()
        };
        proof {
            if !found {
                assert(!exists|i: int| 0 <= i < s0.len() && (#[trigger] s0[i]).0 == cell) by {
                    if exists|i: int| 0 <= i < s0.len() && (#[trigger] s0[i]).0 == cell {
                        let i = choose|i: int| 0 <= i < s0.len() && (#[trigger] s0[i]).0 == cell;
                        if i < p {
                            assert(cell_lt(s0[i].0, cell));
                        } else if i > p {
                            assert(cell_lt(s0[p as int].0, s0[i].0));
                        }
                    }
                }
                assert(v@.to_set() =~= lookup(s0, cell).to_set());
            }
        }
        add_area(&mut v, area);
        let ghost vv = v;
        me.areas.insert(p, (cell, v));
        proof {
            if found {
                assert(me.areas@ =~= s0.update(p as int, (cell, vv)));
                lemma_lookup_update(s0, p as int, (cell, vv));
            } else {
                lemma_lookup_insert(s0, p as int, (cell, vv));
            }
            assert forall|k: int| 0 <= k < me.areas@.len() implies areas_sorted((#[trigger] me.areas@[k]).1@) by {
                if found {
                    if k != p {
                        assert(me.areas@[k] == s0[k]);
                    }
                } else if k < p {
                    assert(me.areas@[k] == s0[k]);
                } else if k > p {
                    assert(me.areas@[k] == s0[k - 1]);
                }
            }
            assert(me.tags@ == self.tags@);
            assert forall|c: Cell| #[trigger] me.has_cell(c) == self.has_cell(c) by {}
        }
        me
    }
}

/// `c` is inside `scope`: any cell for the whole site, else a cell whose
/// areas include it.
pub open spec fn in_scope(areas: Seq<(Cell, Vec<AreaId>)>, c: Cell, scope: Option<AreaId>) -> bool {
    match scope {
        None => true,
        Some(a) => lookup(areas, c).contains(a),
    }
}

/// The cells, in list order, that carry `t` and lie inside `scope`.
pub open spec fn subjects_of(
    tags: Seq<(Cell, Vec<TagId>)>,
    areas: Seq<(Cell, Vec<AreaId>)>,
    scope: Option<AreaId>,
    t: TagId,
) -> Seq<Cell>
    decreases tags.len(),
{
    if tags.len() == 0 {
        Seq::empty()
    } else {
        let prev = subjects_of(tags.drop_last(), areas, scope, t);
        let e = tags.last();
        if e.1@.contains(t) && in_scope(areas, e.0, scope) {
            prev.push(e.0)
        } else {
            prev
        }
    }
}

/// Cells strictly ascending.
pub open spec fn cells_sorted(s: Seq<Cell>) -> bool {
    forall|i: int, j: int| 0 <= i < j < s.len() ==> cell_lt(#[trigger] s[i], #[trigger] s[j])
}

/// Over a key-sorted list, `subjects_of` is ascending and holds exactly
/// the listed cells that carry `t` inside `scope`.
proof fn lemma_subjects_of(
    tags: Seq<(Cell, Vec<TagId>)>,
    areas: Seq<(Cell, Vec<AreaId>)>,
    scope: Option<AreaId>,
    t: TagId,
)
    requires
        keys_sorted(tags),
    ensures
        cells_sorted(subjects_of(tags, areas, scope, t)),
        forall|c: Cell| #[trigger] subjects_of(tags, areas, scope, t).contains(c) <==> exists|i: int|
            0 <= i < tags.len() && (#[trigger] tags[i]).0 == c && tags[i].1@.contains(t) && in_scope(areas, c, scope),
    decreases tags.len(),
{
    if tags.len() > 0 {
        let pre = tags.drop_last();
        assert(keys_sorted(pre)) by {
            assert forall|i: int, j: int| 0 <= i < j < pre.len() implies cell_lt((#[trigger] pre[i]).0, (#[trigger] pre[j]).0) by {
                assert(pre[i] == tags[i] && pre[j] == tags[j]);
            }
        }
        lemma_subjects_of(pre, areas, scope, t);
        let prev = subjects_of(pre, areas, scope, t);
        let e = tags.last();
        let cur = subjects_of(tags, areas, scope, t);
        assert forall|c: Cell| #[trigger] prev.contains(c) ==> cell_lt(c, e.0) by {
            if prev.contains(c) {
                let i = choose|i: int| 0 <= i < pre.len() && (#[trigger] pre[i]).0 == c && pre[i].1@.contains(t) && in_scope(areas, c, scope);
                assert(pre[i] == tags[i]);
                assert(cell_lt(tags[i].0, tags[tags.len() - 1].0));
            }
        }
        if e.1@.contains(t) && in_scope(areas, e.0, scope) {
            assert forall|i: int, j: int| 0 <= i < j < cur.len() implies cell_lt(#[trigger] cur[i], #[trigger] cur[j]) by {
                if j == cur.len() - 1 {
                    assert(prev.contains(prev[i]));
                } else {
                    assert(cur[i] == prev[i] && cur[j] == prev[j]);
                }
            }
        }
        assert forall|c: Cell| #[trigger] cur.contains(c) <==> exists|i: int|
            0 <= i < tags.len() && (#[trigger] tags[i]).0 == c && tags[i].1@.contains(t) && in_scope(areas, c, scope) by {
            if cur.contains(c) {
                if prev.contains(c) {
                    let i = choose|i: int| 0 <= i < pre.len() && (#[trigger] pre[i]).0 == c && pre[i].1@.contains(t) && in_scope(areas, c, scope);
                    assert(tags[i] == pre[i]);
                } else {
                    let k = choose|k: int| 0 <= k < cur.len() && cur[k] == c;
                    if k < prev.len() {
                        assert(prev[k] == c);
                    }
                    assert(tags[tags.len() - 1].0 == c);
                }
            }
            if exists|i: int| 0 <= i < tags.len() && (#[trigger] tags[i]).0 == c && tags[i].1@.contains(t) && in_scope(areas, c, scope) {
                let i = choose|i: int| 0 <= i < tags.len() && (#[trigger] tags[i]).0 == c && tags[i].1@.contains(t) && in_scope(areas, c, scope);
                if i < tags.len() - 1 {
                    assert(pre[i] == tags[i]);
                    assert(prev.contains(c));
                    let k = choose|k: int| 0 <= k < prev.len() && prev[k] == c;
                    if e.1@.contains(t) && in_scope(areas, e.0, scope) {
                        assert(cur[k] == c);
                    }
                } else {
                    assert(cur[cur.len() - 1] == c);
                }
            }
        }
    }
}

fn contains_area(v: &Vec<AreaId>, a: AreaId) -> (r: bool)
    ensures
        r == v@.contains(a),
{
    let mut i: usize = 0;
    while i < v.len()
        invariant
            i <= v.len(),
            forall|j: int| 0 <= j < i ==> v@[j] != a,
        decreases v.len() - i,
    {
        if v[i] == a {
            return true;
        }
        i += 1;
    }
    false
}

fn contains_tag_vec(v: &Vec<TagId>, t: TagId) -> (r: bool)
    ensures
        r == v@.contains(t),
{
    let mut i: usize = 0;
    while i < v.len()
        invariant
            i <= v.len(),
            forall|j: int| 0 <= j < i ==> v@[j] != t,
        decreases v.len() - i,
    {
        if v[i] == t {
            return true;
        }
        i += 1;
    }
    false
}

fn in_scope_exec(areas: &Vec<(Cell, Vec<AreaId>)>, c: Cell, scope: Option<AreaId>) -> (r: bool)
    requires
        keys_sorted(areas@),
    ensures
        r == in_scope(areas@, c, scope),
{
    match scope {
        None => true,
        Some(a) => {
            let p = position(areas, c);
            if p < areas.len() && areas[p].0 == c {
                proof {
                    lemma_lookup_at(areas@, p as int);
                }
                contains_area(&areas[p].1, a)
            } else {
                proof {
                    assert(!exists|i: int| 0 <= i < areas@.len() && (#[trigger] areas@[i]).0 == c) by {
                        if exists|i: int| 0 <= i < areas@.len() && (#[trigger] areas@[i]).0 == c {
                            let i = choose|i: int| 0 <= i < areas@.len() && (#[trigger] areas@[i]).0 == c;
                            if i > p {
                                assert(cell_lt(areas@[p as int].0, areas@[i].0));
                            }
                        }
                    }
                }
                false
            }
        },
    }
}

/// The cells carrying `t` inside `scope`, in list order.
fn collect(tags: &Vec<(Cell, Vec<TagId>)>, areas: &Vec<(Cell, Vec<AreaId>)>, scope: Option<AreaId>, t: TagId) -> (r: Vec<Cell>)
    requires
        keys_sorted(areas@),
    ensures
        r@ == subjects_of(tags@, areas@, scope, t),
{
    let mut r: Vec<Cell> = Vec::new();
    let mut i: usize = 0;
    while i < tags.len()
        invariant
            keys_sorted(areas@),
            i <= tags.len(),
            r@ == subjects_of(tags@.take(i as int), areas@, scope, t),
        decreases tags.len() - i,
    {
        proof {
            assert(tags@.take(i + 1).drop_last() =~= tags@.take(i as int));
        }
        let c = tags[i].0;
        if contains_tag_vec(&tags[i].1, t) && in_scope_exec(areas, c, scope) {
            r.push(c);
        }
        i += 1;
    }
    proof {
        assert(tags@.take(tags.len() as int) =~= tags@);
    }
    r
}

/// With no listed cell carrying `t` inside `scope`, nothing is listed.
proof fn lemma_subjects_of_empty(
    tags: Seq<(Cell, Vec<TagId>)>,
    areas: Seq<(Cell, Vec<AreaId>)>,
    scope: Option<AreaId>,
    t: TagId,
)
    requires
        forall|i: int| 0 <= i < tags.len() ==> !((#[trigger] tags[i]).1@.contains(t) && in_scope(areas, tags[i].0, scope)),
    ensures
        subjects_of(tags, areas, scope, t) == Seq::<Cell>::empty(),
    decreases tags.len(),
{
    if tags.len() > 0 {
        let pre = tags.drop_last();
        assert forall|i: int| 0 <= i < pre.len() implies !((#[trigger] pre[i]).1@.contains(t) && in_scope(areas, pre[i].0, scope)) by {
            assert(pre[i] == tags[i]);
        }
        lemma_subjects_of_empty(pre, areas, scope, t);
        assert(tags[tags.len() - 1] == tags.last());
    }
}

/// The index holds an entry for `scope` and `t`.
pub open spec fn index_has(index: Seq<(Option<AreaId>, TagId, Vec<Cell>)>, scope: Option<AreaId>, t: TagId) -> bool {
    exists|k: int| 0 <= k < index.len() && (#[trigger] index[k]).0 == scope && index[k].1 == t
}

/// A built, queryable site -- immutable once built.
#[derive(Debug)]
pub struct Site {
    tags: Vec<(Cell, Vec<TagId>)>,
    areas: Vec<(Cell, Vec<AreaId>)>,
    index: Vec<(Option<AreaId>, TagId, Vec<Cell>)>,
    empty_tags: Vec<TagId>,
    empty_areas: Vec<AreaId>,
    empty_cells: Vec<Cell>,
}

impl Site {
    /// Sorted lists, empty fallbacks, and an index that answers every
    /// query: each entry exact, every query it lacks empty.
    #[verifier::type_invariant]
    spec fn inv(&self) -> bool {
        &&& keys_sorted(self.tags@)
        &&& keys_sorted(self.areas@)
        &&& self.empty_tags@.len() == 0
        &&& self.empty_areas@.len() == 0
        &&& self.empty_cells@.len() == 0
        &&& forall|k: int|
            0 <= k < self.index@.len() ==> (#[trigger] self.index@[k]).2@ == subjects_of(
                self.tags@,
                self.areas@,
                self.index@[k].0,
                self.index@[k].1,
            )
        &&& forall|scope: Option<AreaId>, t: TagId|
            !#[trigger] index_has(self.index@, scope, t) ==> subjects_of(self.tags@, self.areas@, scope, t)
                == Seq::<Cell>::empty()
    }
}

impl RuleSite for Site {
    closed spec fn site_tags(&self, cell: Cell) -> Seq<TagId> {
        lookup(self.tags@, cell)
    }

    closed spec fn site_areas(&self, cell: Cell) -> Seq<AreaId> {
        lookup(self.areas@, cell)
    }

    closed spec fn site_subjects(&self, area: Option<AreaId>, tag: TagId) -> Seq<Cell> {
        subjects_of(self.tags@, self.areas@, area, tag)
    }

    fn tags_at(&self, cell: Cell) -> (r: &[TagId]) {
        proof {
            use_type_invariant(self);
        }
        let p = position(&self.tags, cell);
        if p < self.tags.len() && self.tags[p].0 == cell {
            proof {
                lemma_lookup_at(self.tags@, p as int);
            }
            self.tags[p].1.as_slice()
        } else {
            proof {
                assert(!exists|i: int| 0 <= i < self.tags@.len() && (#[trigger] self.tags@[i]).0 == cell) by {
                    if exists|i: int| 0 <= i < self.tags@.len() && (#[trigger] self.tags@[i]).0 == cell {
                        let i = choose|i: int| 0 <= i < self.tags@.len() && (#[trigger] self.tags@[i]).0 == cell;
                        if i > p {
                            assert(cell_lt(self.tags@[p as int].0, self.tags@[i].0));
                        }
                    }
                }
            }
            self.empty_tags.as_slice()
        }
    }

    fn areas_containing(&self, cell: Cell) -> (r: &[AreaId]) {
        proof {
            use_type_invariant(self);
        }
        let p = position(&self.areas, cell);
        if p < self.areas.len() && self.areas[p].0 == cell {
            proof {
                lemma_lookup_at(self.areas@, p as int);
            }
            self.areas[p].1.as_slice()
        } else {
            proof {
                assert(!exists|i: int| 0 <= i < self.areas@.len() && (#[trigger] self.areas@[i]).0 == cell) by {
                    if exists|i: int| 0 <= i < self.areas@.len() && (#[trigger] self.areas@[i]).0 == cell {
                        let i = choose|i: int| 0 <= i < self.areas@.len() && (#[trigger] self.areas@[i]).0 == cell;
                        if i > p {
                            assert(cell_lt(self.areas@[p as int].0, self.areas@[i].0));
                        }
                    }
                }
            }
            self.empty_areas.as_slice()
        }
    }

    fn subjects_in_area(&self, area: Option<AreaId>, tag: TagId) -> (r: &[Cell]) {
        proof {
            use_type_invariant(self);
        }
        let mut k: usize = 0;
        while k < self.index.len()
            invariant
                k <= self.index.len(),
                forall|j: int| 0 <= j < k ==> !((#[trigger] self.index@[j]).0 == area && self.index@[j].1 == tag),
            decreases self.index.len() - k,
        {
            if self.index[k].0 == area && self.index[k].1 == tag {
                proof {
                    use_type_invariant(self);
                    assert(self.index@[k as int].2@ == subjects_of(self.tags@, self.areas@, area, tag));
                }
                return self.index[k].2.as_slice();
            }
            k += 1;
        }
        proof {
            use_type_invariant(self);
            assert(!index_has(self.index@, area, tag));
        }
        self.empty_cells.as_slice()
    }
}

impl SiteBuilder {
    /// Builds the site, indexing each `(area, tag)` query once.
    pub fn build(self) -> (site: Site)
        requires
            self.wf(),
        ensures
            forall|c: Cell| #[trigger] site.site_tags(c) == self.spec_tags(c),
            forall|c: Cell| #[trigger] site.site_areas(c) == self.spec_areas(c),
            forall|scope: Option<AreaId>, t: TagId| cells_sorted(#[trigger] site.site_subjects(scope, t)),
            forall|scope: Option<AreaId>, t: TagId, c: Cell|
                #[trigger] site.site_subjects(scope, t).contains(c) <==> (self.spec_tags(c).contains(t) && match scope {
                    None => true,
                    Some(a) => self.spec_areas(c).contains(a),
                }),
    {
        let mut all_tags: Vec<TagId> = Vec::new();
        let mut i: usize = 0;
        while i < self.tags.len()
            invariant
                i <= self.tags.len(),
                tags_sorted(all_tags@),
                forall|j: int, t: TagId| 0 <= j < i && #[trigger] self.tags@[j].1@.contains(t) ==> all_tags@.contains(t),
            decreases self.tags.len() - i,
        {
            let mut q: usize = 0;
            while q < self.tags[i].1.len()
                invariant
                    i < self.tags.len(),
                    q <= self.tags@[i as int].1@.len(),
                    tags_sorted(all_tags@),
                    forall|j: int, t: TagId| 0 <= j < i && #[trigger] self.tags@[j].1@.contains(t) ==> all_tags@.contains(t),
                    forall|r: int| 0 <= r < q ==> all_tags@.contains(#[trigger] self.tags@[i as int].1@[r]),
                decreases self.tags@[i as int].1@.len() - q,
            {
                let ghost before = all_tags@;
                add_tag(&mut all_tags, self.tags[i].1[q]);
                proof {
                    assert forall|x: TagId| before.contains(x) implies all_tags@.contains(x) by {
                        assert(before.to_set().contains(x));
                        assert(all_tags@.to_set().contains(x));
                    }
                    assert(all_tags@.to_set().contains(self.tags@[i as int].1@[q as int]));
                }
                q += 1;
            }
            proof {
                assert forall|j: int, t: TagId| 0 <= j < i + 1 && #[trigger] self.tags@[j].1@.contains(t) implies all_tags@.contains(t) by {
                    if j == i {
                        let r = choose|r: int| 0 <= r < self.tags@[j].1@.len() && self.tags@[j].1@[r] == t;
                        assert(all_tags@.contains(self.tags@[i as int].1@[r]));
                    }
                }
            }
            i += 1;
        }
        let mut all_areas: Vec<AreaId> = Vec::new();
        let mut i: usize = 0;
        while i < self.areas.len()
            invariant
                i <= self.areas.len(),
                areas_sorted(all_areas@),
                forall|j: int, a: AreaId| 0 <= j < i && #[trigger] self.areas@[j].1@.contains(a) ==> all_areas@.contains(a),
            decreases self.areas.len() - i,
        {
            let mut q: usize = 0;
            while q < self.areas[i].1.len()
                invariant
                    i < self.areas.len(),
                    q <= self.areas@[i as int].1@.len(),
                    areas_sorted(all_areas@),
                    forall|j: int, a: AreaId| 0 <= j < i && #[trigger] self.areas@[j].1@.contains(a) ==> all_areas@.contains(a),
                    forall|r: int| 0 <= r < q ==> all_areas@.contains(#[trigger] self.areas@[i as int].1@[r]),
                decreases self.areas@[i as int].1@.len() - q,
            {
                let ghost before = all_areas@;
                add_area(&mut all_areas, self.areas[i].1[q]);
                proof {
                    assert forall|x: AreaId| before.contains(x) implies all_areas@.contains(x) by {
                        assert(before.to_set().contains(x));
                        assert(all_areas@.to_set().contains(x));
                    }
                    assert(all_areas@.to_set().contains(self.areas@[i as int].1@[q as int]));
                }
                q += 1;
            }
            proof {
                assert forall|j: int, a: AreaId| 0 <= j < i + 1 && #[trigger] self.areas@[j].1@.contains(a) implies all_areas@.contains(a) by {
                    if j == i {
                        let r = choose|r: int| 0 <= r < self.areas@[j].1@.len() && self.areas@[j].1@[r] == a;
                        assert(all_areas@.contains(self.areas@[i as int].1@[r]));
                    }
                }
            }
            i += 1;
        }
        let mut index: Vec<(Option<AreaId>, TagId, Vec<Cell>)> = Vec::new();
        let mut k: usize = 0;
        while k < all_tags.len()
            invariant
                keys_sorted(self.areas@),
                k <= all_tags.len(),
                forall|e: int|
                    0 <= e < index@.len() ==> (#[trigger] index@[e]).2@ == subjects_of(self.tags@, self.areas@, index@[e].0, index@[e].1),
                forall|r: int| 0 <= r < k ==> index_has(index@, None, #[trigger] all_tags@[r]),
            decreases all_tags.len() - k,
        {
            let t = all_tags[k];
            let cs = collect(&self.tags, &self.areas, None, t);
            let ghost before = index@;
            index.push((None, t, cs));
            proof {
                assert forall|r: int| 0 <= r < k + 1 implies index_has(index@, None, #[trigger] all_tags@[r]) by {
                    if r < k {
                        let e = choose|e: int| 0 <= e < before.len() && (#[trigger] before[e]).0 == None::<AreaId> && before[e].1 == all_tags@[r];
                        assert(index@[e] == before[e]);
                    } else {
                        assert(index@[index@.len() - 1].0 == None::<AreaId>);
                    }
                }
            }
            k += 1;
        }
        let mut ai: usize = 0;
        while ai < all_areas.len()
            invariant
                keys_sorted(self.areas@),
                ai <= all_areas.len(),
                forall|e: int|
                    0 <= e < index@.len() ==> (#[trigger] index@[e]).2@ == subjects_of(self.tags@, self.areas@, index@[e].0, index@[e].1),
                forall|r: int| 0 <= r < all_tags.len() ==> index_has(index@, None, #[trigger] all_tags@[r]),
                forall|aa: int, r: int|
                    0 <= aa < ai && 0 <= r < all_tags.len() ==> index_has(index@, Some(#[trigger] all_areas@[aa]), #[trigger] all_tags@[r]),
            decreases all_areas.len() - ai,
        {
            let a = all_areas[ai];
            let mut k: usize = 0;
            while k < all_tags.len()
                invariant
                    keys_sorted(self.areas@),
                    ai < all_areas.len(),
                    a == all_areas@[ai as int],
                    k <= all_tags.len(),
                    forall|e: int|
                        0 <= e < index@.len() ==> (#[trigger] index@[e]).2@ == subjects_of(self.tags@, self.areas@, index@[e].0, index@[e].1),
                    forall|r: int| 0 <= r < all_tags.len() ==> index_has(index@, None, #[trigger] all_tags@[r]),
                    forall|aa: int, r: int|
                        0 <= aa < ai && 0 <= r < all_tags.len() ==> index_has(index@, Some(#[trigger] all_areas@[aa]), #[trigger] all_tags@[r]),
                    forall|r: int| 0 <= r < k ==> index_has(index@, Some(a), #[trigger] all_tags@[r]),
                decreases all_tags.len() - k,
            {
                let t = all_tags[k];
                let cs = collect(&self.tags, &self.areas, Some(a), t);
                let ghost before = index@;
                index.push((Some(a), t, cs));
                proof {
                    assert forall|sc: Option<AreaId>, tt: TagId| index_has(before, sc, tt) implies index_has(index@, sc, tt) by {
                        let e = choose|e: int| 0 <= e < before.len() && (#[trigger] before[e]).0 == sc && before[e].1 == tt;
                        assert(index@[e] == before[e]);
                    }
                    assert(index@[index@.len() - 1].0 == Some(a) && index@[index@.len() - 1].1 == t);
                    assert(index_has(index@, Some(a), t));
                }
                k += 1;
            }
            proof {
                assert forall|aa: int, r: int|
                    0 <= aa < ai + 1 && 0 <= r < all_tags.len() implies index_has(index@, Some(#[trigger] all_areas@[aa]), #[trigger] all_tags@[r]) by {
                    if aa == ai {
                        assert(index_has(index@, Some(a), all_tags@[r]));
                    }
                }
            }
            ai += 1;
        }
        proof {
            assert forall|scope: Option<AreaId>, t: TagId|
                !#[trigger] index_has(index@, scope, t) implies subjects_of(self.tags@, self.areas@, scope, t)
                    == Seq::<Cell>::empty() by {
                if all_tags@.contains(t) {
                    let r = choose|r: int| 0 <= r < all_tags.len() && all_tags@[r] == t;
                    assert(index_has(index@, None, all_tags@[r]));
                    match scope {
                        None => {},
                        Some(a) => {
                            if all_areas@.contains(a) {
                                let aa = choose|aa: int| 0 <= aa < all_areas.len() && all_areas@[aa] == a;
                                assert(index_has(index@, Some(all_areas@[aa]), all_tags@[r]));
                            }
                            assert forall|j: int| 0 <= j < self.tags@.len() implies !((#[trigger] self.tags@[j]).1@.contains(t)
                                && in_scope(self.areas@, self.tags@[j].0, scope)) by {
                                let c = self.tags@[j].0;
                                if exists|q: int| 0 <= q < self.areas@.len() && (#[trigger] self.areas@[q]).0 == c {
                                    let q = choose|q: int| 0 <= q < self.areas@.len() && (#[trigger] self.areas@[q]).0 == c;
                                    lemma_lookup_at(self.areas@, q);
                                    if self.areas@[q].1@.contains(a) {
                                        assert(all_areas@.contains(a));
                                    }
                                }
                            }
                            lemma_subjects_of_empty(self.tags@, self.areas@, scope, t);
                        },
                    }
                } else {
                    assert forall|j: int| 0 <= j < self.tags@.len() implies !((#[trigger] self.tags@[j]).1@.contains(t)
                        && in_scope(self.areas@, self.tags@[j].0, scope)) by {}
                    lemma_subjects_of_empty(self.tags@, self.areas@, scope, t);
                }
            }
        }
        let site = Site {
            tags: self.tags,
            areas: self.areas,
            index,
            empty_tags: Vec::new(),
            empty_areas: Vec::new(),
            empty_cells: Vec::new(),
        };
        proof {
            assert forall|scope: Option<AreaId>, t: TagId| cells_sorted(#[trigger] site.site_subjects(scope, t)) by {
                lemma_subjects_of(site.tags@, site.areas@, scope, t);
            }
            assert forall|scope: Option<AreaId>, t: TagId, c: Cell|
                #[trigger] site.site_subjects(scope, t).contains(c) <==> (self.spec_tags(c).contains(t) && match scope {
                    None => true,
                    Some(a) => self.spec_areas(c).contains(a),
                }) by {
                lemma_subjects_of(site.tags@, site.areas@, scope, t);
                if exists|q: int| 0 <= q < self.tags@.len() && (#[trigger] self.tags@[q]).0 == c {
                    let q = choose|q: int| 0 <= q < self.tags@.len() && (#[trigger] self.tags@[q]).0 == c;
                    lemma_lookup_at(self.tags@, q);
                    if site.site_subjects(scope, t).contains(c) {
                        let i = choose|i: int| 0 <= i < self.tags@.len() && (#[trigger] self.tags@[i]).0 == c
                            && self.tags@[i].1@.contains(t) && in_scope(self.areas@, c, scope);
                        lemma_lookup_at(self.tags@, i);
                    }
                }
            }
        }
        site
    }
}

} // verus!
