//! Extensible-set code tables: matter kinds, provisions, reason codes and
//! node kinds are `u32` codes plus a name -- a new variant is a row insert
//! rather than a migration. A code's number is as permanent as a primary
//! key: renumbering one, or handing a retired number to a different name,
//! would silently change the meaning of anything already stored under it.

pub mod layer;

use vstd::prelude::*;

verus! {

/// One row of an extensible set: `code` is what a referencing column
/// stores; `name` is what the companion table's row for it carries.
#[derive(Clone, Copy, Debug)]
pub struct Code {
    pub code: u32,
    pub name: &'static str,
}

/// A matter's jurisdiction category.
pub fn matter_kind_codes() -> (v: Vec<Code>)
    ensures
        v.len() == 4,
        forall|i: int| 0 <= i < 4 ==> #[trigger] v[i].code == i,
{
    vec![
        Code { code: 0, name: "sanitation" },
        Code { code: 1, name: "budget" },
        Code { code: 2, name: "housing" },
        Code { code: 3, name: "labour" },
    ]
}

/// What a macro-graph node advertises -- the index of what the city offers
/// at that node.
pub fn provision_codes() -> (v: Vec<Code>)
    ensures
        v.len() == 4,
        forall|i: int| 0 <= i < 4 ==> #[trigger] v[i].code == i,
{
    vec![
        Code { code: 0, name: "retail" },
        Code { code: 1, name: "employment" },
        Code { code: 2, name: "transit" },
        Code { code: 3, name: "housing" },
    ]
}

/// Why a decider acted on a matter.
pub fn reason_code_codes() -> (v: Vec<Code>)
    ensures
        v.len() == 4,
        forall|i: int| 0 <= i < 4 ==> #[trigger] v[i].code == i,
{
    vec![
        Code { code: 0, name: "insufficient_budget" },
        Code { code: 1, name: "low_severity" },
        Code { code: 2, name: "duplicate_complaint" },
        Code { code: 3, name: "out_of_jurisdiction" },
    ]
}

/// A macro-graph node's kind: interiors collapse to an entrance node, plus
/// an internal node for large buildings.
pub fn node_kind_codes() -> (v: Vec<Code>)
    ensures
        v.len() == 4,
        forall|i: int| 0 <= i < 4 ==> #[trigger] v[i].code == i,
{
    vec![
        Code { code: 0, name: "entrance" },
        Code { code: 1, name: "internal" },
        Code { code: 2, name: "street" },
        Code { code: 3, name: "transit_stop" },
    ]
}

} // verus!
