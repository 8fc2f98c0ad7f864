//! A cell's rendering-order dimension within its floor: never a second
//! collision dimension. A layer carries its depth-sort `rank` inline on the
//! same entry as `code`/`name`. `ground` (rank 0) is the flat-pass surface;
//! the five pool layers are minted a decade apart. `overhead` (code 1,
//! rank 1) is deprecated: the row stays forever, but nothing may place new
//! content on it.

use vstd::prelude::*;

verus! {

/// One layer code and its depth-sort rank.
#[derive(Clone, Copy, Debug)]
pub struct LayerCode {
    pub code: u32,
    pub name: &'static str,
    pub rank: u32,
}

/// The `(code, rank)` pairs of every layer, in table order.
pub open spec fn layer_ranks() -> Seq<(u32, u32)> {
    seq![(0u32, 0u32), (1, 1), (2, 10), (3, 20), (4, 30), (5, 40), (6, 50)]
}

/// Every layer code, in table order.
pub fn codes() -> (v: Vec<LayerCode>)
    ensures
        v.len() == layer_ranks().len(),
        forall|i: int|
            0 <= i < v.len() ==> (#[trigger] v[i].code, v[i].rank) == layer_ranks()[i],
{
    let v = vec![
        LayerCode { code: 0, name: "ground", rank: 0 },
        LayerCode { code: 1, name: "overhead", rank: 1 },
        LayerCode { code: 2, name: "furniture", rank: 10 },
        LayerCode { code: 3, name: "objects", rank: 20 },
        LayerCode { code: 4, name: "walls", rank: 30 },
        LayerCode { code: 5, name: "wall_decals", rank: 40 },
        LayerCode { code: 6, name: "characters", rank: 50 },
    ];
    assert(forall|i: int|
        0 <= i < v.len() ==> (#[trigger] v[i].code, v[i].rank) == layer_ranks()[i]);
    v
}

/// The codes no placement may ever use again -- a usage ban, not a
/// deletion.
pub open spec fn spec_deprecated_codes() -> Seq<u32> {
    seq![1u32]
}

/// Codes banned from new placement, in table order.
pub fn deprecated_codes() -> (v: Vec<u32>)
    ensures
        v@ == spec_deprecated_codes(),
{
    let v = vec![1u32];
    assert(v@ =~= spec_deprecated_codes());
    v
}

/// Whether `code` is banned from new placement. Total over every `u32`,
/// including a code the table has never heard of.
pub fn is_deprecated(code: u32) -> (b: bool)
    ensures
        b == spec_deprecated_codes().contains(code),
{
    let deprecated = deprecated_codes();
    let mut i: usize = 0;
    while i < deprecated.len()
        invariant
            deprecated@ == spec_deprecated_codes(),
            0 <= i <= deprecated.len(),
            forall|j: int| 0 <= j < i ==> deprecated@[j] != code,
        decreases deprecated.len() - i,
    {
        if deprecated[i] == code {
            return true;
        }
        i += 1;
    }
    false
}

/// Why [`live_rank`] refused a code -- a plain enum, not a formatted
/// `String`, so reporting the refusal never allocates.
#[derive(Debug, Clone, Copy, PartialEq, Eq, Structural)]
pub enum RankLookupError {
    Deprecated(u32),
    Unknown(u32),
}

/// The rank the layer table gives `code`, if any.
pub open spec fn table_rank(code: u32) -> Option<u32> {
    if exists|i: int| 0 <= i < layer_ranks().len() && layer_ranks()[i].0 == code {
        let i = choose|i: int| 0 <= i < layer_ranks().len() && layer_ranks()[i].0 == code;
        Some(layer_ranks()[i].1)
    } else {
        None
    }
}

/// What [`live_rank`] answers for `code`.
pub open spec fn spec_live_rank(code: u32) -> Result<u32, RankLookupError> {
    if spec_deprecated_codes().contains(code) {
        Err(RankLookupError::Deprecated(code))
    } else {
        match table_rank(code) {
            Some(r) => Ok(r),
            None => Err(RankLookupError::Unknown(code)),
        }
    }
}

/// The depth-sort rank for a live (non-deprecated, known) layer code --
/// `Err` for a deprecated or unknown code, never a silent fallback rank.
pub fn live_rank(code: u32) -> (r: Result<u32, RankLookupError>)
    ensures
        r == spec_live_rank(code),
{
    if is_deprecated(code) {
        return Err(RankLookupError::Deprecated(code));
    }
    let table = codes();
    let mut i: usize = 0;
    while i < table.len()
        invariant
            table.len() == layer_ranks().len(),
            !spec_deprecated_codes().contains(code),
            forall|k: int|
                0 <= k < table.len() ==> (#[trigger] table[k].code, table[k].rank)
                    == layer_ranks()[k],
            0 <= i <= table.len(),
            forall|j: int| 0 <= j < i ==> layer_ranks()[j].0 != code,
        decreases table.len() - i,
    {
        if table[i].code == code {
            assert((table[i as int].code, table[i as int].rank) == layer_ranks()[i as int]);
            proof {
                assert(0 <= i < layer_ranks().len() && layer_ranks()[i as int].0 == code);
                let k = choose|k: int|
                    0 <= k < layer_ranks().len() && layer_ranks()[k].0 == code;
                assert(forall|a: int|
                    0 <= a < layer_ranks().len() ==> #[trigger] layer_ranks()[a].0 == a);
                assert(k == i);
                assert(table_rank(code) == Some(table[i as int].rank));
                assert(!spec_deprecated_codes().contains(code));
            }
            return Ok(table[i].rank);
        }
        i += 1;
    }
    Err(RankLookupError::Unknown(code))
}

} // verus!
