//! One shared balance-key lookup.

use vstd::prelude::*;
use crate::defs::{BalanceSeed, str_eq};

verus! {

/// Whether `balance` carries `key` at all.
pub open spec fn has_key(balance: Seq<BalanceSeed>, key: Seq<char>) -> bool {
    exists|i: int| 0 <= i < balance.len() && (#[trigger] balance[i]).key@ == key
}

/// The index of the first seed in `balance` carrying `key`.
pub open spec fn first_index(balance: Seq<BalanceSeed>, key: Seq<char>) -> int
    recommends
        has_key(balance, key),
{
    choose|i: int|
        0 <= i < balance.len() && balance[i].key@ == key && forall|j: int|
            0 <= j < i ==> (#[trigger] balance[j]).key@ != key
}

/// The value the first seed carrying `key` holds.
pub open spec fn spec_value(balance: Seq<BalanceSeed>, key: Seq<char>) -> i64 {
    balance[first_index(balance, key)].value
}

/// Looks up `key` in `balance`: the value of the first seed carrying it.
/// A missing key is a content-authoring bug the caller must rule out.
pub fn value(balance: &[BalanceSeed], key: &str) -> (v: i64)
    requires
        has_key(balance@, key@),
    ensures
        v == spec_value(balance@, key@),
{
    let mut i: usize = 0;
    while i < balance.len()
        invariant
            0 <= i <= balance.len(),
            has_key(balance@, key@),
            forall|j: int| 0 <= j < i ==> (#[trigger] balance@[j]).key@ != key@,
        decreases balance.len() - i,
    {
        if str_eq(balance[i].key, key) {
            proof {
                let k = first_index(balance@, key@);
                assert(0 <= i < balance@.len() && balance@[i as int].key@ == key@ && forall|j: int|
                    0 <= j < i ==> (#[trigger] balance@[j]).key@ != key@);
                if k < i {
                    assert(balance@[k].key@ != key@);
                } else if k > i {
                    assert(balance@[i as int].key@ != key@);
                }
            }
            return balance[i].value;
        }
        i += 1;
    }
    proof {
        let w = choose|w: int| 0 <= w < balance@.len() && (#[trigger] balance@[w]).key@ == key@;
        assert(balance@[w].key@ != key@);
    }
    0
}

} // verus!
