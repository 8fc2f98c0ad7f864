//! The one carrier of a rule table. Its field is private to this module:
//! nothing outside it builds a `RuleSet` from an arbitrary slice but
//! through [`RuleSet::for_test`].

use vstd::prelude::*;
use super::RuleDef;

verus! {

/// A rule table, read-only once built.
#[derive(Debug, Clone, Copy)]
pub struct RuleSet<'a> {
    rules: &'a [RuleDef],
}

/// The key of the first row of `rules` whose id is `id`.
pub open spec fn first_key(rules: Seq<RuleDef>, id: u32) -> Option<&'static str>
    decreases rules.len(),
{
    if rules.len() == 0 {
        None
    } else if rules[0].id == id {
        Some(rules[0].key)
    } else {
        first_key(rules.drop_first(), id)
    }
}

impl<'a> RuleSet<'a> {
    /// The slice this set wraps.
    pub closed spec fn spec_slice(&self) -> &'a [RuleDef] {
        self.rules
    }

    /// The rows this set carries.
    pub open spec fn spec_rules(&self) -> Seq<RuleDef> {
        self.spec_slice()@
    }

    /// Builds a `RuleSet` from an arbitrary slice, so a test can pin one
    /// rule's behaviour without a whole table.
    pub fn for_test(rules: &'a [RuleDef]) -> (s: Self)
        ensures
            s.spec_rules() == rules@,
    {
        RuleSet { rules }
    }

    pub fn rules(&self) -> (r: &'a [RuleDef])
        ensures
            r@ == self.spec_rules(),
    {
        self.rules
    }

    /// A read-only view over every row, in table order.
    pub fn iter(&self) -> (it: std::slice::Iter<'a, RuleDef>)
        ensures
            it == vstd::std_specs::slice::spec_slice_iter(self.spec_slice()),
    {
        self.rules.iter()
    }

    /// The key of the first row with id `id`; `None` for an id this set
    /// does not carry.
    pub fn key_of(&self, id: u32) -> (r: Option<&'a str>)
        ensures
            r == first_key(self.spec_rules(), id),
    {
        let mut i: usize = 0;
        proof {
            assert(self.rules@.skip(0) =~= self.rules@);
        }
        while i < self.rules.len()
            invariant
                i <= self.rules.len(),
                first_key(self.rules@, id) == first_key(self.rules@.skip(i as int), id),
            decreases self.rules.len() - i,
        {
            proof {
                assert(self.rules@.skip(i as int).drop_first() =~= self.rules@.skip(i + 1));
            }
            if self.rules[i].id == id {
                return Some(self.rules[i].key);
            }
            i += 1;
        }
        proof {
            assert(self.rules@.skip(i as int) =~= Seq::<RuleDef>::empty());
        }
        None
    }
}

} // verus!
