use vstd::prelude::*;

verus! {

/// What identifies a canonical goal: its interned content, the number of
/// canonical slots and the number of universes.
pub type GoalKey = (u64, usize, usize);

/// A closed goal in canonical form. Every existential unknown has been
/// replaced by one of `binders` positionally numbered slots, and `universes`
/// counts the universally quantified scopes. Two canonical goals are the same
/// goal exactly when the three fields agree.
#[derive(Clone, Copy, Debug, PartialEq, Eq, Structural, Hash)]
pub struct UCanonicalGoal {
    /// The interned content of the goal after canonicalization.
    pub goal: u64,
    /// The number of canonical slots that stand for existential unknowns.
    pub binders: usize,
    /// The number of universally quantified scopes.
    pub universes: usize,
}

impl UCanonicalGoal {
    /// The identity of the goal, as the tables key it.
    pub open spec fn spec_key(self) -> GoalKey {
        (self.goal, self.binders, self.universes)
    }

    #[verifier::when_used_as_spec(spec_key)]
    pub fn key(self) -> (k: GoalKey)
        ensures
            k == self.spec_key(),
    {
        (self.goal, self.binders, self.universes)
    }
}

/// Two goals with one key are one goal.
pub proof fn lemma_key_injective(a: UCanonicalGoal, b: UCanonicalGoal)
    requires
        a.key() == b.key(),
    ensures
        a == b,
{
}

} // verus!
