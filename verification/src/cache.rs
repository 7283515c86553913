use crate::fx_map::{fx_get, fx_insert, fx_new};
use crate::goal::{GoalKey, UCanonicalGoal};
use crate::solution::{answer_view, clone_answer, Fallible, Solution, SolutionView};
use rustc_hash::FxHashMap;
use vstd::prelude::*;

verus! {

/// The answers of the goals that have been solved for good, by goal. An
/// entry, once made, stays as it is.
pub struct Cache {
    map: FxHashMap<GoalKey, Fallible<Solution>>,
}

impl View for Cache {
    type V = Map<GoalKey, Option<SolutionView>>;

    closed spec fn view(&self) -> Map<GoalKey, Option<SolutionView>> {
        Map::new(
            |k: GoalKey| self.map@.contains_key(k),
            |k: GoalKey| answer_view(self.map@[k]),
        )
    }
}

impl Cache {
    /// A cache that holds nothing.
    pub fn new() -> (cache: Cache)
        ensures
            cache@ == Map::<GoalKey, Option<SolutionView>>::empty(),
    {
        let cache = Cache { map: fx_new() };
        assert(cache@ =~= Map::<GoalKey, Option<SolutionView>>::empty());
        cache
    }

    /// A copy of the answer stored for `goal`, if there is one.
    pub fn get(&self, goal: &UCanonicalGoal) -> (r: Option<Fallible<Solution>>)
        ensures
            match r {
                Some(answer) => self@.contains_key(goal.key()) && answer_view(answer)
                    == self@[goal.key()],
                None => !self@.contains_key(goal.key()),
            },
    {
        let key = goal.key();
        match fx_get(&self.map, &key) {
            Some(answer) => Some(clone_answer(answer)),
            None => None,
        }
    }

    /// Stores `answer` as the answer of `goal`.
    pub fn insert(&mut self, goal: &UCanonicalGoal, answer: Fallible<Solution>)
        ensures
            final(self)@ == old(self)@.insert(goal.key(), answer_view(answer)),
    {
        let _ = fx_insert(&mut self.map, goal.key(), answer);
        assert(self@ =~= old(self)@.insert(goal.key(), answer_view(answer)));
    }
}

} // verus!
