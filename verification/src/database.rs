use crate::goal::UCanonicalGoal;
use crate::solution::{answer_view, ClausePriority, Fallible, Solution, SolutionView};
use vstd::prelude::*;

verus! {

/// One step of the reduction of a goal.
#[derive(Debug)]
pub enum Reduction {
    /// The answer of this goal is needed to go on.
    Subgoal(UCanonicalGoal),
    /// The attempt is over, with this candidate answer and its priority.
    Finished(Fallible<Solution>, ClausePriority),
}

/// The mathematical value of a [`Reduction`].
pub enum ReductionView {
    Subgoal(UCanonicalGoal),
    Finished(Option<SolutionView>, ClausePriority),
}

impl View for Reduction {
    type V = ReductionView;

    open spec fn view(&self) -> ReductionView {
        match *self {
            Reduction::Subgoal(goal) => ReductionView::Subgoal(goal),
            Reduction::Finished(answer, priority) => ReductionView::Finished(
                answer_view(answer),
                priority,
            ),
        }
    }
}

/// The mathematical values of a list of answers.
pub open spec fn answers_view(answers: Seq<Fallible<Solution>>) -> Seq<Option<SolutionView>> {
    Seq::new(answers.len(), |i: int| answer_view(answers[i]))
}

/// The database of declarations, with the clauses and the unification that
/// go with it, as far as the engine needs them. Both operations must be
/// pure: the context's cache and graph are sound for one unchanging
/// database only.
pub trait RustIrDatabase {
    /// Whether a cycle through `goal` counts as a proof of it.
    fn is_coinductive(&self, goal: &UCanonicalGoal) -> bool;

    /// Tries to reduce `goal` one step, given the answers of the subgoals
    /// that this attempt has asked for so far, in the order in which it
    /// asked.
    fn reduce(&self, goal: &UCanonicalGoal, answers: &Vec<Fallible<Solution>>) -> Reduction;
}

/// What a pure database answers: for each goal whether it is coinductive,
/// and for each goal and each list of answers the next step of the
/// reduction.
pub struct Oracle {
    pub coinductive: spec_fn(UCanonicalGoal) -> bool,
    pub reduce: spec_fn(UCanonicalGoal, Seq<Option<SolutionView>>) -> ReductionView,
}

/// Whether `db` answers as `oracle` says, whenever it answers.
pub open spec fn describes<D: RustIrDatabase>(db: &D, oracle: Oracle) -> bool {
    &&& forall|goal: UCanonicalGoal, r: bool| #[trigger]
        call_ensures(D::is_coinductive, (db, &goal), r) ==> r == (oracle.coinductive)(goal)
    &&& forall|goal: UCanonicalGoal, answers: Vec<Fallible<Solution>>, r: Reduction| #[trigger]
        call_ensures(D::reduce, (db, &goal, &answers), r) ==> r@ == (oracle.reduce)(
            goal,
            answers_view(answers@),
        )
}

} // verus!
