use crate::context::{after_close, after_iteration, iterate_again, ContextView};
use crate::database::{describes, Oracle, ReductionView, RustIrDatabase};
use crate::goal::UCanonicalGoal;
use crate::recursive::STEP_LIMIT;
use crate::search_graph::{fresh_node, has_goal, DepthFirstNumber, Minimums, NodeView};
use crate::solution::{
    answer_view, identity_solution, ClausePriority, Fallible, Solution, SolutionView,
};
use crate::stack::{all_coinductive_from, Overflow, StackDepth, StackEntry};
use vstd::prelude::*;

verus! {

/// How a part of a query ends: the context and the bounds that it leaves,
/// the steps that are left, and its result, which is `Overflow` where the
/// query is given up.
pub struct Outcome<T> {
    pub context: ContextView,
    pub minimums: Minimums,
    pub steps: nat,
    pub result: Result<T, Overflow>,
}

/// The smaller of `steps` and `bound`.
pub open spec fn at_most(steps: nat, bound: nat) -> nat {
    if steps <= bound {
        steps
    } else {
        bound
    }
}

/// The node of `goal` in a graph that holds it.
pub open spec fn node_of(c: ContextView, goal: UCanonicalGoal) -> NodeView {
    c.graph[choose|i: int| 0 <= i < c.graph.len() && (#[trigger] c.graph[i]).goal == goal]
}

/// How solving `goal` ends, from the context `c` with the bounds
/// `minimums` and `steps` steps left, with a database that answers as
/// `oracle` says.
///
/// - With the goal's answer in the cache, it ends with that answer, and
///   nothing changes.
/// - With the goal in the graph, open, and every goal from it to the top of
///   the stack coinductive, it ends with the unique identity solution, and
///   nothing changes.
/// - With the goal in the graph otherwise, it ends with the answer in the
///   goal's node; the goal is flagged if it is open, and the bounds of the
///   node are merged into the bounds.
/// - With the stack at its limit, it ends with `Overflow`.
/// - Else the goal is opened, attempted until it needs no other attempt,
///   and closed.
pub open spec fn run_goal(
    oracle: Oracle,
    c: ContextView,
    goal: UCanonicalGoal,
    minimums: Minimums,
    steps: nat,
) -> Outcome<Option<SolutionView>>
    decreases steps, 3int,
{
    if c.cache.contains_key(goal.key()) {
        Outcome { context: c, minimums, steps, result: Ok(c.cache[goal.key()]) }
    } else if has_goal(c.graph, goal) {
        let node = node_of(c, goal);
        match node.stack_depth {
            Some(depth) => if all_coinductive_from(c.stack, depth.depth as int) {
                Outcome {
                    context: c,
                    minimums,
                    steps,
                    result: Ok(Some(identity_solution(goal.binders as nat))),
                }
            } else {
                Outcome {
                    context: ContextView {
                        stack: c.stack.update(
                            depth.depth as int,
                            StackEntry { cycle: true, ..c.stack[depth.depth as int] },
                        ),
                        ..c
                    },
                    minimums: minimums.merged(node.links),
                    steps,
                    result: Ok(node.solution),
                }
            },
            None => Outcome {
                context: c,
                minimums: minimums.merged(node.links),
                steps,
                result: Ok(node.solution),
            },
        }
    } else if c.stack.len() >= c.overflow_depth {
        Outcome { context: c, minimums, steps, result: Err(Overflow) }
    } else {
        let depth = StackDepth { depth: c.stack.len() as usize };
        let dfn = DepthFirstNumber { index: c.graph.len() as usize };
        let opened = ContextView {
            stack: c.stack.push(
                StackEntry { coinductive_goal: (oracle.coinductive)(goal), cycle: false },
            ),
            graph: c.graph.push(fresh_node(goal, depth, dfn)),
            ..c
        };
        let solved = run_new_subgoal(oracle, opened, goal, depth, dfn, steps);
        match solved.result {
            Ok(_) => Outcome {
                context: after_close(solved.context, dfn, solved.minimums),
                minimums: minimums.merged(solved.minimums),
                steps: solved.steps,
                result: Ok(solved.context.graph[dfn.index as int].solution),
            },
            Err(overflow) => Outcome {
                context: solved.context,
                minimums,
                steps: solved.steps,
                result: Err(overflow),
            },
        }
    }
}

/// How the attempts at `goal` end, which is open at `depth` with number
/// `dfn`: each attempt takes a step and starts from bounds that lean on
/// nothing; the attempts go on as long as `iterate_again` says. The bounds
/// left are those of the last attempt.
pub open spec fn run_new_subgoal(
    oracle: Oracle,
    c: ContextView,
    goal: UCanonicalGoal,
    depth: StackDepth,
    dfn: DepthFirstNumber,
    steps: nat,
) -> Outcome<()>
    decreases steps, 2int,
{
    if steps == 0 {
        Outcome { context: c, minimums: Minimums::spec_new(), steps, result: Err(Overflow) }
    } else {
        let attempt = run_iteration(
            oracle,
            c,
            goal,
            Minimums::spec_new(),
            Seq::empty(),
            (steps - 1) as nat,
        );
        match attempt.result {
            Ok((candidate, priority)) => {
                let next = after_iteration(attempt.context, depth, dfn, candidate, priority);
                if iterate_again(attempt.context, depth, dfn, candidate) {
                    run_new_subgoal(
                        oracle,
                        next,
                        goal,
                        depth,
                        dfn,
                        at_most(attempt.steps, (steps - 1) as nat),
                    )
                } else {
                    Outcome {
                        context: next,
                        minimums: attempt.minimums,
                        steps: attempt.steps,
                        result: Ok(()),
                    }
                }
            },
            Err(overflow) => Outcome {
                context: attempt.context,
                minimums: attempt.minimums,
                steps: attempt.steps,
                result: Err(overflow),
            },
        }
    }
}

/// How one attempt at `goal` ends, after the subgoals asked for so far
/// were answered with `answers`: each step of the reduction takes a step;
/// a subgoal that the oracle asks for is solved and its answer added to the
/// answers; the attempt ends when the oracle gives a candidate.
pub open spec fn run_iteration(
    oracle: Oracle,
    c: ContextView,
    goal: UCanonicalGoal,
    minimums: Minimums,
    answers: Seq<Option<SolutionView>>,
    steps: nat,
) -> Outcome<(Option<SolutionView>, ClausePriority)>
    decreases steps, 1int,
{
    if steps == 0 {
        Outcome { context: c, minimums, steps, result: Err(Overflow) }
    } else {
        match (oracle.reduce)(goal, answers) {
            ReductionView::Subgoal(subgoal) => {
                let solved = run_goal(oracle, c, subgoal, minimums, (steps - 1) as nat);
                match solved.result {
                    Ok(answer) => run_iteration(
                        oracle,
                        solved.context,
                        goal,
                        solved.minimums,
                        answers.push(answer),
                        at_most(solved.steps, (steps - 1) as nat),
                    ),
                    Err(overflow) => Outcome {
                        context: solved.context,
                        minimums: solved.minimums,
                        steps: solved.steps,
                        result: Err(overflow),
                    },
                }
            },
            ReductionView::Finished(candidate, priority) => Outcome {
                context: c,
                minimums,
                steps: (steps - 1) as nat,
                result: Ok((candidate, priority)),
            },
        }
    }
}

/// How a query for `goal` ends, put to the context `c` in which no goal is
/// open: the goal is solved with bounds that lean on nothing and with
/// `STEP_LIMIT` steps; where that ends with `Overflow`, every goal is
/// closed and the graph is emptied.
pub open spec fn run_root_goal(oracle: Oracle, c: ContextView, goal: UCanonicalGoal) -> (
    ContextView,
    Result<Option<SolutionView>, Overflow>,
) {
    let solved = run_goal(oracle, c, goal, Minimums::spec_new(), STEP_LIMIT as nat);
    match solved.result {
        Ok(answer) => (solved.context, Ok(answer)),
        Err(overflow) => (
            ContextView { stack: Seq::empty(), graph: Seq::empty(), ..solved.context },
            Err(overflow),
        ),
    }
}

/// The mathematical value of the result of solving a goal.
pub open spec fn result_view(r: Result<Fallible<Solution>, Overflow>) -> Result<
    Option<SolutionView>,
    Overflow,
> {
    match r {
        Ok(answer) => Ok(answer_view(answer)),
        Err(overflow) => Err(overflow),
    }
}

/// The mathematical value of the result of an attempt.
pub open spec fn candidate_view(r: Result<(Fallible<Solution>, ClausePriority), Overflow>)
    -> Result<(Option<SolutionView>, ClausePriority), Overflow> {
    match r {
        Ok((answer, priority)) => Ok((answer_view(answer), priority)),
        Err(overflow) => Err(overflow),
    }
}

/// Solving `goal` with `db` went as `run_goal` says, whatever oracle
/// describes `db`: from the context `before` with the bounds `bounds` and
/// `steps` steps, to the context `after` with the bounds `merged` and
/// `left` steps, with the result `r`.
pub open spec fn solved_as<D: RustIrDatabase>(
    db: &D,
    before: ContextView,
    goal: UCanonicalGoal,
    bounds: Minimums,
    steps: nat,
    after: ContextView,
    merged: Minimums,
    left: nat,
    r: Result<Fallible<Solution>, Overflow>,
) -> bool {
    forall|oracle: Oracle| #[trigger]
        describes(db, oracle) ==> run_goal(oracle, before, goal, bounds, steps) == (Outcome {
            context: after,
            minimums: merged,
            steps: left,
            result: result_view(r),
        })
}

/// An attempt at `goal` with `db` went as `run_iteration` says, whatever
/// oracle describes `db`.
pub open spec fn attempted_as<D: RustIrDatabase>(
    db: &D,
    before: ContextView,
    goal: UCanonicalGoal,
    bounds: Minimums,
    steps: nat,
    after: ContextView,
    merged: Minimums,
    left: nat,
    r: Result<(Fallible<Solution>, ClausePriority), Overflow>,
) -> bool {
    forall|oracle: Oracle| #[trigger]
        describes(db, oracle) ==> run_iteration(
            oracle,
            before,
            goal,
            bounds,
            Seq::empty(),
            steps,
        ) == (Outcome { context: after, minimums: merged, steps: left, result: candidate_view(r) })
}

/// The attempts at `goal` with `db` went as `run_new_subgoal` says,
/// whatever oracle describes `db`.
pub open spec fn settled_as<D: RustIrDatabase>(
    db: &D,
    before: ContextView,
    goal: UCanonicalGoal,
    depth: StackDepth,
    dfn: DepthFirstNumber,
    steps: nat,
    after: ContextView,
    left: nat,
    r: Result<Minimums, Overflow>,
) -> bool {
    forall|oracle: Oracle| #[trigger]
        describes(db, oracle) ==> {
            let run = run_new_subgoal(oracle, before, goal, depth, dfn, steps);
            &&& run.context == after
            &&& run.steps == left
            &&& match r {
                Ok(minimums) => run.result is Ok && run.minimums == minimums,
                Err(_) => run.result is Err,
            }
        }
}

/// The query for `goal` put to `db` went as `run_root_goal` says, whatever
/// oracle describes `db`.
pub open spec fn answered_as<D: RustIrDatabase>(
    db: &D,
    before: ContextView,
    goal: UCanonicalGoal,
    after: ContextView,
    r: Result<Fallible<Solution>, Overflow>,
) -> bool {
    forall|oracle: Oracle| #[trigger]
        describes(db, oracle) ==> run_root_goal(oracle, before, goal) == (after, result_view(r))
}

/// What is known of a call of `solve_goal` without knowing the database:
/// the call began in the context `before` with the bounds `bounds`, and
/// ended in the context `after` with the bounds `merged` and the result `r`.
pub open spec fn solve_goal_known(
    before: ContextView,
    goal: UCanonicalGoal,
    bounds: Minimums,
    after: ContextView,
    merged: Minimums,
    r: Result<Fallible<Solution>, Overflow>,
) -> bool {
    if before.cache.contains_key(goal.key()) {
        // A final answer.
        &&& r matches Ok(answer)
        &&& answer_view(answer) == before.cache[goal.key()]
        &&& after == before
        &&& merged == bounds
    } else if has_goal(before.graph, goal) {
        let node = node_of(before, goal);
        match node.stack_depth {
            Some(depth) if all_coinductive_from(before.stack, depth.depth as int) => {
                // A coinductive cycle.
                &&& r matches Ok(answer)
                &&& answer_view(answer) == Some(identity_solution(goal.binders as nat))
                &&& after == before
                &&& merged == bounds
            },
            Some(depth) => {
                // A cycle that is not coinductive.
                &&& r matches Ok(answer)
                &&& answer_view(answer) == node.solution
                &&& after == (ContextView {
                    stack: before.stack.update(
                        depth.depth as int,
                        StackEntry { cycle: true, ..before.stack[depth.depth as int] },
                    ),
                    ..before
                })
                &&& merged == bounds.merged(node.links)
            },
            None => {
                // A goal that was solved before in this query.
                &&& r matches Ok(answer)
                &&& answer_view(answer) == node.solution
                &&& after == before
                &&& merged == bounds.merged(node.links)
            },
        }
    } else if before.stack.len() >= before.overflow_depth {
        // No room for a new goal.
        &&& r is Err
        &&& after == before
        &&& merged == bounds
    } else {
        // A new goal, solved with the database.
        r matches Ok(answer) ==> {
            &&& merged.positive.index <= bounds.positive.index
            &&& merged.negative.index <= bounds.negative.index
            &&& after.cache.contains_key(goal.key()) ==> after.cache[goal.key()] == answer_view(
                answer,
            )
            &&& forall|i: int|
                0 <= i < after.graph.len() && (#[trigger] after.graph[i]).goal == goal
                    ==> after.graph[i].solution == answer_view(answer)
                    && after.graph[i].stack_depth is None
            &&& before.stack.len() == 0 ==> if after.caching_enabled {
                after.cache.contains_key(goal.key())
            } else {
                after.cache == before.cache
            }
        }
    }
}

} // verus!
