use crate::context::{
    after_close, after_iteration, cache_kept, fresh_context, iterate_again, unsettled, ContextView,
};
use crate::database::{describes, Oracle, ReductionView, RustIrDatabase};
use crate::goal::{GoalKey, UCanonicalGoal};
use crate::recursive::STEP_LIMIT;
use crate::search_graph::{
    distinct_goals, fresh_node, has_goal, has_key_from, DepthFirstNumber, Minimums, NodeView,
};
use crate::semantics::{
    answered_as, node_of, result_view, run_goal, run_iteration, run_new_subgoal, run_root_goal,
    solve_goal_known,
};
use crate::solution::{
    answer_advances, answer_rank, answer_view, identity_solution, ClausePriority, Fallible,
    Solution, SolutionView,
};
use crate::stack::{all_coinductive_from, Overflow, StackDepth, StackEntry};
use vstd::prelude::*;

verus! {

/// An attempt to which no deeper goal looped back is final: its candidate
/// is stored, nothing else in the graph changes, and the goal is not
/// attempted again.
pub proof fn lemma_attempt_without_cycle_is_final(
    c: ContextView,
    depth: StackDepth,
    dfn: DepthFirstNumber,
    candidate: Option<SolutionView>,
    priority: ClausePriority,
)
    requires
        depth.depth < c.stack.len(),
        dfn.index < c.graph.len(),
        !c.stack[depth.depth as int].cycle,
    ensures
        !iterate_again(c, depth, dfn, candidate),
        after_iteration(c, depth, dfn, candidate, priority).graph == c.graph.update(
            dfn.index as int,
            NodeView {
                solution: candidate,
                solution_priority: priority,
                ..c.graph[dfn.index as int]
            },
        ),
{
}

/// An attempt that gives the answer that the deeper goals saw has reached a
/// fixed point: the graph stays as it is and the goal is not attempted
/// again.
pub proof fn lemma_fixed_point_stops(
    c: ContextView,
    depth: StackDepth,
    dfn: DepthFirstNumber,
    candidate: Option<SolutionView>,
    priority: ClausePriority,
)
    requires
        depth.depth < c.stack.len(),
        dfn.index < c.graph.len(),
        c.stack[depth.depth as int].cycle,
        c.graph[dfn.index as int].solution == candidate,
    ensures
        !iterate_again(c, depth, dfn, candidate),
        after_iteration(c, depth, dfn, candidate, priority).graph == c.graph,
{
}

/// A goal that is open without an answer, and whose one attempt came back
/// to it and found nothing, is left without an answer and is not attempted
/// again.
pub proof fn lemma_cycle_without_base_case_has_no_value(
    c: ContextView,
    depth: StackDepth,
    dfn: DepthFirstNumber,
    priority: ClausePriority,
)
    requires
        depth.depth < c.stack.len(),
        dfn.index < c.graph.len(),
        c.stack[depth.depth as int].cycle,
        c.graph[dfn.index as int] == fresh_node(
            c.graph[dfn.index as int].goal,
            depth,
            dfn,
        ),
    ensures
        !iterate_again(c, depth, dfn, None),
        after_iteration(c, depth, dfn, None, priority).graph[dfn.index as int].solution is None,
{
}

/// An ambiguous candidate ends the attempts at a goal, and is the answer
/// that the goal is left with.
pub proof fn lemma_ambiguous_stops(
    c: ContextView,
    depth: StackDepth,
    dfn: DepthFirstNumber,
    candidate: Option<SolutionView>,
    priority: ClausePriority,
)
    requires
        depth.depth < c.stack.len(),
        dfn.index < c.graph.len(),
        answer_rank(candidate) == 2,
    ensures
        !iterate_again(c, depth, dfn, candidate),
        after_iteration(c, depth, dfn, candidate, priority).graph[dfn.index as int].solution
            == candidate,
        after_iteration(c, depth, dfn, candidate, priority).graph.len() == c.graph.len(),
{
}

/// Where a goal is attempted again, its new answer differs from the one
/// that the deeper goals saw and is not ambiguous, and everything that was
/// met after the goal is forgotten.
pub proof fn lemma_next_attempt_starts_afresh(
    c: ContextView,
    depth: StackDepth,
    dfn: DepthFirstNumber,
    candidate: Option<SolutionView>,
    priority: ClausePriority,
)
    requires
        depth.depth < c.stack.len(),
        dfn.index < c.graph.len(),
        iterate_again(c, depth, dfn, candidate),
    ensures
        after_iteration(c, depth, dfn, candidate, priority).graph.len() == dfn.index + 1,
        after_iteration(c, depth, dfn, candidate, priority).graph[dfn.index as int].solution
            == candidate,
        candidate != c.graph[dfn.index as int].solution,
        answer_rank(candidate) < 2,
        !after_iteration(c, depth, dfn, candidate, priority).stack[depth.depth as int].cycle,
{
}

/// The fixed point is monotonic: where the candidates of a goal's attempts
/// only advance on the answer that the goal's node holds, the second
/// attempt is the last. Here `c` is the context when the first attempt
/// ends, with the candidate `first`, which calls for another attempt; and
/// `next` is the context when the second attempt ends, with the candidate
/// `second`, the node still holding `first`.
pub proof fn lemma_advancing_attempts_end_with_the_second(
    c: ContextView,
    depth: StackDepth,
    dfn: DepthFirstNumber,
    first: Option<SolutionView>,
    priority: ClausePriority,
    next: ContextView,
    second: Option<SolutionView>,
)
    requires
        depth.depth < c.stack.len(),
        dfn.index < c.graph.len(),
        dfn.index < next.graph.len(),
        answer_advances(c.graph[dfn.index as int].solution, first),
        iterate_again(c, depth, dfn, first),
        next.graph[dfn.index as int].solution == after_iteration(
            c,
            depth,
            dfn,
            first,
            priority,
        ).graph[dfn.index as int].solution,
        answer_advances(first, second),
    ensures
        answer_rank(c.graph[dfn.index as int].solution) < answer_rank(first),
        answer_rank(first) <= answer_rank(second),
        !iterate_again(next, depth, dfn, second),
{
}

/// Caching changes the cache and nothing else: closing a goal leaves the
/// same stack and the same graph whether caching is enabled or not. Without
/// caching the cache stays as it is; with it, the cache keeps what it held.
pub proof fn lemma_caching_changes_the_cache_only(
    c: ContextView,
    dfn: DepthFirstNumber,
    minimums: Minimums,
)
    requires
        dfn.index < c.graph.len(),
        unsettled(c.graph, c.cache),
    ensures
        ({
            let with = after_close(ContextView { caching_enabled: true, ..c }, dfn, minimums);
            let without = after_close(ContextView { caching_enabled: false, ..c }, dfn, minimums);
            &&& with.stack == without.stack
            &&& with.graph == without.graph
            &&& without.cache == c.cache
            &&& cache_kept(c.cache, with.cache)
        }),
{
    let closed = c.graph.update(
        dfn.index as int,
        NodeView { links: minimums, stack_depth: None, ..c.graph[dfn.index as int] },
    );
    assert forall|k: GoalKey| #[trigger] c.cache.contains_key(k) implies !has_key_from(
        closed,
        dfn.index as int,
        k,
    ) by {
        if has_key_from(closed, dfn.index as int, k) {
            let j = choose|j: int|
                dfn.index <= j < closed.len() && (#[trigger] closed[j]).goal.key() == k;
            assert(c.graph[j].goal == closed[j].goal);
        }
    }
}

/// A goal that is open, with every goal from it to the top of the stack
/// coinductive, is answered with the unique identity solution, and the
/// context and the bounds stay as they are.
pub proof fn lemma_coinductive_cycle_succeeds(
    before: ContextView,
    goal: UCanonicalGoal,
    bounds: Minimums,
    after: ContextView,
    merged: Minimums,
    r: Result<Fallible<Solution>, Overflow>,
    dfn: DepthFirstNumber,
)
    requires
        solve_goal_known(before, goal, bounds, after, merged, r),
        distinct_goals(before.graph),
        !before.cache.contains_key(goal.key()),
        dfn.index < before.graph.len(),
        before.graph[dfn.index as int].goal == goal,
        before.graph[dfn.index as int].stack_depth is Some,
        all_coinductive_from(
            before.stack,
            before.graph[dfn.index as int].stack_depth->0.depth as int,
        ),
    ensures
        r matches Ok(answer) && answer_view(answer) == Some(
            identity_solution(goal.binders as nat),
        ),
        after == before,
        merged == bounds,
{
    assert(node_of(before, goal) == before.graph[dfn.index as int]);
}

/// A goal that is open, with a goal that is not coinductive between it and
/// the top of the stack, is answered with the answer in its node, and is
/// flagged: it will be attempted again unless that answer stands.
pub proof fn lemma_inductive_cycle_is_flagged(
    before: ContextView,
    goal: UCanonicalGoal,
    bounds: Minimums,
    after: ContextView,
    merged: Minimums,
    r: Result<Fallible<Solution>, Overflow>,
    dfn: DepthFirstNumber,
)
    requires
        solve_goal_known(before, goal, bounds, after, merged, r),
        distinct_goals(before.graph),
        !before.cache.contains_key(goal.key()),
        dfn.index < before.graph.len(),
        before.graph[dfn.index as int].goal == goal,
        before.graph[dfn.index as int].stack_depth is Some,
        before.graph[dfn.index as int].stack_depth->0.depth < before.stack.len(),
        !all_coinductive_from(
            before.stack,
            before.graph[dfn.index as int].stack_depth->0.depth as int,
        ),
    ensures
        r matches Ok(answer) && answer_view(answer) == before.graph[dfn.index as int].solution,
        after.stack[before.graph[dfn.index as int].stack_depth->0.depth as int].cycle,
        after.graph == before.graph,
        after.cache == before.cache,
        merged == bounds.merged(before.graph[dfn.index as int].links),
{
    assert(node_of(before, goal) == before.graph[dfn.index as int]);
}

/// A goal that is neither cached nor in the graph, met when the stack is at
/// its limit, ends the query with `Overflow` and changes nothing.
pub proof fn lemma_full_stack_overflows(
    before: ContextView,
    goal: UCanonicalGoal,
    bounds: Minimums,
    after: ContextView,
    merged: Minimums,
    r: Result<Fallible<Solution>, Overflow>,
)
    requires
        solve_goal_known(before, goal, bounds, after, merged, r),
        !before.cache.contains_key(goal.key()),
        !has_goal(before.graph, goal),
        before.stack.len() >= before.overflow_depth,
    ensures
        r is Err,
        after == before,
{
}

/// Queries are deterministic: with a database that answers as some oracle
/// says, two queries for one goal, each put to a new context with the same
/// configuration, end with the same answer and leave the same context.
pub proof fn lemma_fresh_contexts_agree<D: RustIrDatabase>(
    db: &D,
    oracle: Oracle,
    overflow_depth: nat,
    caching_enabled: bool,
    goal: UCanonicalGoal,
    first_after: ContextView,
    first: Result<Fallible<Solution>, Overflow>,
    second_after: ContextView,
    second: Result<Fallible<Solution>, Overflow>,
)
    requires
        describes(db, oracle),
        answered_as(db, fresh_context(overflow_depth, caching_enabled), goal, first_after, first),
        answered_as(db, fresh_context(overflow_depth, caching_enabled), goal, second_after, second),
    ensures
        result_view(first) == result_view(second),
        first_after == second_after,
{
}

/// Whether the reduction of each goal of `chain` but the last begins by
/// asking for the next goal of the chain.
pub open spec fn asks_along(oracle: Oracle, chain: Seq<UCanonicalGoal>) -> bool {
    forall|i: int|
        0 <= i < chain.len() - 1 ==> (oracle.reduce)(#[trigger] chain[i], Seq::empty())
            == ReductionView::Subgoal(chain[i + 1])
}

/// Solving the goal of `chain` at position `depth` ends with `Overflow`,
/// where the goals before it are open, in their order, and the chain goes
/// on beyond the limit of the stack.
proof fn lemma_chain_overflows_from(
    oracle: Oracle,
    c: ContextView,
    chain: Seq<UCanonicalGoal>,
    depth: nat,
    minimums: Minimums,
    steps: nat,
)
    requires
        c.overflow_depth <= usize::MAX,
        chain.len() > c.overflow_depth,
        chain.no_duplicates(),
        asks_along(oracle, chain),
        forall|i: int| 0 <= i < chain.len() ==> !c.cache.contains_key((#[trigger] chain[i]).key()),
        depth <= c.overflow_depth,
        c.stack.len() == depth,
        c.graph.len() == depth,
        forall|i: int| 0 <= i < depth ==> (#[trigger] c.graph[i]).goal == chain[i],
    ensures
        run_goal(oracle, c, chain[depth as int], minimums, steps).result is Err,
    decreases c.overflow_depth - depth,
{
    let goal = chain[depth as int];
    assert(!has_goal(c.graph, goal)) by {
        if has_goal(c.graph, goal) {
            let i = choose|i: int| 0 <= i < c.graph.len() && (#[trigger] c.graph[i]).goal == goal;
            assert(chain[i] == chain[depth as int]);
        }
    }
    if depth < c.overflow_depth && steps >= 2 {
        let at = StackDepth { depth: c.stack.len() as usize };
        let dfn = DepthFirstNumber { index: c.graph.len() as usize };
        let opened = ContextView {
            stack: c.stack.push(
                StackEntry {
                    coinductive_goal: (oracle.coinductive)(goal),
                    cycle: false,
                },
            ),
            graph: c.graph.push(fresh_node(goal, at, dfn)),
            ..c
        };
        lemma_chain_overflows_from(
            oracle,
            opened,
            chain,
            depth + 1,
            Minimums::spec_new(),
            (steps - 2) as nat,
        );
        let attempt = run_iteration(
            oracle,
            opened,
            goal,
            Minimums::spec_new(),
            Seq::empty(),
            (steps - 1) as nat,
        );
        assert(attempt.result is Err);
        assert(run_new_subgoal(oracle, opened, goal, at, dfn, steps).result is Err);
    }
}

/// The overflow guard: a query for the first goal of a chain of goals, each
/// of which needs the next, ends with `Overflow` where the chain is longer
/// than the stack may grow.
pub proof fn lemma_deep_chain_overflows(
    oracle: Oracle,
    c: ContextView,
    chain: Seq<UCanonicalGoal>,
)
    requires
        c.stack.len() == 0,
        c.graph.len() == 0,
        c.overflow_depth <= usize::MAX,
        chain.len() > c.overflow_depth,
        chain.no_duplicates(),
        asks_along(oracle, chain),
        forall|i: int| 0 <= i < chain.len() ==> !c.cache.contains_key((#[trigger] chain[i]).key()),
    ensures
        run_root_goal(oracle, c, chain[0]).1 is Err,
{
    lemma_chain_overflows_from(
        oracle,
        c,
        chain,
        0,
        Minimums::spec_new(),
        STEP_LIMIT as nat,
    );
}

/// Coinductive termination: a query for a coinductive goal whose
/// reduction asks for the goal itself, and gives the answer that comes
/// back, ends with the unique identity solution.
pub proof fn lemma_coinductive_self_cycle_is_unique(
    oracle: Oracle,
    c: ContextView,
    goal: UCanonicalGoal,
    priority: ClausePriority,
)
    requires
        c.stack.len() == 0,
        c.graph.len() == 0,
        c.overflow_depth >= 1,
        !c.cache.contains_key(goal.key()),
        (oracle.coinductive)(goal),
        (oracle.reduce)(goal, Seq::empty()) == ReductionView::Subgoal(goal),
        (oracle.reduce)(goal, seq![Some(identity_solution(goal.binders as nat))])
            == ReductionView::Finished(Some(identity_solution(goal.binders as nat)), priority),
    ensures
        run_root_goal(oracle, c, goal).1 == Ok::<Option<SolutionView>, Overflow>(
            Some(identity_solution(goal.binders as nat)),
        ),
{
    let steps = STEP_LIMIT as nat;
    let depth = StackDepth { depth: 0 };
    let dfn = DepthFirstNumber { index: 0 };
    let entry = StackEntry { coinductive_goal: true, cycle: false };
    let opened = ContextView {
        stack: c.stack.push(entry),
        graph: c.graph.push(fresh_node(goal, depth, dfn)),
        ..c
    };
    let identity = Some(identity_solution(goal.binders as nat));
    assert(!has_goal(c.graph, goal));
    // The goal is met again while it is open, on a stack that is
    // coinductive from it to the top.
    assert(opened.graph[0].goal == goal);
    assert(has_goal(opened.graph, goal));
    assert(node_of(opened, goal) == opened.graph[0]);
    assert(all_coinductive_from(opened.stack, 0));
    let inner = run_goal(oracle, opened, goal, Minimums::spec_new(), (steps - 2) as nat);
    assert(inner.result == Ok::<Option<SolutionView>, Overflow>(identity));
    assert(inner.context == opened);
    assert(Seq::<Option<SolutionView>>::empty().push(identity) =~= seq![identity]);
    let last = run_iteration(
        oracle,
        opened,
        goal,
        Minimums::spec_new(),
        seq![identity],
        (steps - 2) as nat,
    );
    assert(last.result == Ok::<(Option<SolutionView>, ClausePriority), Overflow>(
        (identity, priority),
    ));
    let attempt = run_iteration(
        oracle,
        opened,
        goal,
        Minimums::spec_new(),
        Seq::empty(),
        (steps - 1) as nat,
    );
    assert(attempt == last);
    assert(!iterate_again(opened, depth, dfn, identity));
    let solved = run_new_subgoal(oracle, opened, goal, depth, dfn, steps);
    assert(solved.result is Ok);
    assert(solved.context.graph[0].solution == identity);
}

/// A cycle that is not coinductive does not loop: a query for a goal that
/// is not coinductive, whose reduction asks for the goal itself and finds
/// nothing when nothing comes back, ends with no value.
pub proof fn lemma_inductive_self_cycle_has_no_value(
    oracle: Oracle,
    c: ContextView,
    goal: UCanonicalGoal,
    priority: ClausePriority,
)
    requires
        c.stack.len() == 0,
        c.graph.len() == 0,
        c.overflow_depth >= 1,
        !c.cache.contains_key(goal.key()),
        !(oracle.coinductive)(goal),
        (oracle.reduce)(goal, Seq::empty()) == ReductionView::Subgoal(goal),
        (oracle.reduce)(goal, seq![None]) == ReductionView::Finished(None, priority),
    ensures
        run_root_goal(oracle, c, goal).1 == Ok::<Option<SolutionView>, Overflow>(None),
{
    let steps = STEP_LIMIT as nat;
    let depth = StackDepth { depth: 0 };
    let dfn = DepthFirstNumber { index: 0 };
    let entry = StackEntry { coinductive_goal: false, cycle: false };
    let opened = ContextView {
        stack: c.stack.push(entry),
        graph: c.graph.push(fresh_node(goal, depth, dfn)),
        ..c
    };
    assert(!has_goal(c.graph, goal));
    // The goal is met again while it is open: it is flagged, and its
    // answer so far is none.
    assert(opened.graph[0].goal == goal);
    assert(has_goal(opened.graph, goal));
    assert(node_of(opened, goal) == opened.graph[0]);
    assert(!all_coinductive_from(opened.stack, 0)) by {
        assert(!opened.stack[0].coinductive_goal);
    }
    let inner = run_goal(oracle, opened, goal, Minimums::spec_new(), (steps - 2) as nat);
    assert(inner.result == Ok::<Option<SolutionView>, Overflow>(None));
    assert(inner.context.stack[0].cycle);
    assert(inner.context.graph == opened.graph);
    assert(Seq::<Option<SolutionView>>::empty().push(None) =~= seq![None]);
    let last = run_iteration(
        oracle,
        inner.context,
        goal,
        inner.minimums,
        seq![None],
        (steps - 2) as nat,
    );
    assert(last.result == Ok::<(Option<SolutionView>, ClausePriority), Overflow>((None, priority)));
    let attempt = run_iteration(
        oracle,
        opened,
        goal,
        Minimums::spec_new(),
        Seq::empty(),
        (steps - 1) as nat,
    );
    assert(attempt == last);
    // The attempt found what the cycle saw: a fixed point.
    assert(!iterate_again(inner.context, depth, dfn, None));
    let solved = run_new_subgoal(oracle, opened, goal, depth, dfn, steps);
    assert(solved.result is Ok);
    assert(solved.context.graph[0].solution is None);
}

/// A query for a goal whose reduction ends at once is answered with the
/// candidate of that reduction.
pub proof fn lemma_fact_is_answered_at_once(
    oracle: Oracle,
    c: ContextView,
    goal: UCanonicalGoal,
    candidate: Option<SolutionView>,
    priority: ClausePriority,
)
    requires
        c.stack.len() == 0,
        c.graph.len() == 0,
        c.overflow_depth >= 1,
        !c.cache.contains_key(goal.key()),
        (oracle.reduce)(goal, Seq::empty()) == ReductionView::Finished(candidate, priority),
    ensures
        run_root_goal(oracle, c, goal).1 == Ok::<Option<SolutionView>, Overflow>(candidate),
{
    let steps = STEP_LIMIT as nat;
    let depth = StackDepth { depth: 0 };
    let dfn = DepthFirstNumber { index: 0 };
    let opened = ContextView {
        stack: c.stack.push(
            StackEntry {
                coinductive_goal: (oracle.coinductive)(goal),
                cycle: false,
            },
        ),
        graph: c.graph.push(fresh_node(goal, depth, dfn)),
        ..c
    };
    assert(!has_goal(c.graph, goal));
    let attempt = run_iteration(
        oracle,
        opened,
        goal,
        Minimums::spec_new(),
        Seq::empty(),
        (steps - 1) as nat,
    );
    assert(attempt.result == Ok::<(Option<SolutionView>, ClausePriority), Overflow>(
        (candidate, priority),
    ));
    assert(!iterate_again(opened, depth, dfn, candidate));
    let solved = run_new_subgoal(oracle, opened, goal, depth, dfn, steps);
    assert(solved.result is Ok);
    assert(solved.context.graph[0].solution == candidate);
}

/// A query for a goal whose reduction asks for one other goal, which is
/// answered at once, is answered with the candidate that the reduction
/// makes of that answer.
pub proof fn lemma_rule_over_fact_is_answered(
    oracle: Oracle,
    c: ContextView,
    goal: UCanonicalGoal,
    condition: UCanonicalGoal,
    answer: Option<SolutionView>,
    candidate: Option<SolutionView>,
    priority: ClausePriority,
)
    requires
        c.stack.len() == 0,
        c.graph.len() == 0,
        c.overflow_depth >= 2,
        goal != condition,
        !c.cache.contains_key(goal.key()),
        !c.cache.contains_key(condition.key()),
        (oracle.reduce)(goal, Seq::empty()) == ReductionView::Subgoal(condition),
        (oracle.reduce)(condition, Seq::empty()) == ReductionView::Finished(answer, priority),
        (oracle.reduce)(goal, seq![answer]) == ReductionView::Finished(candidate, priority),
    ensures
        run_root_goal(oracle, c, goal).1 == Ok::<Option<SolutionView>, Overflow>(candidate),
{
    let steps = STEP_LIMIT as nat;
    let depth = StackDepth { depth: 0 };
    let dfn = DepthFirstNumber { index: 0 };
    let opened = ContextView {
        stack: c.stack.push(
            StackEntry {
                coinductive_goal: (oracle.coinductive)(goal),
                cycle: false,
            },
        ),
        graph: c.graph.push(fresh_node(goal, depth, dfn)),
        ..c
    };
    assert(!has_goal(c.graph, goal));
    // The condition: opened above the goal, answered at once, and closed as
    // a settled goal.
    let above = StackDepth { depth: 1 };
    let next = DepthFirstNumber { index: 1 };
    assert(!has_goal(opened.graph, condition)) by {
        if has_goal(opened.graph, condition) {
            let i = choose|i: int|
                0 <= i < opened.graph.len() && (#[trigger] opened.graph[i]).goal == condition;
            assert(i == 0);
        }
    }
    let inner_opened = ContextView {
        stack: opened.stack.push(
            StackEntry {
                coinductive_goal: (oracle.coinductive)(condition),
                cycle: false,
            },
        ),
        graph: opened.graph.push(fresh_node(condition, above, next)),
        ..opened
    };
    let inner_attempt = run_iteration(
        oracle,
        inner_opened,
        condition,
        Minimums::spec_new(),
        Seq::empty(),
        (steps - 3) as nat,
    );
    assert(inner_attempt.result == Ok::<(Option<SolutionView>, ClausePriority), Overflow>(
        (answer, priority),
    ));
    assert(!iterate_again(inner_opened, above, next, answer));
    let inner_solved = run_new_subgoal(
        oracle,
        inner_opened,
        condition,
        above,
        next,
        (steps - 2) as nat,
    );
    assert(inner_solved.result is Ok);
    assert(inner_solved.minimums == Minimums::spec_new());
    assert(inner_solved.context.graph[1].solution == answer);
    let inner = run_goal(oracle, opened, condition, Minimums::spec_new(), (steps - 2) as nat);
    assert(inner.result == Ok::<Option<SolutionView>, Overflow>(answer));
    assert(inner.context.stack =~= opened.stack);
    assert(inner.context.graph =~= opened.graph);
    assert(inner.minimums == Minimums::spec_new());
    // The goal again, with the answer of its condition.
    assert(Seq::<Option<SolutionView>>::empty().push(answer) =~= seq![answer]);
    let last = run_iteration(
        oracle,
        inner.context,
        goal,
        inner.minimums,
        seq![answer],
        inner.steps,
    );
    assert(last.result == Ok::<(Option<SolutionView>, ClausePriority), Overflow>(
        (candidate, priority),
    ));
    let attempt = run_iteration(
        oracle,
        opened,
        goal,
        Minimums::spec_new(),
        Seq::empty(),
        (steps - 1) as nat,
    );
    assert(attempt == last);
    assert(!iterate_again(attempt.context, depth, dfn, candidate));
    let solved = run_new_subgoal(oracle, opened, goal, depth, dfn, steps);
    assert(solved.result is Ok);
    assert(solved.context.graph[0].solution == candidate);
}

/// Two goals that depend on each other reach a fixed point with the second
/// attempt: `first` asks for `second` and has the unique answer `unique`
/// whatever comes back; `second` asks for `first` and has no answer unless
/// `first` has one. The first attempt at `first` advances its answer from
/// none to `unique`; the second finds `unique` again, and the query ends
/// with it.
pub proof fn lemma_mutual_goals_reach_a_fixed_point(
    oracle: Oracle,
    c: ContextView,
    first: UCanonicalGoal,
    second: UCanonicalGoal,
    unique: SolutionView,
    other: Option<SolutionView>,
    priority: ClausePriority,
)
    requires
        c.stack.len() == 0,
        c.graph.len() == 0,
        c.overflow_depth >= 2,
        first != second,
        !c.cache.contains_key(first.key()),
        !c.cache.contains_key(second.key()),
        !(oracle.coinductive)(first),
        unique is Unique,
        (oracle.reduce)(first, Seq::empty()) == ReductionView::Subgoal(second),
        (oracle.reduce)(second, Seq::empty()) == ReductionView::Subgoal(first),
        (oracle.reduce)(second, seq![None]) == ReductionView::Finished(None, priority),
        (oracle.reduce)(first, seq![None]) == ReductionView::Finished(Some(unique), priority),
        (oracle.reduce)(second, seq![Some(unique)]) == ReductionView::Finished(other, priority),
        (oracle.reduce)(first, seq![other]) == ReductionView::Finished(Some(unique), priority),
    ensures
        run_root_goal(oracle, c, first).1 == Ok::<Option<SolutionView>, Overflow>(Some(unique)),
{
    let steps = STEP_LIMIT as nat;
    let d0 = StackDepth { depth: 0 };
    let n0 = DepthFirstNumber { index: 0 };
    let below = StackEntry { coinductive_goal: false, cycle: false };
    let opened = ContextView {
        stack: c.stack.push(below),
        graph: c.graph.push(fresh_node(first, d0, n0)),
        ..c
    };
    assert(!has_goal(c.graph, first));
    assert(opened.stack =~= seq![below]);
    lemma_first_attempt_of_mutual_goals(oracle, opened, first, second, None, None, priority, steps);
    let attempt = run_iteration(
        oracle,
        opened,
        first,
        Minimums::spec_new(),
        Seq::empty(),
        (steps - 1) as nat,
    );
    assert(attempt.result == Ok::<(Option<SolutionView>, ClausePriority), Overflow>(
        (Some(unique), priority),
    ));
    assert(iterate_again(attempt.context, d0, n0, Some(unique)));
    let again = after_iteration(attempt.context, d0, n0, Some(unique), priority);
    assert(again.graph =~= seq![
        NodeView {
            solution: Some(unique),
            solution_priority: priority,
            ..fresh_node(first, d0, n0)
        },
    ]);
    assert(again.stack =~= opened.stack);
    assert(again.cache == c.cache);
    lemma_first_attempt_of_mutual_goals(
        oracle,
        again,
        first,
        second,
        Some(unique),
        other,
        priority,
        attempt.steps,
    );
    let last = run_iteration(
        oracle,
        again,
        first,
        Minimums::spec_new(),
        Seq::empty(),
        (attempt.steps - 1) as nat,
    );
    assert(last.result == Ok::<(Option<SolutionView>, ClausePriority), Overflow>(
        (Some(unique), priority),
    ));
    assert(!iterate_again(last.context, d0, n0, Some(unique)));
    let settled = run_new_subgoal(oracle, again, first, d0, n0, attempt.steps);
    assert(settled.result is Ok);
    assert(settled.context.graph[0].solution == Some(unique));
    let solved = run_new_subgoal(oracle, opened, first, d0, n0, steps);
    assert(solved == settled);
}

/// One attempt at `first`, which is open at the bottom of the stack with
/// the answer `seen`: `second` is met, asks for `first`, is given `seen`,
/// and ends with `answer`; it stays in the graph, closed. The attempt at
/// `first` ends with the candidate that the oracle makes of `answer`, with
/// `first` flagged and its node as it was.
proof fn lemma_first_attempt_of_mutual_goals(
    oracle: Oracle,
    opened: ContextView,
    first: UCanonicalGoal,
    second: UCanonicalGoal,
    seen: Option<SolutionView>,
    answer: Option<SolutionView>,
    priority: ClausePriority,
    steps: nat,
)
    requires
        steps >= 10,
        opened.overflow_depth >= 2,
        first != second,
        !opened.cache.contains_key(first.key()),
        !opened.cache.contains_key(second.key()),
        opened.stack == seq![StackEntry { coinductive_goal: false, cycle: false }],
        opened.graph.len() == 1,
        opened.graph[0].goal == first,
        opened.graph[0].stack_depth == Some(StackDepth { depth: 0 }),
        opened.graph[0].solution == seen,
        opened.graph[0].links.positive.index == 0,
        (oracle.reduce)(first, Seq::empty()) == ReductionView::Subgoal(second),
        (oracle.reduce)(second, Seq::empty()) == ReductionView::Subgoal(first),
        (oracle.reduce)(second, seq![seen]) == ReductionView::Finished(answer, priority),
        (oracle.reduce)(first, seq![answer]) is Finished,
    ensures
        ({
            let attempt = run_iteration(
                oracle,
                opened,
                first,
                Minimums::spec_new(),
                Seq::empty(),
                (steps - 1) as nat,
            );
            &&& attempt.result is Ok
            &&& ReductionView::Finished(attempt.result->Ok_0.0, attempt.result->Ok_0.1) == (
            oracle.reduce)(first, seq![answer])
            &&& attempt.steps >= steps - 6
            &&& attempt.steps < steps
            &&& attempt.context.stack == seq![
                StackEntry { coinductive_goal: false, cycle: true },
            ]
            &&& attempt.context.graph.len() == 2
            &&& attempt.context.graph[0] == opened.graph[0]
            &&& attempt.context.cache == opened.cache
            &&& attempt.context.overflow_depth == opened.overflow_depth
            &&& attempt.context.caching_enabled == opened.caching_enabled
        }),
{
    let d1 = StackDepth { depth: 1 };
    let n1 = DepthFirstNumber { index: 1 };
    let top = StackEntry {
        coinductive_goal: (oracle.coinductive)(second),
        cycle: false,
    };
    assert(!has_goal(opened.graph, second)) by {
        if has_goal(opened.graph, second) {
            let i = choose|i: int|
                0 <= i < opened.graph.len() && (#[trigger] opened.graph[i]).goal == second;
            assert(i == 0);
        }
    }
    let inner_opened = ContextView {
        stack: opened.stack.push(top),
        graph: opened.graph.push(fresh_node(second, d1, n1)),
        ..opened
    };
    // `first` is met again while it is open, and not every goal above it
    // is coinductive: it is flagged and gives the answer that it has.
    assert(inner_opened.graph[0].goal == first);
    assert(has_goal(inner_opened.graph, first));
    assert(node_of(inner_opened, first) == inner_opened.graph[0]) by {
        let i = choose|i: int|
            0 <= i < inner_opened.graph.len() && (#[trigger] inner_opened.graph[i]).goal == first;
        assert(inner_opened.graph[1].goal == second);
        assert(i == 0);
    }
    assert(!all_coinductive_from(inner_opened.stack, 0)) by {
        assert(!inner_opened.stack[0].coinductive_goal);
    }
    let back = run_goal(oracle, inner_opened, first, Minimums::spec_new(), (steps - 4) as nat);
    assert(back.result == Ok::<Option<SolutionView>, Overflow>(seen));
    assert(back.minimums.positive.index == 0);
    assert(back.context.graph == inner_opened.graph);
    assert(Seq::<Option<SolutionView>>::empty().push(seen) =~= seq![seen]);
    let inner_last = run_iteration(
        oracle,
        back.context,
        second,
        back.minimums,
        seq![seen],
        back.steps,
    );
    assert(inner_last.result == Ok::<(Option<SolutionView>, ClausePriority), Overflow>(
        (answer, priority),
    ));
    let inner_attempt = run_iteration(
        oracle,
        inner_opened,
        second,
        Minimums::spec_new(),
        Seq::empty(),
        (steps - 3) as nat,
    );
    assert(inner_attempt == inner_last);
    assert(!inner_attempt.context.stack[1].cycle);
    assert(!iterate_again(inner_attempt.context, d1, n1, answer));
    let inner_solved = run_new_subgoal(
        oracle,
        inner_opened,
        second,
        d1,
        n1,
        (steps - 2) as nat,
    );
    assert(inner_solved.result is Ok);
    assert(inner_solved.minimums.positive.index == 0);
    // `second` leaned on `first`: it is not settled, and stays in the graph.
    let inner = run_goal(oracle, opened, second, Minimums::spec_new(), (steps - 2) as nat);
    assert(inner.result == Ok::<Option<SolutionView>, Overflow>(answer));
    assert(inner.context.graph.len() == 2);
    assert(inner.context.graph[0] == opened.graph[0]);
    assert(inner.context.stack =~= seq![
        StackEntry { coinductive_goal: false, cycle: true },
    ]);
    assert(Seq::<Option<SolutionView>>::empty().push(answer) =~= seq![answer]);
    let last = run_iteration(oracle, inner.context, first, inner.minimums, seq![answer], inner.steps);
    assert(last.result is Ok);
}

} // verus!
