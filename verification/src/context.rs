use crate::goal::GoalKey;
use crate::search_graph::{committed, DepthFirstNumber, Minimums, NodeView};
use crate::solution::{answer_rank, ClausePriority, SolutionView};
use crate::stack::{StackDepth, StackEntry};
use vstd::prelude::*;

verus! {

/// The mathematical value of a [`RecursiveContext`].
pub struct ContextView {
    /// The open goals, outermost first.
    pub stack: Seq<StackEntry>,
    /// The goals of the running query that are not settled, by discovery
    /// number.
    pub graph: Seq<NodeView>,
    /// The final answers, by goal.
    pub cache: Map<GoalKey, Option<SolutionView>>,
    pub caching_enabled: bool,
    /// The number of goals that may be open at once.
    pub overflow_depth: nat,
}

/// The context of a new session: nothing open, nothing met, nothing
/// cached.
pub open spec fn fresh_context(overflow_depth: nat, caching_enabled: bool) -> ContextView {
    ContextView {
        stack: Seq::empty(),
        graph: Seq::empty(),
        cache: Map::empty(),
        caching_enabled,
        overflow_depth,
    }
}

/// Every open node stands on the stack, and a node that was met later
/// stands higher.
pub open spec fn open_nodes_on_stack(graph: Seq<NodeView>, stack_len: nat) -> bool {
    &&& forall|i: int|
        0 <= i < graph.len() && (#[trigger] graph[i]).stack_depth is Some
            ==> graph[i].stack_depth->0.depth < stack_len
    &&& forall|i: int, j: int|
        0 <= i < j < graph.len() && (#[trigger] graph[i]).stack_depth is Some && (
        #[trigger] graph[j]).stack_depth is Some ==> graph[i].stack_depth->0.depth
            < graph[j].stack_depth->0.depth
}

/// No goal of the graph has an answer in the cache.
pub open spec fn unsettled(graph: Seq<NodeView>, cache: Map<GoalKey, Option<SolutionView>>)
    -> bool {
    forall|i: int| 0 <= i < graph.len() ==> !cache.contains_key((#[trigger] graph[i]).goal.key())
}

/// What holds of a context at every moment: the stack is within its limit,
/// the open nodes of the graph stand on the stack in the order in which they
/// were met, no goal is both in the graph and in the cache, and while no
/// goal is open the graph is empty.
pub open spec fn consistent(c: ContextView) -> bool {
    &&& c.stack.len() <= c.overflow_depth
    &&& open_nodes_on_stack(c.graph, c.stack.len())
    &&& unsettled(c.graph, c.cache)
    &&& c.stack.len() == 0 ==> c.graph.len() == 0
}

/// The stack `after` has the entries of `before`: as many, each coinductive
/// or not as it was, and each still flagged if it was.
pub open spec fn stack_kept(before: Seq<StackEntry>, after: Seq<StackEntry>) -> bool {
    &&& after.len() == before.len()
    &&& forall|i: int|
        0 <= i < before.len() ==> (#[trigger] after[i]).coinductive_goal
            == before[i].coinductive_goal && (before[i].cycle ==> after[i].cycle)
}

/// The graph `after` begins with the nodes of `before`, unchanged.
pub open spec fn graph_kept(before: Seq<NodeView>, after: Seq<NodeView>) -> bool {
    &&& before.len() <= after.len()
    &&& forall|i: int| 0 <= i < before.len() ==> #[trigger] after[i] == before[i]
}

/// The cache `after` holds every entry of `before`, unchanged.
pub open spec fn cache_kept(
    before: Map<GoalKey, Option<SolutionView>>,
    after: Map<GoalKey, Option<SolutionView>>,
) -> bool {
    forall|k: GoalKey| #[trigger]
        before.contains_key(k) ==> after.contains_key(k) && after[k] == before[k]
}

/// No node from position `from` on leans on a goal that was met before
/// `bound`.
pub open spec fn leans_above(graph: Seq<NodeView>, from: int, bound: DepthFirstNumber) -> bool {
    forall|j: int|
        from <= j < graph.len() ==> (#[trigger] graph[j]).links.positive.index >= bound.index
}

/// What no part of a query changes: the configuration stays, the cache
/// keeps what it held, and without caching it holds nothing more.
pub open spec fn session_kept(before: ContextView, after: ContextView) -> bool {
    &&& after.overflow_depth == before.overflow_depth
    &&& after.caching_enabled == before.caching_enabled
    &&& cache_kept(before.cache, after.cache)
    &&& !before.caching_enabled ==> after.cache == before.cache
}

/// What solving goals that are met from the context `before`, with the
/// bounds `bounds`, leaves behind in the context `after`, with the bounds
/// `merged`: the stack and the graph as they were, but for flags and for
/// nodes added at the end of the graph; and bounds that are no higher than
/// they were and no higher than those of any node that was added.
pub open spec fn subgoals_kept(
    before: ContextView,
    bounds: Minimums,
    after: ContextView,
    merged: Minimums,
) -> bool {
    &&& stack_kept(before.stack, after.stack)
    &&& graph_kept(before.graph, after.graph)
    &&& merged.positive.index <= bounds.positive.index
    &&& merged.negative.index <= bounds.negative.index
    &&& leans_above(after.graph, before.graph.len() as int, merged.positive)
}

/// What the attempts at the goal with number `dfn`, on top of the stack,
/// leave behind: the stack below the goal and the graph before it as they
/// were, but for flags; the goal's node as it was, but for its answer and
/// the priority of it; and after it only nodes that lean no lower than
/// `minimums`.
pub open spec fn attempts_kept(
    before: ContextView,
    dfn: DepthFirstNumber,
    after: ContextView,
    minimums: Minimums,
) -> bool {
    let node = after.graph[dfn.index as int];
    &&& after.stack.len() == before.stack.len()
    &&& stack_kept(before.stack.drop_last(), after.stack.drop_last())
    &&& dfn.index < after.graph.len()
    &&& graph_kept(before.graph.take(dfn.index as int), after.graph)
    &&& node == (NodeView {
        solution: node.solution,
        solution_priority: node.solution_priority,
        ..before.graph[dfn.index as int]
    })
    &&& leans_above(after.graph, dfn.index + 1, minimums.positive)
}

/// Whether the goal with number `dfn` must be solved once more, after an
/// attempt that gave `candidate`: a deeper goal has looped back to it, the
/// candidate differs from the answer that the deeper goals saw, and it is
/// not ambiguous.
pub open spec fn iterate_again(
    c: ContextView,
    depth: StackDepth,
    dfn: DepthFirstNumber,
    candidate: Option<SolutionView>,
) -> bool {
    &&& c.stack[depth.depth as int].cycle
    &&& c.graph[dfn.index as int].solution != candidate
    &&& answer_rank(candidate) != 2
}

/// The context after an attempt at the goal with number `dfn`, open at
/// `depth`, gave `candidate`. The cycle flag is cleared. The candidate is
/// stored, unless a deeper goal looped back and saw the same answer already.
/// Where the goal must be solved once more, every node that was met after
/// it is removed.
pub open spec fn after_iteration(
    c: ContextView,
    depth: StackDepth,
    dfn: DepthFirstNumber,
    candidate: Option<SolutionView>,
    priority: ClausePriority,
) -> ContextView {
    let entry = c.stack[depth.depth as int];
    let node = c.graph[dfn.index as int];
    let stored = c.graph.update(
        dfn.index as int,
        NodeView { solution: candidate, solution_priority: priority, ..node },
    );
    ContextView {
        stack: c.stack.update(depth.depth as int, StackEntry { cycle: false, ..entry }),
        graph: if entry.cycle && node.solution == candidate {
            c.graph
        } else if iterate_again(c, depth, dfn, candidate) {
            stored.take(dfn.index + 1)
        } else {
            stored
        },
        ..c
    }
}

/// Whether the goal with number `dfn`, whose proof leaned on `minimums`, is
/// the head of a component that is settled: its proof leaned on no goal
/// that was met before it.
pub open spec fn is_settled(dfn: DepthFirstNumber, minimums: Minimums) -> bool {
    minimums.positive.index >= dfn.index
}

/// The context after the goal with number `dfn`, on top of the stack, is
/// closed with the bounds `minimums`. The goal leaves the stack. Where it is
/// settled, it leaves the graph with every node after it: into the cache
/// where caching is enabled, for nothing where it is not. Where it is not
/// settled, its node stays, closed and with the bounds recorded.
pub open spec fn after_close(c: ContextView, dfn: DepthFirstNumber, minimums: Minimums)
    -> ContextView {
    let closed = c.graph.update(
        dfn.index as int,
        NodeView { links: minimums, stack_depth: None, ..c.graph[dfn.index as int] },
    );
    ContextView {
        stack: c.stack.drop_last(),
        graph: if is_settled(dfn, minimums) {
            closed.take(dfn.index as int)
        } else {
            closed
        },
        cache: if is_settled(dfn, minimums) && c.caching_enabled {
            committed(c.cache, closed, dfn.index as int)
        } else {
            c.cache
        },
        ..c
    }
}

/// What is left of subgoals that are solved one after another is what is
/// left of each.
pub proof fn lemma_subgoals_kept_twice(
    first: ContextView,
    first_bounds: Minimums,
    second: ContextView,
    second_bounds: Minimums,
    third: ContextView,
    third_bounds: Minimums,
)
    requires
        subgoals_kept(first, first_bounds, second, second_bounds),
        subgoals_kept(second, second_bounds, third, third_bounds),
    ensures
        subgoals_kept(first, first_bounds, third, third_bounds),
{
    assert forall|i: int| 0 <= i < first.stack.len() implies (
    #[trigger] third.stack[i]).coinductive_goal == first.stack[i].coinductive_goal && (
    first.stack[i].cycle ==> third.stack[i].cycle) by {
        assert(second.stack[i].coinductive_goal == first.stack[i].coinductive_goal);
    }
    assert forall|i: int| 0 <= i < first.graph.len() implies #[trigger] third.graph[i]
        == first.graph[i] by {
        assert(second.graph[i] == first.graph[i]);
    }
    assert forall|j: int| first.graph.len() <= j < third.graph.len() implies (
    #[trigger] third.graph[j]).links.positive.index >= third_bounds.positive.index by {
        if j < second.graph.len() {
            assert(third.graph[j] == second.graph[j]);
        }
    }
}

/// A stack that is kept is kept below its top.
pub proof fn lemma_stack_kept_below_top(before: Seq<StackEntry>, after: Seq<StackEntry>)
    requires
        stack_kept(before, after),
        before.len() > 0,
    ensures
        stack_kept(before.drop_last(), after.drop_last()),
{
    assert forall|i: int| 0 <= i < before.len() - 1 implies (
    #[trigger] after.drop_last()[i]).coinductive_goal == before.drop_last()[i].coinductive_goal && (
    before.drop_last()[i].cycle ==> after.drop_last()[i].cycle) by {
        assert(after[i].coinductive_goal == before[i].coinductive_goal);
    }
}

/// Keeping is transitive, for stacks and for graphs.
pub proof fn lemma_kept_twice(
    first_stack: Seq<StackEntry>,
    second_stack: Seq<StackEntry>,
    third_stack: Seq<StackEntry>,
    first_graph: Seq<NodeView>,
    second_graph: Seq<NodeView>,
    third_graph: Seq<NodeView>,
)
    requires
        stack_kept(first_stack, second_stack),
        stack_kept(second_stack, third_stack),
        graph_kept(first_graph, second_graph),
        graph_kept(second_graph, third_graph),
    ensures
        stack_kept(first_stack, third_stack),
        graph_kept(first_graph, third_graph),
{
    assert forall|i: int| 0 <= i < first_stack.len() implies (
    #[trigger] third_stack[i]).coinductive_goal == first_stack[i].coinductive_goal && (
    first_stack[i].cycle ==> third_stack[i].cycle) by {
        assert(second_stack[i].coinductive_goal == first_stack[i].coinductive_goal);
    }
    assert forall|i: int| 0 <= i < first_graph.len() implies #[trigger] third_graph[i]
        == first_graph[i] by {
        assert(second_graph[i] == first_graph[i]);
    }
}

} // verus!
