use crate::cache::Cache;
use crate::fx_map::{fx_get, fx_insert, fx_new, fx_retain_below, kept_below};
use crate::goal::{lemma_key_injective, GoalKey, UCanonicalGoal};
use crate::solution::{
    answer_view, ClausePriority, Fallible, NoSolution, Solution, SolutionView,
};
use crate::stack::StackDepth;
use rustc_hash::FxHashMap;
use vstd::prelude::*;

verus! {

/// The place of a goal in the order in which the goals of a query were
/// first met.
#[derive(Clone, Copy, Debug, PartialEq, Eq, Structural)]
pub struct DepthFirstNumber {
    pub index: usize,
}

impl DepthFirstNumber {
    pub open spec fn spec_max() -> DepthFirstNumber {
        DepthFirstNumber { index: usize::MAX }
    }

    /// The number that stands for "no goal": it is above every number that a
    /// goal can have.
    #[verifier::when_used_as_spec(spec_max)]
    pub fn max() -> (dfn: DepthFirstNumber)
        ensures
            dfn == Self::spec_max(),
    {
        DepthFirstNumber { index: usize::MAX }
    }

    /// The number after this one.
    pub fn next(self) -> (dfn: DepthFirstNumber)
        requires
            self.index < usize::MAX,
        ensures
            dfn.index == self.index + 1,
    {
        DepthFirstNumber { index: self.index + 1 }
    }
}

/// The smaller of two numbers.
pub open spec fn min_dfn(a: DepthFirstNumber, b: DepthFirstNumber) -> DepthFirstNumber {
    if a.index <= b.index {
        a
    } else {
        b
    }
}

/// The least discovery numbers that the proof of a goal has leaned on, kept
/// apart for direct and for negated dependencies.
#[derive(Clone, Copy, Debug, PartialEq, Eq, Structural)]
pub struct Minimums {
    pub positive: DepthFirstNumber,
    pub negative: DepthFirstNumber,
}

impl Minimums {
    pub open spec fn spec_new() -> Minimums {
        Minimums { positive: DepthFirstNumber::spec_max(), negative: DepthFirstNumber::spec_max() }
    }

    /// The bounds of a proof that has leaned on nothing yet.
    #[verifier::when_used_as_spec(spec_new)]
    pub fn new() -> (m: Minimums)
        ensures
            m == Self::spec_new(),
    {
        Minimums { positive: DepthFirstNumber::max(), negative: DepthFirstNumber::max() }
    }

    /// The bounds of a proof that leans on what both `self` and `other`
    /// lean on.
    pub open spec fn merged(self, other: Minimums) -> Minimums {
        Minimums {
            positive: min_dfn(self.positive, other.positive),
            negative: min_dfn(self.negative, other.negative),
        }
    }

    /// Lowers each bound to that of `minimums` where that one is lower.
    pub fn update_from(&mut self, minimums: Minimums)
        ensures
            *final(self) == old(self).merged(minimums),
    {
        if minimums.positive.index < self.positive.index {
            self.positive = minimums.positive;
        }
        if minimums.negative.index < self.negative.index {
            self.negative = minimums.negative;
        }
    }
}

/// What the search graph holds of one goal.
#[derive(Debug)]
pub struct Node {
    pub goal: UCanonicalGoal,
    /// The answer found so far: tentative while the goal is open.
    pub solution: Fallible<Solution>,
    pub solution_priority: ClausePriority,
    /// Where the goal stands on the stack while it is open; `None` once it
    /// is closed.
    pub stack_depth: Option<StackDepth>,
    /// The least discovery numbers that the goal's proof has leaned on.
    pub links: Minimums,
}

/// The mathematical value of a [`Node`].
pub struct NodeView {
    pub goal: UCanonicalGoal,
    pub solution: Option<SolutionView>,
    pub solution_priority: ClausePriority,
    pub stack_depth: Option<StackDepth>,
    pub links: Minimums,
}

impl View for Node {
    type V = NodeView;

    open spec fn view(&self) -> NodeView {
        NodeView {
            goal: self.goal,
            solution: answer_view(self.solution),
            solution_priority: self.solution_priority,
            stack_depth: self.stack_depth,
            links: self.links,
        }
    }
}

/// The node that a goal gets when it is first met: open at `depth`, with no
/// solution, and leaning on nothing but itself.
pub open spec fn fresh_node(goal: UCanonicalGoal, depth: StackDepth, dfn: DepthFirstNumber)
    -> NodeView {
    NodeView {
        goal,
        solution: None,
        solution_priority: ClausePriority::High,
        stack_depth: Some(depth),
        links: Minimums { positive: dfn, negative: DepthFirstNumber::spec_max() },
    }
}

/// No goal has two nodes.
pub open spec fn distinct_goals(nodes: Seq<NodeView>) -> bool {
    forall|i: int, j: int|
        0 <= i < nodes.len() && 0 <= j < nodes.len() && i != j ==> (#[trigger] nodes[i]).goal != (
        #[trigger] nodes[j]).goal
}

/// Whether `goal` has a node.
pub open spec fn has_goal(nodes: Seq<NodeView>, goal: UCanonicalGoal) -> bool {
    exists|i: int| 0 <= i < nodes.len() && (#[trigger] nodes[i]).goal == goal
}

/// Whether one of the nodes from position `from` on belongs to the goal
/// with key `key`.
pub open spec fn has_key_from(nodes: Seq<NodeView>, from: int, key: GoalKey) -> bool {
    exists|j: int| from <= j < nodes.len() && (#[trigger] nodes[j]).goal.key() == key
}

/// The cache that comes of `cache` when the answer of every node from
/// position `from` on is stored as the answer of its goal.
pub open spec fn committed(
    cache: Map<GoalKey, Option<SolutionView>>,
    nodes: Seq<NodeView>,
    from: int,
) -> Map<GoalKey, Option<SolutionView>> {
    Map::new(
        |k: GoalKey| cache.contains_key(k) || has_key_from(nodes, from, k),
        |k: GoalKey|
            if has_key_from(nodes, from, k) {
                nodes[choose|j: int|
                    from <= j < nodes.len() && (#[trigger] nodes[j]).goal.key() == k].solution
            } else {
                cache[k]
            },
    )
}

/// The goals that a query has met and not yet settled, in the order in
/// which they were met, each with its tentative answer.
pub struct SearchGraph {
    indices: FxHashMap<GoalKey, usize>,
    nodes: Vec<Node>,
}

impl View for SearchGraph {
    type V = Seq<NodeView>;

    closed spec fn view(&self) -> Seq<NodeView> {
        Seq::new(self.nodes@.len(), |i: int| self.nodes@[i]@)
    }
}

impl SearchGraph {
    /// The index holds each node's goal, with the node's position, and
    /// nothing else.
    pub closed spec fn wf(&self) -> bool {
        &&& forall|i: int|
            0 <= i < self.nodes@.len() ==> self.indices@.contains_key(
                (#[trigger] self.nodes@[i]).goal.key(),
            ) && self.indices@[self.nodes@[i].goal.key()] == i
        &&& forall|k: GoalKey| #[trigger]
            self.indices@.contains_key(k) ==> self.indices@[k] < self.nodes@.len()
                && self.nodes@[self.indices@[k] as int].goal.key() == k
    }

    /// In a well-formed graph no goal has two nodes.
    pub proof fn lemma_distinct_goals(&self)
        requires
            self.wf(),
        ensures
            distinct_goals(self@),
    {
        assert forall|i: int, j: int|
            0 <= i < self@.len() && 0 <= j < self@.len() && i != j implies (
        #[trigger] self@[i]).goal != (#[trigger] self@[j]).goal by {
            assert(self.nodes@[i].goal == self@[i].goal);
            assert(self.nodes@[j].goal == self@[j].goal);
            if self.nodes@[i].goal == self.nodes@[j].goal {
                assert(self.indices@[self.nodes@[i].goal.key()] == i);
                assert(self.indices@[self.nodes@[j].goal.key()] == j);
            }
        }
    }

    /// The number of nodes fits a machine word.
    pub proof fn lemma_len_bound(&self)
        ensures
            self@.len() <= usize::MAX,
    {
        assert(self.nodes.len() == self.nodes@.len());
    }

    /// A graph that holds no goal.
    pub fn new() -> (graph: SearchGraph)
        ensures
            graph.wf(),
            graph@ == Seq::<NodeView>::empty(),
    {
        let graph = SearchGraph { indices: fx_new(), nodes: Vec::new() };
        assert(graph@ =~= Seq::<NodeView>::empty());
        graph
    }

    /// The number of nodes.
    pub fn len(&self) -> (n: usize)
        ensures
            n == self@.len(),
    {
        self.nodes.len()
    }

    /// The discovery number of `goal`, if the graph holds it.
    pub fn lookup(&self, goal: &UCanonicalGoal) -> (r: Option<DepthFirstNumber>)
        requires
            self.wf(),
        ensures
            match r {
                Some(dfn) => dfn.index < self@.len() && self@[dfn.index as int].goal == *goal,
                None => !has_goal(self@, *goal),
            },
    {
        let key = goal.key();
        match fx_get(&self.indices, &key) {
            Some(index) => {
                proof {
                    lemma_key_injective(self.nodes@[*index as int].goal, *goal);
                }
                Some(DepthFirstNumber { index: *index })
            },
            None => {
                assert forall|i: int| 0 <= i < self@.len() implies (#[trigger] self@[i]).goal
                    != *goal by {
                    assert(self.indices@.contains_key(self.nodes@[i].goal.key()));
                }
                None
            },
        }
    }

    /// Adds a node for `goal`, which the graph must not hold yet, and gives
    /// its discovery number: the number of nodes there were. The node is
    /// open at `stack_depth`, has no solution, and leans on itself alone.
    pub fn insert(&mut self, goal: &UCanonicalGoal, stack_depth: StackDepth) -> (dfn:
        DepthFirstNumber)
        requires
            old(self).wf(),
            !has_goal(old(self)@, *goal),
        ensures
            final(self).wf(),
            dfn.index == old(self)@.len(),
            final(self)@ == old(self)@.push(fresh_node(*goal, stack_depth, dfn)),
    {
        let dfn = DepthFirstNumber { index: self.nodes.len() };
        let node = Node {
            goal: *goal,
            solution: Err(NoSolution),
            solution_priority: ClausePriority::High,
            stack_depth: Some(stack_depth),
            links: Minimums { positive: dfn, negative: DepthFirstNumber::max() },
        };
        proof {
            if old(self).indices@.contains_key(goal.key()) {
                let i = old(self).indices@[goal.key()] as int;
                lemma_key_injective(old(self).nodes@[i].goal, *goal);
                assert(old(self)@[i].goal == *goal);
            }
        }
        self.nodes.push(node);
        let _ = fx_insert(&mut self.indices, goal.key(), dfn.index);
        proof {
            assert(self@ =~= old(self)@.push(fresh_node(*goal, stack_depth, dfn)));
            assert forall|i: int| 0 <= i < self.nodes@.len() implies self.indices@.contains_key(
                (#[trigger] self.nodes@[i]).goal.key(),
            ) && self.indices@[self.nodes@[i].goal.key()] == i by {
                if i < old(self).nodes@.len() {
                    assert(self.nodes@[i] == old(self).nodes@[i]);
                    assert(old(self)@[i].goal != *goal);
                }
            }
        }
        dfn
    }

    /// The node with number `dfn`.
    pub fn index(&self, dfn: DepthFirstNumber) -> (node: &Node)
        requires
            dfn.index < self@.len(),
        ensures
            node@ == self@[dfn.index as int],
    {
        &self.nodes[dfn.index]
    }

    /// Replaces the answer of the node with number `dfn`, and its priority.
    pub fn set_solution(
        &mut self,
        dfn: DepthFirstNumber,
        solution: Fallible<Solution>,
        priority: ClausePriority,
    )
        requires
            old(self).wf(),
            dfn.index < old(self)@.len(),
        ensures
            final(self).wf(),
            final(self)@ == old(self)@.update(
                dfn.index as int,
                NodeView {
                    solution: answer_view(solution),
                    solution_priority: priority,
                    ..old(self)@[dfn.index as int]
                },
            ),
    {
        let node = &mut self.nodes[dfn.index];
        node.solution = solution;
        node.solution_priority = priority;
        proof {
            assert(self@ =~= old(self)@.update(
                dfn.index as int,
                NodeView {
                    solution: answer_view(solution),
                    solution_priority: priority,
                    ..old(self)@[dfn.index as int]
                },
            ));
            self.lemma_same_goals(old(self));
        }
    }

    /// Replaces the bounds of the node with number `dfn`.
    pub fn set_links(&mut self, dfn: DepthFirstNumber, links: Minimums)
        requires
            old(self).wf(),
            dfn.index < old(self)@.len(),
        ensures
            final(self).wf(),
            final(self)@ == old(self)@.update(
                dfn.index as int,
                NodeView { links, ..old(self)@[dfn.index as int] },
            ),
    {
        let node = &mut self.nodes[dfn.index];
        node.links = links;
        proof {
            assert(self@ =~= old(self)@.update(
                dfn.index as int,
                NodeView { links, ..old(self)@[dfn.index as int] },
            ));
            self.lemma_same_goals(old(self));
        }
    }

    /// Replaces the stack depth of the node with number `dfn`: `None` closes
    /// the goal.
    pub fn set_stack_depth(&mut self, dfn: DepthFirstNumber, stack_depth: Option<StackDepth>)
        requires
            old(self).wf(),
            dfn.index < old(self)@.len(),
        ensures
            final(self).wf(),
            final(self)@ == old(self)@.update(
                dfn.index as int,
                NodeView { stack_depth, ..old(self)@[dfn.index as int] },
            ),
    {
        let node = &mut self.nodes[dfn.index];
        node.stack_depth = stack_depth;
        proof {
            assert(self@ =~= old(self)@.update(
                dfn.index as int,
                NodeView { stack_depth, ..old(self)@[dfn.index as int] },
            ));
            self.lemma_same_goals(old(self));
        }
    }

    proof fn lemma_same_goals(&self, before: &SearchGraph)
        requires
            before.wf(),
            self.indices == before.indices,
            self.nodes@.len() == before.nodes@.len(),
            forall|i: int|
                0 <= i < self.nodes@.len() ==> (#[trigger] self.nodes@[i]).goal
                    == before.nodes@[i].goal,
        ensures
            self.wf(),
    {
        assert forall|i: int| 0 <= i < self.nodes@.len() implies self.indices@.contains_key(
            (#[trigger] self.nodes@[i]).goal.key(),
        ) && self.indices@[self.nodes@[i].goal.key()] == i by {
            assert(before.nodes@[i].goal == self.nodes@[i].goal);
        }
    }

    /// Removes the node with number `dfn` and every node after it.
    pub fn rollback_to(&mut self, dfn: DepthFirstNumber)
        requires
            old(self).wf(),
            dfn.index <= old(self)@.len(),
        ensures
            final(self).wf(),
            final(self)@ == old(self)@.take(dfn.index as int),
    {
        fx_retain_below(&mut self.indices, dfn.index);
        self.nodes.truncate(dfn.index);
        proof {
            assert(self@ =~= old(self)@.take(dfn.index as int));
            assert forall|i: int| 0 <= i < self.nodes@.len() implies self.indices@.contains_key(
                (#[trigger] self.nodes@[i]).goal.key(),
            ) && self.indices@[self.nodes@[i].goal.key()] == i by {
                assert(self.nodes@[i] == old(self).nodes@[i]);
            }
        }
    }

    /// Removes the node with number `dfn` and every node after it, and
    /// stores the answer of each as the final answer of its goal in
    /// `cache`. The nodes must be settled: closed, and leaning on no goal
    /// that was met before `dfn`.
    pub fn move_to_cache(&mut self, dfn: DepthFirstNumber, cache: &mut Cache)
        requires
            old(self).wf(),
            dfn.index <= old(self)@.len(),
            forall|j: int|
                dfn.index <= j < old(self)@.len() ==> (#[trigger] old(self)@[j]).stack_depth is None
                    && old(self)@[j].links.positive.index >= dfn.index,
        ensures
            final(self).wf(),
            final(self)@ == old(self)@.take(dfn.index as int),
            final(cache)@ == committed(old(cache)@, old(self)@, dfn.index as int),
    {
        proof {
            old(self).lemma_distinct_goals();
        }
        fx_retain_below(&mut self.indices, dfn.index);
        let ghost before = old(self)@;
        while self.nodes.len() > dfn.index
            invariant
                dfn.index <= self.nodes@.len() <= before.len(),
                before == old(self)@,
                distinct_goals(before),
                self@ == before.take(self.nodes@.len() as int),
                self.indices@ == kept_below(old(self).indices@, dfn.index),
                forall|k: GoalKey|
                    cache@.contains_key(k) <==> old(cache)@.contains_key(k) || has_key_from(
                        before,
                        self.nodes@.len() as int,
                        k,
                    ),
                forall|j: int|
                    self.nodes@.len() <= j < before.len() ==> cache@[(
                    #[trigger] before[j]).goal.key()] == before[j].solution,
                forall|k: GoalKey|
                    old(cache)@.contains_key(k) && !has_key_from(
                        before,
                        self.nodes@.len() as int,
                        k,
                    ) ==> cache@[k] == old(cache)@[k],
            decreases self.nodes@.len(),
        {
            let ghost n = self.nodes@.len() as int;
            let ghost cache_before = cache@;
            let ghost graph_before = self@;
            let node = self.nodes.pop().unwrap();
            assert(node@ == graph_before[n - 1]);
            assert(graph_before[n - 1] == before[n - 1]);
            cache.insert(&node.goal, node.solution);
            proof {
                assert(self@ =~= before.take(n - 1));
                let key = before[n - 1].goal.key();
                assert forall|k: GoalKey| has_key_from(before, n - 1, k) <==> (k == key
                    || has_key_from(before, n, k)) by {
                    if has_key_from(before, n - 1, k) {
                        let j = choose|j: int|
                            n - 1 <= j < before.len() && (#[trigger] before[j]).goal.key() == k;
                        if j != n - 1 {
                            assert(n <= j < before.len() && before[j].goal.key() == k);
                        }
                    }
                    if k == key {
                        assert(n - 1 <= n - 1 < before.len() && before[n - 1].goal.key() == k);
                    }
                    if has_key_from(before, n, k) {
                        let j = choose|j: int|
                            n <= j < before.len() && (#[trigger] before[j]).goal.key() == k;
                        assert(n - 1 <= j < before.len() && before[j].goal.key() == k);
                    }
                }
                assert forall|j: int| n - 1 <= j < before.len() implies cache@[(
                #[trigger] before[j]).goal.key()] == before[j].solution by {
                    if j != n - 1 {
                        assert(before[j].goal != before[n - 1].goal);
                        if before[j].goal.key() == key {
                            lemma_key_injective(before[j].goal, before[n - 1].goal);
                        }
                    }
                }
            }
        }
        proof {
            assert(self.nodes@.len() == dfn.index);
            let target = committed(old(cache)@, before, dfn.index as int);
            assert forall|k: GoalKey| target.contains_key(k) implies cache@[k] == target[k] by {
                if has_key_from(before, dfn.index as int, k) {
                    let j = choose|j: int|
                        dfn.index <= j < before.len() && (#[trigger] before[j]).goal.key() == k;
                    assert(cache@[before[j].goal.key()] == before[j].solution);
                }
            }
            assert(cache@ =~= target);
            assert forall|i: int| 0 <= i < self.nodes@.len() implies self.indices@.contains_key(
                (#[trigger] self.nodes@[i]).goal.key(),
            ) && self.indices@[self.nodes@[i].goal.key()] == i by {
                assert(self@[i] == before[i]);
                assert(self.nodes@[i].goal == old(self).nodes@[i].goal);
            }
            assert forall|k: GoalKey| #[trigger]
                self.indices@.contains_key(k) implies self.indices@[k] < self.nodes@.len()
                && self.nodes@[self.indices@[k] as int].goal.key() == k by {
                let i = self.indices@[k] as int;
                assert(self@[i] == before[i]);
                assert(self.nodes@[i].goal == old(self).nodes@[i].goal);
            }
        }
    }
}

} // verus!
