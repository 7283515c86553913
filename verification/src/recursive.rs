use crate::cache::Cache;
use crate::context::{
    after_close, after_iteration, attempts_kept, consistent, fresh_context, is_settled,
    iterate_again, leans_above, lemma_kept_twice, lemma_stack_kept_below_top,
    lemma_subgoals_kept_twice, session_kept, subgoals_kept, ContextView,
};
use crate::database::{answers_view, describes, Oracle, Reduction, RustIrDatabase};
use crate::goal::{lemma_key_injective, UCanonicalGoal};
use crate::search_graph::{
    distinct_goals, has_key_from, DepthFirstNumber, Minimums, NodeView, SearchGraph,
};
use crate::semantics::{
    answered_as, attempted_as, node_of, run_iteration, run_new_subgoal, settled_as,
    solve_goal_known, solved_as, Outcome,
};
use crate::solution::{
    answer_is_ambig, answer_view, clone_answer, same_answer, ClausePriority, Fallible, Solution,
};
use crate::stack::{Overflow, Stack, StackDepth};
use vstd::prelude::*;

verus! {

/// The number of steps that one query may take: each attempt at a goal
/// counts as a step, and so does each step of a reduction.
pub const STEP_LIMIT: u64 = 0xffff_ffff_ffff_ffff;

/// The state of one solving session: the stack of open goals, the search
/// graph of the running query, the cache of final answers, and the
/// configuration. It is to be used with one database, which must not change.
pub struct RecursiveContext {
    stack: Stack,
    /// The results of the goals that are still being solved.
    search_graph: SearchGraph,
    /// The results of the goals that are solved for good.
    cache: Cache,
    caching_enabled: bool,
    /// The number of steps that the running query may still take.
    steps: u64,
}

impl View for RecursiveContext {
    type V = ContextView;

    closed spec fn view(&self) -> ContextView {
        ContextView {
            stack: self.stack@,
            graph: self.search_graph@,
            cache: self.cache@,
            caching_enabled: self.caching_enabled,
            overflow_depth: self.stack.limit(),
        }
    }
}

impl RecursiveContext {
    /// The parts are well formed and the whole is consistent.
    pub closed spec fn wf(&self) -> bool {
        &&& self.stack.wf()
        &&& self.search_graph.wf()
        &&& consistent(self@)
    }

    /// The number of steps that the running query may still take before it
    /// is given up.
    pub closed spec fn steps_left(&self) -> nat {
        self.steps as nat
    }

    /// What is known of every well-formed context.
    pub proof fn lemma_wf(&self)
        requires
            self.wf(),
        ensures
            consistent(self@),
            distinct_goals(self@.graph),
    {
        self.search_graph.lemma_distinct_goals();
    }

    /// A context with nothing open and nothing cached, which lets at most
    /// `overflow_depth` goals be open at once.
    pub fn new(overflow_depth: usize, caching_enabled: bool) -> (context: RecursiveContext)
        ensures
            context.wf(),
            context@ == fresh_context(overflow_depth as nat, caching_enabled),
    {
        RecursiveContext {
            stack: Stack::new(overflow_depth),
            search_graph: SearchGraph::new(),
            cache: Cache::new(),
            caching_enabled,
            steps: STEP_LIMIT,
        }
    }

    /// Whether no goal is open.
    pub fn is_idle(&self) -> (r: bool)
        ensures
            r == (self@.stack.len() == 0),
    {
        self.stack.is_empty()
    }

    /// Whether settled goals are kept in the cache.
    pub fn caching_enabled(&self) -> (r: bool)
        ensures
            r == self@.caching_enabled,
    {
        self.caching_enabled
    }

    /// A copy of the final answer of `goal`, if the cache holds one.
    pub fn cached(&self, goal: &UCanonicalGoal) -> (r: Option<Fallible<Solution>>)
        ensures
            match r {
                Some(answer) => self@.cache.contains_key(goal.key()) && answer_view(answer)
                    == self@.cache[goal.key()],
                None => !self@.cache.contains_key(goal.key()),
            },
    {
        self.cache.get(goal)
    }

    /// Gives up the running query: closes every open goal and empties the
    /// graph. The cache stays.
    pub fn abandon(&mut self)
        requires
            old(self).wf(),
        ensures
            final(self).wf(),
            final(self)@ == (ContextView {
                stack: Seq::empty(),
                graph: Seq::empty(),
                ..old(self)@
            }),
    {
        self.stack.clear();
        self.search_graph.rollback_to(DepthFirstNumber { index: 0 });
        assert(self.search_graph@ =~= Seq::<NodeView>::empty());
    }

    /// Takes in the result of one attempt at the goal with number `dfn`,
    /// open at `depth`, and says whether the goal must be attempted once
    /// more.
    pub fn close_iteration(
        &mut self,
        depth: StackDepth,
        dfn: DepthFirstNumber,
        answer: Fallible<Solution>,
        priority: ClausePriority,
    ) -> (again: bool)
        requires
            old(self).wf(),
            depth.depth < old(self)@.stack.len(),
            dfn.index < old(self)@.graph.len(),
        ensures
            final(self).wf(),
            final(self).steps_left() == old(self).steps_left(),
            final(self)@ == after_iteration(old(self)@, depth, dfn, answer_view(answer), priority),
            again == iterate_again(old(self)@, depth, dfn, answer_view(answer)),
    {
        let flagged = self.stack.index_mut(depth).read_and_reset_cycle_flag();
        if !flagged {
            // No deeper goal depended on this one: the answer is final.
            self.search_graph.set_solution(dfn, answer, priority);
            return false;
        }
        // A deeper goal depended on this one, and saw the stored answer.
        if same_answer(&self.search_graph.index(dfn).solution, &answer) {
            // A fixed point.
            return false;
        }
        let is_ambig = answer_is_ambig(&answer);
        self.search_graph.set_solution(dfn, answer, priority);
        if is_ambig {
            // An ambiguous answer is not refined any further.
            return false;
        }
        proof {
            self.search_graph.lemma_len_bound();
        }
        self.search_graph.rollback_to(dfn.next());
        true
    }

    /// Closes the goal with number `dfn`, which is on top of the stack at
    /// `depth`, with the bounds `minimums` that its proof leaned on, and
    /// gives its answer. Where the goal is settled, it leaves the graph
    /// with every goal that was met after it, for the cache where caching is
    /// enabled; where it is not, it stays in the graph for the goals below
    /// it on the stack.
    pub fn close_goal(
        &mut self,
        depth: StackDepth,
        dfn: DepthFirstNumber,
        minimums: Minimums,
    ) -> (r: Fallible<Solution>)
        requires
            old(self).wf(),
            depth.depth + 1 == old(self)@.stack.len(),
            dfn.index < old(self)@.graph.len(),
            old(self)@.graph[dfn.index as int].stack_depth == Some(depth),
            leans_above(old(self)@.graph, dfn.index + 1, minimums.positive),
            depth.depth == 0 ==> dfn.index == 0,
        ensures
            final(self).wf(),
            final(self).steps_left() == old(self).steps_left(),
            final(self)@ == after_close(old(self)@, dfn, minimums),
            answer_view(r) == old(self)@.graph[dfn.index as int].solution,
    {
        self.search_graph.set_links(dfn, minimums);
        self.search_graph.set_stack_depth(dfn, None);
        self.stack.pop(depth);
        let result = clone_answer(&self.search_graph.index(dfn).solution);
        let ghost closed = self.search_graph@;
        proof {
            old(self).search_graph.lemma_distinct_goals();
            assert(closed =~= old(self)@.graph.update(
                dfn.index as int,
                NodeView {
                    links: minimums,
                    stack_depth: None,
                    ..old(self)@.graph[dfn.index as int]
                },
            ));
            // Every node after this one is closed: an open one would
            // stand above the top of the stack.
            assert forall|j: int| dfn.index < j < closed.len() implies (
            #[trigger] closed[j]).stack_depth is None by {
                assert(closed[j] == old(self)@.graph[j]);
                assert(old(self)@.graph[dfn.index as int].stack_depth is Some);
            }
        }
        if minimums.positive.index >= dfn.index {
            if self.caching_enabled {
                self.search_graph.move_to_cache(dfn, &mut self.cache);
                proof {
                    let old_cache = old(self)@.cache;
                    assert forall|i: int|
                        0 <= i < self@.graph.len() implies !self@.cache.contains_key(
                        (#[trigger] self@.graph[i]).goal.key(),
                    ) by {
                        let k = self@.graph[i].goal.key();
                        assert(self@.graph[i] == old(self)@.graph[i]);
                        assert(!old_cache.contains_key(old(self)@.graph[i].goal.key()));
                        if has_key_from(closed, dfn.index as int, k) {
                            let j = choose|j: int|
                                dfn.index <= j < closed.len() && (#[trigger] closed[j]).goal.key()
                                    == k;
                            lemma_key_injective(closed[j].goal, closed[i].goal);
                            assert(closed[j].goal == old(self)@.graph[j].goal);
                            assert(closed[i].goal == old(self)@.graph[i].goal);
                        }
                    }
                }
            } else {
                self.search_graph.rollback_to(dfn);
            }
        }
        proof {
            assert(self@.stack =~= old(self)@.stack.drop_last());
            assert forall|i: int|
                0 <= i < self@.graph.len() && (
                #[trigger] self@.graph[i]).stack_depth is Some implies self@.graph[i].stack_depth->0.depth
                < self@.stack.len() by {
                assert(i != dfn.index);
                assert(self@.graph[i] == old(self)@.graph[i]);
                assert(i < dfn.index);
            }
        }
        result
    }
}

/// The handle through which goals are put to a database. Each goal is
/// closed and canonical, so that each is answered from a clean slate. A
/// solver keeps the database and the context that it was made with: each of
/// its functions says so, of the database and of the borrow of the context.
pub struct Solver<'me, D: RustIrDatabase> {
    pub program: &'me D,
    pub context: &'me mut RecursiveContext,
}

impl RecursiveContext {
    /// A solver that answers goals from `program` in this context.
    pub fn solver<'me, D: RustIrDatabase>(&'me mut self, program: &'me D) -> (solver: Solver<
        'me,
        D,
    >)
        ensures
            *solver.context == *old(self),
            *final(self) == *final(solver.context),
            solver.program == program,
    {
        Solver { program, context: self }
    }
}

impl<'me, D: RustIrDatabase> Solver<'me, D> {
    /// The database that the solver answers from.
    pub fn db(&self) -> (program: &D)
        ensures
            program == self.program,
    {
        self.program
    }

    /// Solves a goal to which no query is running. With the goal's answer
    /// in the cache, that answer is given and nothing changes. A query that
    /// opens more goals at once than the context allows, or takes more than
    /// `STEP_LIMIT` steps, is given up with `Overflow`. Either way no goal
    /// is left open and the graph is left empty. With a database that
    /// answers as an oracle says, the answer and the context that is left
    /// are those of `run_root_goal`.
    pub fn solve_root_goal(&mut self, canonical_goal: &UCanonicalGoal) -> (r: Result<
        Fallible<Solution>,
        Overflow,
    >)
        requires
            old(self).context.wf(),
            old(self).context@.stack.len() == 0,
        ensures
            final(self).program == old(self).program,
            *final(final(self).context) == *final(old(self).context),
            final(self).context.wf(),
            final(self).context@.stack.len() == 0,
            final(self).context@.graph.len() == 0,
            session_kept(old(self).context@, final(self).context@),
            old(self).context@.cache.contains_key(canonical_goal.key()) ==> {
                &&& r matches Ok(answer)
                &&& answer_view(answer) == old(self).context@.cache[canonical_goal.key()]
                &&& final(self).context@ == old(self).context@
            },
            !old(self).context@.cache.contains_key(canonical_goal.key())
                && old(self).context@.overflow_depth == 0 ==> r is Err,
            r matches Ok(answer) ==> {
                &&& final(self).context@.caching_enabled
                    ==> final(self).context@.cache.contains_key(canonical_goal.key())
                    && final(self).context@.cache[canonical_goal.key()] == answer_view(answer)
            },
            answered_as(
                old(self).program,
                old(self).context@,
                *canonical_goal,
                final(self).context@,
                r,
            ),
    {
        self.context.steps = STEP_LIMIT;
        let mut minimums = Minimums::new();
        match self.solve_goal(*canonical_goal, &mut minimums) {
            Ok(answer) => Ok(answer),
            Err(overflow) => {
                self.context.abandon();
                Err(overflow)
            },
        }
    }

    /// Solves `canonical_goal`, which was just met for the first time and
    /// is open at `depth` with number `dfn`: attempts it until no deeper
    /// goal has looped back to it, or the answer is the one that the deeper
    /// goals saw, or the answer is ambiguous. The answer is left in the
    /// goal's node. The result holds the bounds that the last attempt leaned
    /// on. Each attempt takes a step; with no step left the query is given
    /// up with `Overflow`.
    pub fn solve_new_subgoal(
        &mut self,
        canonical_goal: UCanonicalGoal,
        depth: StackDepth,
        dfn: DepthFirstNumber,
    ) -> (r: Result<Minimums, Overflow>)
        requires
            old(self).context.wf(),
            depth.depth + 1 == old(self).context@.stack.len(),
            dfn.index + 1 == old(self).context@.graph.len(),
            old(self).context@.graph[dfn.index as int].stack_depth == Some(depth),
        ensures
            final(self).program == old(self).program,
            *final(final(self).context) == *final(old(self).context),
            final(self).context.wf(),
            final(self).context.steps_left() <= old(self).context.steps_left(),
            session_kept(old(self).context@, final(self).context@),
            r matches Ok(minimums) ==> attempts_kept(
                old(self).context@,
                dfn,
                final(self).context@,
                minimums,
            ),
            settled_as(
                old(self).program,
                old(self).context@,
                canonical_goal,
                depth,
                dfn,
                old(self).context.steps_left(),
                final(self).context@,
                final(self).context.steps_left(),
                r,
            ),
        decreases old(self).context.steps_left(), 2int,
    {
        proof {
            self.context.search_graph.lemma_len_bound();
        }
        loop
            invariant
                self.program == old(self).program,
                *final(self.context) == *final(old(self).context),
                self.context.wf(),
                self.context.steps_left() <= old(self).context.steps_left(),
                session_kept(old(self).context@, self.context@),
                depth.depth + 1 == self.context@.stack.len(),
                dfn.index + 1 == self.context@.graph.len(),
                dfn.index + 1 == old(self).context@.graph.len(),
                dfn.index < usize::MAX,
                attempts_kept(old(self).context@, dfn, self.context@, Minimums::spec_new()),
                forall|oracle: Oracle| #[trigger]
                    describes(self.program, oracle) ==> run_new_subgoal(
                        oracle,
                        old(self).context@,
                        canonical_goal,
                        depth,
                        dfn,
                        old(self).context.steps_left(),
                    ) == run_new_subgoal(
                        oracle,
                        self.context@,
                        canonical_goal,
                        depth,
                        dfn,
                        self.context.steps_left(),
                    ),
            decreases self.context.steps_left(),
        {
            let ghost before = self.context@;
            let ghost steps_before = self.context.steps_left();
            if self.context.steps == 0 {
                return Err(Overflow);
            }
            self.context.steps = self.context.steps - 1;
            let mut minimums = Minimums::new();
            let (current_answer, current_prio) = match self.solve_iteration(
                &canonical_goal,
                &mut minimums,
            ) {
                Ok(candidate) => candidate,
                Err(overflow) => {
                    return Err(overflow);
                },
            };
            let ghost attempted = self.context@;
            let ghost steps_attempted = self.context.steps_left();
            assert(attempted.graph[dfn.index as int] == before.graph[dfn.index as int]);
            let again = self.context.close_iteration(depth, dfn, current_answer, current_prio);
            proof {
                let now = self.context@;
                let start = old(self).context@;
                lemma_stack_kept_below_top(before.stack, attempted.stack);
                lemma_kept_twice(
                    start.stack.drop_last(),
                    before.stack.drop_last(),
                    attempted.stack.drop_last(),
                    start.graph.take(dfn.index as int),
                    before.graph,
                    attempted.graph,
                );
                assert(now.stack.drop_last() =~= attempted.stack.drop_last());
                assert forall|i: int| 0 <= i < dfn.index implies #[trigger] now.graph[i]
                    == start.graph.take(dfn.index as int)[i] by {
                    assert(now.graph[i] == attempted.graph[i]);
                }
                assert forall|j: int| dfn.index + 1 <= j < now.graph.len() implies (
                #[trigger] now.graph[j]).links.positive.index >= minimums.positive.index by {
                    assert(now.graph[j] == attempted.graph[j]);
                }
                assert forall|oracle: Oracle| #[trigger]
                    describes(self.program, oracle) implies run_new_subgoal(
                    oracle,
                    before,
                    canonical_goal,
                    depth,
                    dfn,
                    steps_before,
                ) == (if again {
                    run_new_subgoal(oracle, now, canonical_goal, depth, dfn, steps_attempted)
                } else {
                    Outcome { context: now, minimums, steps: steps_attempted, result: Ok(()) }
                }) by {
                    let attempt = run_iteration(
                        oracle,
                        before,
                        canonical_goal,
                        Minimums::spec_new(),
                        Seq::empty(),
                        (steps_before - 1) as nat,
                    );
                    assert(attempt.context == attempted);
                    assert(attempt.steps == steps_attempted);
                }
            }
            if !again {
                return Ok(minimums);
            }
        }
    }

    /// Makes one attempt at `canonical_goal`: has the database reduce it
    /// step by step, and solves each subgoal that the database asks for,
    /// until the database gives a candidate answer. The bounds that the
    /// subgoals leaned on are gathered in `minimums`. Each step of the
    /// reduction takes a step; with no step left the query is given up with
    /// `Overflow`.
    pub fn solve_iteration(
        &mut self,
        canonical_goal: &UCanonicalGoal,
        minimums: &mut Minimums,
    ) -> (r: Result<(Fallible<Solution>, ClausePriority), Overflow>)
        requires
            old(self).context.wf(),
        ensures
            final(self).program == old(self).program,
            *final(final(self).context) == *final(old(self).context),
            final(self).context.wf(),
            final(self).context.steps_left() <= old(self).context.steps_left(),
            session_kept(old(self).context@, final(self).context@),
            r is Ok ==> subgoals_kept(
                old(self).context@,
                *old(minimums),
                final(self).context@,
                *final(minimums),
            ),
            attempted_as(
                old(self).program,
                old(self).context@,
                *canonical_goal,
                *old(minimums),
                old(self).context.steps_left(),
                final(self).context@,
                *final(minimums),
                final(self).context.steps_left(),
                r,
            ),
        decreases old(self).context.steps_left(), 1int,
    {
        let mut answers: Vec<Fallible<Solution>> = Vec::new();
        assert(answers_view(answers@) =~= Seq::empty());
        loop
            invariant
                self.program == old(self).program,
                *final(self.context) == *final(old(self).context),
                self.context.wf(),
                self.context.steps_left() <= old(self).context.steps_left(),
                session_kept(old(self).context@, self.context@),
                subgoals_kept(old(self).context@, *old(minimums), self.context@, *minimums),
                forall|oracle: Oracle| #[trigger]
                    describes(self.program, oracle) ==> run_iteration(
                        oracle,
                        old(self).context@,
                        *canonical_goal,
                        *old(minimums),
                        Seq::empty(),
                        old(self).context.steps_left(),
                    ) == run_iteration(
                        oracle,
                        self.context@,
                        *canonical_goal,
                        *minimums,
                        answers_view(answers@),
                        self.context.steps_left(),
                    ),
            decreases self.context.steps_left(),
        {
            if self.context.steps == 0 {
                return Err(Overflow);
            }
            self.context.steps = self.context.steps - 1;
            match self.program.reduce(canonical_goal, &answers) {
                Reduction::Subgoal(subgoal) => {
                    let ghost before = self.context@;
                    let ghost bounds = *minimums;
                    let ghost asked = answers_view(answers@);
                    match self.solve_goal(subgoal, minimums) {
                        Ok(answer) => {
                            answers.push(answer);
                            assert(answers_view(answers@) =~= asked.push(answer_view(answer)));
                        },
                        Err(overflow) => {
                            return Err(overflow);
                        },
                    }
                    proof {
                        lemma_subgoals_kept_twice(
                            old(self).context@,
                            *old(minimums),
                            before,
                            bounds,
                            self.context@,
                            *minimums,
                        );
                    }
                },
                Reduction::Finished(answer, priority) => {
                    return Ok((answer, priority));
                },
            }
        }
    }

    /// Solves a goal in the middle of a query.
    ///
    /// - With the goal's answer in the cache, that answer is given and
    ///   nothing changes.
    /// - With the goal in the graph, open, and every goal from it to the top
    ///   of the stack coinductive, the answer is the unique solution with
    ///   the identity substitution, and nothing changes or is recorded.
    /// - With the goal in the graph otherwise, the answer is the one in its
    ///   node, tentative as it may be. If the goal is open, its cycle flag is
    ///   set. The bounds of the node are merged into `minimums`.
    /// - Else the goal is new. With the stack at its limit the query is
    ///   given up with `Overflow`, and nothing changes. Otherwise the goal
    ///   is opened, solved and closed, and the bounds that it leaned on are
    ///   merged into `minimums`.
    ///
    /// With a database that answers as an oracle says, the answer, the
    /// context and the bounds that are left are those of `run_goal`.
    pub fn solve_goal(&mut self, goal: UCanonicalGoal, minimums: &mut Minimums) -> (r: Result<
        Fallible<Solution>,
        Overflow,
    >)
        requires
            old(self).context.wf(),
        ensures
            final(self).program == old(self).program,
            *final(final(self).context) == *final(old(self).context),
            final(self).context.wf(),
            final(self).context.steps_left() <= old(self).context.steps_left(),
            session_kept(old(self).context@, final(self).context@),
            r is Ok ==> subgoals_kept(
                old(self).context@,
                *old(minimums),
                final(self).context@,
                *final(minimums),
            ),
            solve_goal_known(
                old(self).context@,
                goal,
                *old(minimums),
                final(self).context@,
                *final(minimums),
                r,
            ),
            solved_as(
                old(self).program,
                old(self).context@,
                goal,
                *old(minimums),
                old(self).context.steps_left(),
                final(self).context@,
                *final(minimums),
                final(self).context.steps_left(),
                r,
            ),
        decreases old(self).context.steps_left(), 3int,
    {
        // First the cache.
        if let Some(value) = self.context.cache.get(&goal) {
            return Ok(value);
        }
        // Next the search graph.
        if let Some(dfn) = self.context.search_graph.lookup(&goal) {
            proof {
                self.context.search_graph.lemma_distinct_goals();
                assert(node_of(self.context@, goal) == self.context@.graph[dfn.index as int]);
            }
            if let Some(depth) = self.context.search_graph.index(dfn).stack_depth {
                // The goal is open. If the way back to it is coinductive,
                // that is success, and it is not tabled.
                if self.context.stack.coinductive_cycle_from(depth) {
                    return Ok(Ok(Solution::trivial(goal.binders)));
                }
                self.context.stack.index_mut(depth).flag_cycle();
            }
            minimums.update_from(self.context.search_graph.index(dfn).links);
            // The solution from the table.
            let previous_solution = clone_answer(&self.context.search_graph.index(dfn).solution);
            Ok(previous_solution)
        } else {
            // Else open the goal and make a node for it, without a solution.
            proof {
                self.context.search_graph.lemma_len_bound();
                self.context.stack.lemma_within_limit();
            }
            let coinductive_goal = self.program.is_coinductive(&goal);
            let depth = match self.context.stack.push(coinductive_goal) {
                Ok(depth) => depth,
                Err(overflow) => {
                    return Err(overflow);
                },
            };
            let dfn = self.context.search_graph.insert(&goal, depth);
            let ghost opened = self.context@;
            assert(self.context.wf()) by {
                assert forall|i: int|
                    0 <= i < opened.graph.len() implies !opened.cache.contains_key(
                    (#[trigger] opened.graph[i]).goal.key(),
                ) by {
                    if i < dfn.index {
                        assert(opened.graph[i] == old(self).context@.graph[i]);
                    }
                }
                assert forall|i: int|
                    0 <= i < opened.graph.len() && (
                    #[trigger] opened.graph[i]).stack_depth is Some implies opened.graph[i].stack_depth->0.depth
                    < opened.stack.len() by {
                    if i < dfn.index {
                        assert(opened.graph[i] == old(self).context@.graph[i]);
                    }
                }
            }
            let subgoal_minimums = match self.solve_new_subgoal(goal, depth, dfn) {
                Ok(subgoal_minimums) => subgoal_minimums,
                Err(overflow) => {
                    return Err(overflow);
                },
            };
            let ghost solved = self.context@;
            assert(solved.graph[dfn.index as int].stack_depth == Some(depth));
            assert(solved.graph[dfn.index as int].goal == goal);
            proof {
                self.context.search_graph.lemma_distinct_goals();
            }
            let result = self.context.close_goal(depth, dfn, subgoal_minimums);
            minimums.update_from(subgoal_minimums);
            proof {
                let now = self.context@;
                assert(now == after_close(solved, dfn, subgoal_minimums));
                let closed = solved.graph.update(
                    dfn.index as int,
                    NodeView {
                        links: subgoal_minimums,
                        stack_depth: None,
                        ..solved.graph[dfn.index as int]
                    },
                );
                assert(closed[dfn.index as int].goal.key() == goal.key());
                if is_settled(dfn, subgoal_minimums) && solved.caching_enabled {
                    assert(has_key_from(closed, dfn.index as int, goal.key()));
                    let j = choose|j: int|
                        dfn.index <= j < closed.len() && (#[trigger] closed[j]).goal.key()
                            == goal.key();
                    lemma_key_injective(closed[j].goal, goal);
                    if j != dfn.index {
                        assert(solved.graph[j].goal == closed[j].goal);
                        assert(solved.graph[j].goal != solved.graph[dfn.index as int].goal);
                    }
                } else {
                    assert(!solved.cache.contains_key(solved.graph[dfn.index as int].goal.key()));
                }
                assert forall|i: int|
                    0 <= i < now.graph.len() && (#[trigger] now.graph[i]).goal
                        == goal implies now.graph[i].solution == answer_view(result)
                    && now.graph[i].stack_depth is None by {
                    if i != dfn.index {
                        assert(now.graph[i] == solved.graph[i]);
                        assert(solved.graph[i].goal != solved.graph[dfn.index as int].goal);
                    }
                }
                assert(opened.stack.drop_last() =~= old(self).context@.stack);
                assert(opened.graph.drop_last() =~= old(self).context@.graph);
                assert(now.stack =~= solved.stack.drop_last());
                assert forall|i: int|
                    0 <= i < old(self).context@.graph.len() implies #[trigger] now.graph[i]
                    == old(self).context@.graph[i] by {
                    assert(now.graph[i] == solved.graph[i]);
                }
                if !old(self).context@.caching_enabled {
                    assert(now.cache == old(self).context@.cache);
                }
            }
            Ok(result)
        }
    }
}

} // verus!
