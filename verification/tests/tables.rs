use chalk_solve::cache::Cache;
use chalk_solve::fx_map::is_below;
use chalk_solve::goal::UCanonicalGoal;
use chalk_solve::search_graph::{DepthFirstNumber, Minimums, SearchGraph};
use chalk_solve::solution::{
    answer_is_ambig, answer_tag, better, clone_answer, same_answer, ClausePriority, Fallible,
    MergeWith, NoSolution, Parameter, Solution, Substitution,
};
use chalk_solve::stack::{Overflow, Stack, StackDepth, StackEntry};

fn goal(n: u64) -> UCanonicalGoal {
    UCanonicalGoal { goal: n, binders: 0, universes: 1 }
}

fn unique(term: u64) -> Solution {
    Solution::Unique(Substitution { binders: 0, parameters: vec![Parameter::Term(term)] }, vec![7])
}

#[test]
fn goal_key_holds_the_three_fields() {
    let g = UCanonicalGoal { goal: 5, binders: 2, universes: 3 };
    assert_eq!(g.key(), (5, 2, 3));
    assert_ne!(g.key(), UCanonicalGoal { goal: 5, binders: 2, universes: 4 }.key());
}

#[test]
fn trivial_substitution_is_the_identity() {
    let s = Substitution::trivial(3);
    assert_eq!(s.binders, 3);
    assert_eq!(
        s.parameters,
        vec![Parameter::BoundVar(0), Parameter::BoundVar(1), Parameter::BoundVar(2)]
    );
    let empty = Substitution::trivial(0);
    assert_eq!(empty.binders, 0);
    assert!(empty.parameters.is_empty());
}

#[test]
fn trivial_solution_is_unique_without_constraints() {
    match Solution::trivial(1) {
        Solution::Unique(subst, constraints) => {
            assert_eq!(subst.parameters, vec![Parameter::BoundVar(0)]);
            assert!(constraints.is_empty());
        }
        Solution::Ambig(_) => panic!("ambiguous"),
    }
    assert!(!Solution::trivial(1).is_ambig());
}

#[test]
fn solutions_compare_by_value() {
    assert_eq!(unique(1), unique(1));
    assert_ne!(unique(1), unique(2));
    assert_ne!(unique(1), Solution::Ambig(None));
    assert_ne!(Solution::Ambig(None), Solution::Ambig(Some(Substitution::trivial(1))));
    assert_eq!(
        Solution::Ambig(Some(Substitution::trivial(2))),
        Solution::Ambig(Some(Substitution::trivial(2)))
    );
    assert_ne!(Substitution::trivial(2), Substitution::trivial(3));
    assert_ne!(
        Substitution { binders: 1, parameters: vec![] },
        Substitution { binders: 2, parameters: vec![] }
    );
    // The constraints count.
    let other = Solution::Unique(
        Substitution { binders: 0, parameters: vec![Parameter::Term(1)] },
        vec![8],
    );
    assert_ne!(unique(1), other);
    assert_eq!(unique(3).clone(), unique(3));
}

#[test]
fn answers_compare_by_value() {
    let none: Fallible<Solution> = Err(NoSolution);
    assert!(same_answer(&none, &Err(NoSolution)));
    assert!(same_answer(&Ok(unique(1)), &Ok(unique(1))));
    assert!(!same_answer(&Ok(unique(1)), &Ok(unique(2))));
    assert!(!same_answer(&Ok(unique(1)), &none));
    assert!(!same_answer(&none, &Ok(Solution::Ambig(None))));
    assert_eq!(clone_answer(&Ok(unique(4))), Ok(unique(4)));
    assert_eq!(clone_answer(&none), Err(NoSolution));
    assert!(answer_is_ambig(&Ok(Solution::Ambig(None))));
    assert!(!answer_is_ambig(&Ok(unique(1))));
    assert!(!answer_is_ambig(&none));
}

#[test]
fn answers_are_shown_by_tag() {
    assert_eq!(answer_tag(&Ok(unique(1))), "Unique");
    assert_eq!(answer_tag(&Ok(Solution::Ambig(None))), "Ambiguous");
    assert_eq!(answer_tag(&Err(NoSolution)), "error");
}

#[test]
fn merge_keeps_the_side_with_a_value() {
    let left: Fallible<u32> = Ok(3);
    let right: Fallible<u32> = Err(NoSolution);
    assert_eq!(left.merge_with(right, |a, b| a + b), Ok(3));
    let left: Fallible<u32> = Err(NoSolution);
    let right: Fallible<u32> = Ok(4);
    assert_eq!(left.merge_with(right, |a, b| a + b), Ok(4));
}

#[test]
fn merge_combines_two_values() {
    let left: Fallible<u32> = Ok(3);
    let right: Fallible<u32> = Ok(4);
    assert_eq!(left.merge_with(right, |a, b| a * 10 + b), Ok(34));
}

#[test]
fn merge_of_two_failures_fails() {
    let left: Fallible<u32> = Err(NoSolution);
    let right: Fallible<u32> = Err(NoSolution);
    assert_eq!(left.merge_with(right, |a, b| a + b), Err(NoSolution));
}

#[test]
fn stack_pushes_up_to_its_limit() {
    let mut stack = Stack::new(2);
    assert!(stack.is_empty());
    assert_eq!(stack.push(true), Ok(StackDepth { depth: 0 }));
    assert_eq!(stack.push(false), Ok(StackDepth { depth: 1 }));
    assert_eq!(stack.len(), 2);
    assert_eq!(stack.push(true), Err(Overflow));
    assert_eq!(stack.len(), 2);
    assert!(!stack.is_empty());
    assert_eq!(
        *stack.index(StackDepth { depth: 0 }),
        StackEntry { coinductive_goal: true, cycle: false }
    );
    assert_eq!(
        *stack.index(StackDepth { depth: 1 }),
        StackEntry { coinductive_goal: false, cycle: false }
    );
}

#[test]
fn stack_without_room_refuses_every_push() {
    let mut stack = Stack::new(0);
    assert_eq!(stack.push(false), Err(Overflow));
    assert!(stack.is_empty());
}

#[test]
fn stack_pops_in_order() {
    let mut stack = Stack::new(5);
    let first = stack.push(true).unwrap();
    let second = stack.push(true).unwrap();
    stack.pop(second);
    assert_eq!(stack.len(), 1);
    assert_eq!(stack.push(false), Ok(StackDepth { depth: 1 }));
    stack.pop(StackDepth { depth: 1 });
    stack.pop(first);
    assert!(stack.is_empty());
}

#[test]
fn stack_clear_closes_everything() {
    let mut stack = Stack::new(5);
    stack.push(true).unwrap();
    stack.push(false).unwrap();
    stack.clear();
    assert!(stack.is_empty());
    assert_eq!(stack.push(false), Ok(StackDepth { depth: 0 }));
}

#[test]
fn cycle_flag_is_read_and_reset() {
    let mut stack = Stack::new(5);
    let depth = stack.push(false).unwrap();
    assert!(!stack.index_mut(depth).read_and_reset_cycle_flag());
    stack.index_mut(depth).flag_cycle();
    assert!(stack.index(depth).cycle);
    assert!(!stack.index(depth).coinductive_goal);
    assert!(stack.index_mut(depth).read_and_reset_cycle_flag());
    assert!(!stack.index(depth).cycle);
    assert!(!stack.index_mut(depth).read_and_reset_cycle_flag());
}

#[test]
fn coinductive_cycle_needs_every_entry_above() {
    let mut stack = Stack::new(5);
    let d0 = stack.push(false).unwrap();
    let d1 = stack.push(true).unwrap();
    let d2 = stack.push(true).unwrap();
    assert!(!stack.coinductive_cycle_from(d0));
    assert!(stack.coinductive_cycle_from(d1));
    assert!(stack.coinductive_cycle_from(d2));
    let d3 = stack.push(false).unwrap();
    assert!(!stack.coinductive_cycle_from(d1));
    assert!(!stack.coinductive_cycle_from(d3));
    stack.pop(d3);
    assert!(stack.coinductive_cycle_from(d1));
}

#[test]
fn minimums_start_at_the_top_and_keep_the_least() {
    let mut m = Minimums::new();
    assert_eq!(m.positive, DepthFirstNumber { index: usize::MAX });
    assert_eq!(m.negative, DepthFirstNumber { index: usize::MAX });
    assert_eq!(DepthFirstNumber::max(), DepthFirstNumber { index: usize::MAX });
    m.update_from(Minimums {
        positive: DepthFirstNumber { index: 4 },
        negative: DepthFirstNumber { index: 9 },
    });
    assert_eq!(m.positive.index, 4);
    assert_eq!(m.negative.index, 9);
    m.update_from(Minimums {
        positive: DepthFirstNumber { index: 6 },
        negative: DepthFirstNumber { index: 2 },
    });
    assert_eq!(m.positive.index, 4);
    assert_eq!(m.negative.index, 2);
    assert_eq!(DepthFirstNumber { index: 4 }.next(), DepthFirstNumber { index: 5 });
}

#[test]
fn below_is_strict() {
    assert!(is_below(1, 2));
    assert!(!is_below(2, 2));
    assert!(!is_below(3, 2));
}

#[test]
fn graph_numbers_goals_in_order_of_discovery() {
    let mut graph = SearchGraph::new();
    assert_eq!(graph.len(), 0);
    assert_eq!(graph.lookup(&goal(1)), None);
    let d0 = graph.insert(&goal(1), StackDepth { depth: 0 });
    let d1 = graph.insert(&goal(2), StackDepth { depth: 1 });
    assert_eq!(d0, DepthFirstNumber { index: 0 });
    assert_eq!(d1, DepthFirstNumber { index: 1 });
    assert_eq!(graph.len(), 2);
    assert_eq!(graph.lookup(&goal(1)), Some(d0));
    assert_eq!(graph.lookup(&goal(2)), Some(d1));
    assert_eq!(graph.lookup(&goal(3)), None);
    // A goal with the same content and other binders is another goal.
    assert_eq!(graph.lookup(&UCanonicalGoal { goal: 1, binders: 1, universes: 1 }), None);
}

#[test]
fn new_node_is_open_without_solution() {
    let mut graph = SearchGraph::new();
    graph.insert(&goal(1), StackDepth { depth: 0 });
    let dfn = graph.insert(&goal(2), StackDepth { depth: 3 });
    let node = graph.index(dfn);
    assert_eq!(node.goal, goal(2));
    assert_eq!(node.solution, Err(NoSolution));
    assert_eq!(node.solution_priority, ClausePriority::High);
    assert_eq!(node.stack_depth, Some(StackDepth { depth: 3 }));
    assert_eq!(node.links.positive, dfn);
    assert_eq!(node.links.negative, DepthFirstNumber { index: usize::MAX });
}

#[test]
fn node_fields_are_written_by_number() {
    let mut graph = SearchGraph::new();
    let d0 = graph.insert(&goal(1), StackDepth { depth: 0 });
    let d1 = graph.insert(&goal(2), StackDepth { depth: 1 });
    graph.set_solution(d1, Ok(unique(5)), ClausePriority::Low);
    let links = Minimums { positive: d0, negative: DepthFirstNumber { index: 77 } };
    graph.set_links(d1, links);
    graph.set_stack_depth(d1, None);
    let node = graph.index(d1);
    assert_eq!(node.goal, goal(2));
    assert_eq!(node.solution, Ok(unique(5)));
    assert_eq!(node.solution_priority, ClausePriority::Low);
    assert_eq!(node.links, links);
    assert_eq!(node.stack_depth, None);
    // The other node is as it was.
    let node = graph.index(d0);
    assert_eq!(node.solution, Err(NoSolution));
    assert_eq!(node.stack_depth, Some(StackDepth { depth: 0 }));
    assert_eq!(graph.lookup(&goal(2)), Some(d1));
}

#[test]
fn rollback_removes_the_node_and_all_after_it() {
    let mut graph = SearchGraph::new();
    let d0 = graph.insert(&goal(1), StackDepth { depth: 0 });
    let d1 = graph.insert(&goal(2), StackDepth { depth: 1 });
    graph.insert(&goal(3), StackDepth { depth: 2 });
    graph.rollback_to(d1);
    assert_eq!(graph.len(), 1);
    assert_eq!(graph.lookup(&goal(1)), Some(d0));
    assert_eq!(graph.lookup(&goal(2)), None);
    assert_eq!(graph.lookup(&goal(3)), None);
    // The numbers are given out again.
    assert_eq!(graph.insert(&goal(3), StackDepth { depth: 1 }), d1);
    graph.rollback_to(d0);
    assert_eq!(graph.len(), 0);
    assert_eq!(graph.lookup(&goal(1)), None);
}

#[test]
fn move_to_cache_commits_the_node_and_all_after_it() {
    let mut graph = SearchGraph::new();
    let mut cache = Cache::new();
    cache.insert(&goal(9), Ok(unique(9)));
    let d0 = graph.insert(&goal(1), StackDepth { depth: 0 });
    let d1 = graph.insert(&goal(2), StackDepth { depth: 1 });
    let d2 = graph.insert(&goal(3), StackDepth { depth: 2 });
    graph.set_solution(d1, Ok(unique(2)), ClausePriority::High);
    graph.set_solution(d2, Ok(Solution::Ambig(None)), ClausePriority::High);
    graph.set_stack_depth(d1, None);
    graph.set_stack_depth(d2, None);
    graph.set_links(d2, Minimums { positive: d1, negative: DepthFirstNumber::max() });
    graph.move_to_cache(d1, &mut cache);
    assert_eq!(graph.len(), 1);
    assert_eq!(graph.lookup(&goal(1)), Some(d0));
    assert_eq!(graph.lookup(&goal(2)), None);
    assert_eq!(graph.lookup(&goal(3)), None);
    assert_eq!(cache.get(&goal(1)), None);
    assert_eq!(cache.get(&goal(2)), Some(Ok(unique(2))));
    assert_eq!(cache.get(&goal(3)), Some(Ok(Solution::Ambig(None))));
    assert_eq!(cache.get(&goal(9)), Some(Ok(unique(9))));
}

#[test]
fn cache_gives_back_what_was_stored() {
    let mut cache = Cache::new();
    assert_eq!(cache.get(&goal(1)), None);
    cache.insert(&goal(1), Ok(unique(1)));
    cache.insert(&goal(2), Err(NoSolution));
    assert_eq!(cache.get(&goal(1)), Some(Ok(unique(1))));
    assert_eq!(cache.get(&goal(2)), Some(Err(NoSolution)));
    assert_eq!(cache.get(&goal(3)), None);
    cache.insert(&goal(1), Ok(unique(8)));
    assert_eq!(cache.get(&goal(1)), Some(Ok(unique(8))));
}

#[test]
fn unique_goes_before_ambiguous() {
    assert_eq!(better(Solution::Ambig(None), unique(1)), unique(1));
    assert_eq!(better(unique(1), Solution::Ambig(None)), unique(1));
    assert_eq!(better(unique(1), unique(2)), unique(1));
    assert_eq!(
        better(Solution::Ambig(None), Solution::Ambig(Some(Substitution::trivial(1)))),
        Solution::Ambig(None)
    );
    let first: Fallible<Solution> = Ok(Solution::Ambig(None));
    let second: Fallible<Solution> = Ok(unique(3));
    assert_eq!(first.merge_with(second, better), Ok(unique(3)));
}
