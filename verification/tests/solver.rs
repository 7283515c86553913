use chalk_solve::goal::UCanonicalGoal;
use chalk_solve::database::{Reduction, RustIrDatabase};
use chalk_solve::recursive::RecursiveContext;
use chalk_solve::solution::{
    ClausePriority, Fallible, NoSolution, Parameter, Solution, Substitution,
};
use chalk_solve::stack::Overflow;
use std::cell::RefCell;

/// A clause of a small program: the goal holds, with `result`, if every
/// condition holds.
struct Clause {
    result: Solution,
    conditions: Vec<UCanonicalGoal>,
}

/// A small program: clauses by goal, and the goals that are coinductive.
/// It keeps a record of every candidate answer that it gave.
struct Program {
    clauses: Vec<(UCanonicalGoal, Vec<Clause>)>,
    coinductive: Vec<UCanonicalGoal>,
    candidates: RefCell<Vec<(UCanonicalGoal, Fallible<Solution>)>>,
}

impl Program {
    fn new() -> Program {
        Program { clauses: vec![], coinductive: vec![], candidates: RefCell::new(vec![]) }
    }

    fn clause(&mut self, goal: UCanonicalGoal, result: Solution, conditions: Vec<UCanonicalGoal>) {
        for entry in self.clauses.iter_mut() {
            if entry.0 == goal {
                entry.1.push(Clause { result, conditions });
                return;
            }
        }
        self.clauses.push((goal, vec![Clause { result, conditions }]));
    }

    fn candidates_of(&self, goal: UCanonicalGoal) -> Vec<Fallible<Solution>> {
        self.candidates.borrow().iter().filter(|c| c.0 == goal).map(|c| c.1.clone()).collect()
    }
}

impl RustIrDatabase for Program {
    fn is_coinductive(&self, goal: &UCanonicalGoal) -> bool {
        self.coinductive.contains(goal)
    }

    fn reduce(&self, goal: &UCanonicalGoal, answers: &Vec<Fallible<Solution>>) -> Reduction {
        let mut next = 0;
        let mut best: Option<Solution> = None;
        for entry in self.clauses.iter().filter(|e| e.0 == *goal) {
            for clause in entry.1.iter() {
                let mut holds = true;
                let mut ambiguous = false;
                for condition in clause.conditions.iter() {
                    if next == answers.len() {
                        return Reduction::Subgoal(*condition);
                    }
                    let answer = &answers[next];
                    next += 1;
                    match answer {
                        Err(_) => {
                            holds = false;
                            break;
                        }
                        Ok(solution) => {
                            if solution.is_ambig() {
                                ambiguous = true;
                            }
                        }
                    }
                }
                if holds {
                    let solution =
                        if ambiguous { Solution::Ambig(None) } else { clause.result.clone() };
                    best = match best {
                        None => Some(solution),
                        Some(b) => {
                            if b == solution {
                                Some(b)
                            } else {
                                Some(Solution::Ambig(None))
                            }
                        }
                    };
                }
            }
        }
        let candidate = best.ok_or(NoSolution);
        self.candidates.borrow_mut().push((*goal, candidate.clone()));
        Reduction::Finished(candidate, ClausePriority::High)
    }
}

fn ground(goal: u64) -> UCanonicalGoal {
    UCanonicalGoal { goal, binders: 0, universes: 1 }
}

fn empty_unique() -> Solution {
    Solution::Unique(Substitution { binders: 0, parameters: vec![] }, vec![])
}

fn unique_with(term: u64) -> Solution {
    Solution::Unique(Substitution { binders: 0, parameters: vec![Parameter::Term(term)] }, vec![])
}

fn solve(
    program: &Program,
    goal: UCanonicalGoal,
    overflow_depth: usize,
    caching_enabled: bool,
) -> Result<Fallible<Solution>, Overflow> {
    let mut context = RecursiveContext::new(overflow_depth, caching_enabled);
    let mut solver = context.solver(program);
    solver.solve_root_goal(&goal)
}

fn rank(answer: &Fallible<Solution>) -> u8 {
    match answer {
        Err(_) => 0,
        Ok(Solution::Unique(_, _)) => 1,
        Ok(Solution::Ambig(_)) => 2,
    }
}

/// `i32: Eq` is declared.
fn program_fact() -> (Program, UCanonicalGoal) {
    let mut program = Program::new();
    let i32_eq = ground(1);
    program.clause(i32_eq, empty_unique(), vec![]);
    (program, i32_eq)
}

/// `Option<T>: Clone :- T: Clone`, at `T = i32`, and `i32: Clone`.
fn program_rule() -> (Program, UCanonicalGoal, UCanonicalGoal) {
    let mut program = Program::new();
    let option_clone = ground(2);
    let i32_clone = ground(3);
    program.clause(option_clone, empty_unique(), vec![i32_clone]);
    program.clause(i32_clone, empty_unique(), vec![]);
    (program, option_clone, i32_clone)
}

/// `Option<?X>: Clone`, which two facts match, each with its own `?X`.
fn program_overlap() -> (Program, UCanonicalGoal) {
    let mut program = Program::new();
    let goal = UCanonicalGoal { goal: 4, binders: 1, universes: 1 };
    program.clause(goal, unique_with(10), vec![]);
    program.clause(goal, unique_with(11), vec![]);
    (program, goal)
}

/// `T: Foo :- T: Foo`, at one ground type, and nothing else.
fn program_inductive_cycle() -> (Program, UCanonicalGoal) {
    let mut program = Program::new();
    let foo = ground(5);
    program.clause(foo, empty_unique(), vec![foo]);
    (program, foo)
}

/// An auto trait on a structure that refers to itself.
fn program_coinductive_cycle() -> (Program, UCanonicalGoal) {
    let mut program = Program::new();
    let send = UCanonicalGoal { goal: 6, binders: 2, universes: 1 };
    program.coinductive.push(send);
    program.clause(send, Solution::trivial(2), vec![send]);
    (program, send)
}

/// `A :- B`, `A`, and `B :- A`.
fn program_mutual() -> (Program, UCanonicalGoal, UCanonicalGoal) {
    let mut program = Program::new();
    let a = ground(7);
    let b = ground(8);
    program.clause(a, empty_unique(), vec![b]);
    program.clause(a, empty_unique(), vec![]);
    program.clause(b, empty_unique(), vec![a]);
    (program, a, b)
}

/// `goal(n) :- goal(n + 1)` for `n` below `length`, and the last one a fact.
fn program_chain(length: u64) -> (Program, UCanonicalGoal) {
    let mut program = Program::new();
    for n in 0..length {
        program.clause(ground(100 + n), empty_unique(), vec![ground(100 + n + 1)]);
    }
    program.clause(ground(100 + length), empty_unique(), vec![]);
    (program, ground(100))
}

#[test]
fn declared_fact_is_unique_with_empty_substitution() {
    let (program, i32_eq) = program_fact();
    let answer = solve(&program, i32_eq, 10, true);
    assert_eq!(answer, Ok(Ok(empty_unique())));
    match answer {
        Ok(Ok(Solution::Unique(subst, constraints))) => {
            assert!(subst.parameters.is_empty());
            assert!(constraints.is_empty());
        }
        _ => panic!("not unique"),
    }
}

#[test]
fn generic_rule_with_fact_is_unique() {
    let (program, option_clone, _) = program_rule();
    assert_eq!(solve(&program, option_clone, 10, true), Ok(Ok(empty_unique())));
}

#[test]
fn overlapping_facts_are_ambiguous() {
    let (program, goal) = program_overlap();
    assert_eq!(solve(&program, goal, 10, true), Ok(Ok(Solution::Ambig(None))));
}

#[test]
fn rule_without_base_case_has_no_value() {
    let (program, foo) = program_inductive_cycle();
    assert_eq!(solve(&program, foo, 10, true), Ok(Err(NoSolution)));
    // One attempt is enough: the answer is the one that the cycle saw.
    assert_eq!(program.candidates_of(foo).len(), 1);
}

#[test]
fn unknown_goal_has_no_value() {
    let (program, _) = program_fact();
    assert_eq!(solve(&program, ground(999), 10, true), Ok(Err(NoSolution)));
}

#[test]
fn coinductive_cycle_is_unique_with_identity() {
    let (program, send) = program_coinductive_cycle();
    let expected = Solution::Unique(
        Substitution {
            binders: 2,
            parameters: vec![Parameter::BoundVar(0), Parameter::BoundVar(1)],
        },
        vec![],
    );
    assert_eq!(solve(&program, send, 10, true), Ok(Ok(expected)));
    // The cycle was answered at once: the goal was attempted once.
    assert_eq!(program.candidates_of(send).len(), 1);
}

#[test]
fn mutual_goals_reach_a_fixed_point() {
    let (program, a, b) = program_mutual();
    assert_eq!(solve(&program, a, 10, true), Ok(Ok(empty_unique())));
    let of_a = program.candidates_of(a);
    let of_b = program.candidates_of(b);
    // No more attempts at `a` than the cycle has goals.
    assert_eq!(of_a.len(), 2);
    assert_eq!(of_a, vec![Ok(empty_unique()), Ok(empty_unique())]);
    // `b` first saw no answer of `a`, then the unique one.
    assert_eq!(of_b, vec![Err(NoSolution), Ok(empty_unique())]);
    for pair in of_a.windows(2) {
        assert!(rank(&pair[0]) <= rank(&pair[1]));
    }
    for pair in of_b.windows(2) {
        assert!(rank(&pair[0]) <= rank(&pair[1]));
    }
}

#[test]
fn mutual_goals_are_both_cached() {
    let (program, a, b) = program_mutual();
    let mut context = RecursiveContext::new(10, true);
    {
        let mut solver = context.solver(&program);
        assert_eq!(solver.solve_root_goal(&a), Ok(Ok(empty_unique())));
    }
    assert_eq!(context.cached(&a), Some(Ok(empty_unique())));
    assert_eq!(context.cached(&b), Some(Ok(empty_unique())));
    assert!(context.is_idle());
    // The second query is answered from the cache: the database is not asked.
    let asked = program.candidates.borrow().len();
    {
        let mut solver = context.solver(&program);
        assert_eq!(solver.solve_root_goal(&b), Ok(Ok(empty_unique())));
    }
    assert_eq!(program.candidates.borrow().len(), asked);
}

#[test]
fn deep_chain_overflows() {
    let (program, first) = program_chain(20);
    assert_eq!(solve(&program, first, 5, true), Err(Overflow));
    assert_eq!(solve(&program, first, 20, true), Err(Overflow));
    assert_eq!(solve(&program, first, 21, true), Ok(Ok(empty_unique())));
}

#[test]
fn zero_depth_overflows_at_once() {
    let (program, i32_eq) = program_fact();
    assert_eq!(solve(&program, i32_eq, 0, true), Err(Overflow));
}

#[test]
fn context_is_usable_after_overflow() {
    let (mut program, first) = program_chain(20);
    let i32_eq = ground(1);
    program.clause(i32_eq, empty_unique(), vec![]);
    let mut context = RecursiveContext::new(5, true);
    {
        let mut solver = context.solver(&program);
        assert_eq!(solver.solve_root_goal(&first), Err(Overflow));
    }
    assert!(context.is_idle());
    assert_eq!(context.cached(&first), None);
    {
        let mut solver = context.solver(&program);
        assert_eq!(solver.solve_root_goal(&i32_eq), Ok(Ok(empty_unique())));
        // The tail of the chain is within reach.
        assert_eq!(solver.solve_root_goal(&ground(117)), Ok(Ok(empty_unique())));
    }
    assert_eq!(context.cached(&ground(120)), Some(Ok(empty_unique())));
}

#[test]
fn fresh_contexts_agree() {
    let goals_of = |which: usize| -> (Program, UCanonicalGoal) {
        match which {
            0 => program_fact(),
            1 => {
                let (p, g, _) = program_rule();
                (p, g)
            }
            2 => program_overlap(),
            3 => program_inductive_cycle(),
            4 => program_coinductive_cycle(),
            _ => {
                let (p, g, _) = program_mutual();
                (p, g)
            }
        }
    };
    for which in 0..6 {
        let (program, goal) = goals_of(which);
        let first = solve(&program, goal, 10, true);
        let second = solve(&program, goal, 10, true);
        assert_eq!(first, second);
    }
}

#[test]
fn caching_does_not_change_answers() {
    let (program, a, b) = program_mutual();
    for goal in [a, b] {
        assert_eq!(solve(&program, goal, 10, true), solve(&program, goal, 10, false));
    }
    let (program, option_clone, i32_clone) = program_rule();
    for goal in [option_clone, i32_clone] {
        assert_eq!(solve(&program, goal, 10, true), solve(&program, goal, 10, false));
    }
    let (program, goal) = program_overlap();
    assert_eq!(solve(&program, goal, 10, true), solve(&program, goal, 10, false));
    let (program, goal) = program_inductive_cycle();
    assert_eq!(solve(&program, goal, 10, true), solve(&program, goal, 10, false));
    let (program, goal) = program_coinductive_cycle();
    assert_eq!(solve(&program, goal, 10, true), solve(&program, goal, 10, false));
}

#[test]
fn disabled_cache_stays_empty() {
    let (program, option_clone, i32_clone) = program_rule();
    let mut context = RecursiveContext::new(10, false);
    assert!(!context.caching_enabled());
    {
        let mut solver = context.solver(&program);
        assert_eq!(solver.solve_root_goal(&option_clone), Ok(Ok(empty_unique())));
    }
    assert_eq!(context.cached(&option_clone), None);
    assert_eq!(context.cached(&i32_clone), None);
    assert!(context.is_idle());
}

/// `R :- A, B`, `A :- B`, two facts for `A` that differ, and `B :- A`.
fn program_ambiguous_cycle() -> (Program, UCanonicalGoal, UCanonicalGoal, UCanonicalGoal) {
    let mut program = Program::new();
    let r = ground(20);
    let a = ground(21);
    let b = ground(22);
    program.clause(r, empty_unique(), vec![a, b]);
    program.clause(a, empty_unique(), vec![b]);
    program.clause(a, unique_with(10), vec![]);
    program.clause(a, unique_with(11), vec![]);
    program.clause(b, empty_unique(), vec![a]);
    (program, r, a, b)
}

#[test]
fn ambiguous_answer_ends_the_attempts() {
    let (program, _, a, b) = program_ambiguous_cycle();
    let mut context = RecursiveContext::new(10, true);
    {
        let mut solver = context.solver(&program);
        assert_eq!(solver.solve_root_goal(&a), Ok(Ok(Solution::Ambig(None))));
    }
    // `a` was attempted once, though `b` had looped back to it and had
    // seen no answer.
    assert_eq!(program.candidates_of(a), vec![Ok(Solution::Ambig(None))]);
    assert_eq!(program.candidates_of(b), vec![Err(NoSolution)]);
    // Both are settled with the answers of that attempt.
    assert_eq!(context.cached(&a), Some(Ok(Solution::Ambig(None))));
    assert_eq!(context.cached(&b), Some(Err(NoSolution)));
}

#[test]
fn ambiguous_cycle_with_and_without_cache() {
    let (program, r, _, _) = program_ambiguous_cycle();
    // With the cache, `b` is answered as the one attempt at `a` left it.
    assert_eq!(solve(&program, r, 10, true), Ok(Err(NoSolution)));
    // Without it, `b` is solved again, with `a` below it.
    assert_eq!(solve(&program, r, 10, false), Ok(Ok(Solution::Ambig(None))));
}
