use chalk_solve::database::{Reduction, RustIrDatabase};
use chalk_solve::goal::UCanonicalGoal;
use chalk_solve::recursive::RecursiveContext;
use chalk_solve::solution::{
    ClausePriority, Fallible, NoSolution, Parameter, Solution, Substitution,
};
use chalk_solve::stack::Overflow;

/// A program over the goals `0..goals`, made from a seed: each goal has up
/// to three clauses, each with up to three conditions.
struct Generated {
    goals: u64,
    coinductive: Vec<bool>,
    clauses: Vec<Vec<(Solution, Vec<u64>)>>,
}

struct Lcg(u64);

impl Lcg {
    fn next(&mut self, bound: u64) -> u64 {
        self.0 = self.0.wrapping_mul(6364136223846793005).wrapping_add(1442695040888963407);
        (self.0 >> 33) % bound
    }
}

fn ground(goal: u64) -> UCanonicalGoal {
    UCanonicalGoal { goal, binders: 0, universes: 1 }
}

fn unique_with(term: u64) -> Solution {
    Solution::Unique(Substitution { binders: 0, parameters: vec![Parameter::Term(term)] }, vec![])
}

fn generate(seed: u64) -> Generated {
    let mut rng = Lcg(seed);
    let goals = 2 + rng.next(5);
    let mut coinductive = vec![];
    let mut clauses = vec![];
    for _ in 0..goals {
        coinductive.push(rng.next(4) == 0);
        let mut of_goal = vec![];
        for _ in 0..rng.next(4) {
            let mut conditions = vec![];
            for _ in 0..rng.next(4) {
                conditions.push(rng.next(goals));
            }
            of_goal.push((unique_with(rng.next(2)), conditions));
        }
        clauses.push(of_goal);
    }
    Generated { goals, coinductive, clauses }
}

impl RustIrDatabase for Generated {
    fn is_coinductive(&self, goal: &UCanonicalGoal) -> bool {
        self.coinductive[goal.goal as usize]
    }

    fn reduce(&self, goal: &UCanonicalGoal, answers: &Vec<Fallible<Solution>>) -> Reduction {
        let mut next = 0;
        let mut best: Option<Solution> = None;
        for (result, conditions) in self.clauses[goal.goal as usize].iter() {
            let mut holds = true;
            let mut ambiguous = false;
            for condition in conditions.iter() {
                if next == answers.len() {
                    return Reduction::Subgoal(ground(*condition));
                }
                let answer = &answers[next];
                next += 1;
                match answer {
                    Err(_) => {
                        holds = false;
                        break;
                    }
                    Ok(solution) => {
                        if solution.is_ambig() {
                            ambiguous = true;
                        }
                    }
                }
            }
            if holds {
                let solution = if ambiguous { Solution::Ambig(None) } else { result.clone() };
                best = match best {
                    None => Some(solution),
                    Some(b) => {
                        if b == solution {
                            Some(b)
                        } else {
                            Some(Solution::Ambig(None))
                        }
                    }
                };
            }
        }
        Reduction::Finished(best.ok_or(NoSolution), ClausePriority::High)
    }
}

fn solve_fresh(
    program: &Generated,
    goal: u64,
    overflow_depth: usize,
    caching_enabled: bool,
) -> Result<Fallible<Solution>, Overflow> {
    let mut context = RecursiveContext::new(overflow_depth, caching_enabled);
    let answer = {
        let mut solver = context.solver(program);
        solver.solve_root_goal(&ground(goal))
    };
    assert!(context.is_idle());
    answer
}

#[test]
fn generated_programs_are_solved_the_same_way_twice() {
    for seed in 0..300 {
        let program = generate(seed);
        for goal in 0..program.goals {
            for caching_enabled in [true, false] {
                let first = solve_fresh(&program, goal, 16, caching_enabled);
                let second = solve_fresh(&program, goal, 16, caching_enabled);
                assert_eq!(first, second, "seed {} goal {}", seed, goal);
                // Sixteen goals may be open, and there are at most six.
                assert!(first.is_ok(), "seed {} goal {}", seed, goal);
            }
        }
    }
}

#[test]
fn generated_programs_overflow_or_agree_within_small_stacks() {
    for seed in 0..300 {
        let program = generate(seed);
        for goal in 0..program.goals {
            let roomy = solve_fresh(&program, goal, 16, true);
            for overflow_depth in 0..4 {
                let tight = solve_fresh(&program, goal, overflow_depth, true);
                assert!(
                    tight == Err(Overflow) || tight == roomy,
                    "seed {} goal {} depth {}",
                    seed,
                    goal,
                    overflow_depth
                );
            }
        }
    }
}

#[test]
fn cached_answers_are_given_again() {
    for seed in 0..300 {
        let program = generate(seed);
        let mut context = RecursiveContext::new(16, true);
        let mut first = vec![];
        for goal in 0..program.goals {
            let mut solver = context.solver(&program);
            first.push(solver.solve_root_goal(&ground(goal)));
        }
        for goal in 0..program.goals {
            let cached = context.cached(&ground(goal));
            assert_eq!(Ok(cached.clone().unwrap()), first[goal as usize], "seed {}", seed);
            let mut solver = context.solver(&program);
            assert_eq!(solver.solve_root_goal(&ground(goal)), Ok(cached.unwrap()));
        }
        assert!(context.is_idle());
    }
}

#[test]
fn queries_after_an_overflow_are_as_in_a_new_context() {
    for seed in 0..300 {
        let program = generate(seed);
        for goal in 0..program.goals {
            let mut context = RecursiveContext::new(2, false);
            for warm in 0..program.goals {
                let mut solver = context.solver(&program);
                let _ = solver.solve_root_goal(&ground(warm));
            }
            assert!(context.is_idle());
            let after = {
                let mut solver = context.solver(&program);
                solver.solve_root_goal(&ground(goal))
            };
            // Without caching, what went before leaves no trace.
            assert_eq!(after, solve_fresh(&program, goal, 2, false), "seed {}", seed);
        }
    }
}
