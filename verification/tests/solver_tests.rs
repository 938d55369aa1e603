use dpll_sat::expression::expression::{Assignment, Expression};
use dpll_sat::solver::decision::{choose_variable, fresh_seed, open_variables};
use dpll_sat::solver::dpll::{solve, solve_dpll};
use dpll_sat::solver::instance::{
    SATInstance, SolveError, SolverOptions, SolverResult, UnknownReason,
};
use dpll_sat::solver::model::{DecisionStream, SearchSettings};
use rand::rngs::StdRng;
use rand::{Rng, SeedableRng};
use std::collections::HashMap;

fn x(id: u16) -> Expression {
    Expression::Variable(id)
}

fn all(a: Expression, b: Expression) -> Expression {
    Expression::And(Box::new(a), Box::new(b))
}

fn any(a: Expression, b: Expression) -> Expression {
    Expression::Or(Box::new(a), Box::new(b))
}

fn no(a: Expression) -> Expression {
    Expression::Not(Box::new(a))
}

fn instance(expression: Expression, variables: u16) -> SATInstance {
    let mut names = HashMap::new();
    for id in 0..variables {
        names.insert(id, format!("v{}", id));
    }
    SATInstance::new(expression, names)
}

fn seeded(seed: u64) -> SolverOptions {
    SolverOptions { seed: Some(seed), disable_pure_literal: false, max_decisions: None }
}

fn expect_sat(result: Result<SolverResult, SolveError>) -> Assignment {
    match result {
        Ok(SolverResult::Sat(Some(assignment))) => assignment,
        other => panic!("expected a satisfying assignment, got {:?}", other),
    }
}

fn expect_unsat(result: Result<SolverResult, SolveError>) {
    assert!(matches!(result, Ok(SolverResult::Unsat)), "{:?}", result);
}

fn satisfiable_by_enumeration(e: &Expression, variables: u16) -> bool {
    for bits in 0..(1u32 << variables) {
        let mut values = HashMap::new();
        for id in 0..variables {
            values.insert(id, (bits >> id) & 1 == 1);
        }
        if e.clone().evaluate(&Assignment::new(values)) == Expression::Constant(true) {
            return true;
        }
    }
    false
}

fn four_clause_contradiction() -> Expression {
    all(
        all(any(x(0), x(1)), any(no(x(0)), x(1))),
        all(any(x(0), no(x(1))), any(no(x(0)), no(x(1)))),
    )
}

fn cycle_formula() -> Expression {
    // (a | b | c) & (-a | b) & (-b | c) & (-c | a)
    all(
        all(any(any(x(0), x(1)), x(2)), any(no(x(0)), x(1))),
        all(any(no(x(1)), x(2)), any(no(x(2)), x(0))),
    )
}

fn small_formulas() -> Vec<Expression> {
    vec![
        x(0),
        all(x(0), no(x(0))),
        any(x(0), no(x(0))),
        four_clause_contradiction(),
        cycle_formula(),
        all(any(x(0), x(1)), any(no(x(0)), no(x(1)))),
        no(any(all(x(0), x(1)), all(no(x(2)), x(3)))),
        all(all(any(x(0), x(1)), any(x(2), x(3))), all(no(x(0)), no(x(2)))),
        all(all(any(x(0), x(1)), no(x(1))), all(no(x(0)), any(x(2), x(3)))),
        any(all(x(0), all(x(1), x(2))), all(no(x(0)), all(no(x(1)), no(x(3))))),
    ]
}

#[test]
fn contradiction_of_a_variable_is_unsat() {
    expect_unsat(solve_dpll(instance(all(x(0), no(x(0))), 1), Assignment::default()));
}

#[test]
fn tautology_of_a_variable_is_sat() {
    let found = expect_sat(solve_dpll(instance(any(x(0), no(x(0))), 1), Assignment::default()));
    assert!(found.get(0).is_some());
}

#[test]
fn four_clause_contradiction_is_unsat() {
    expect_unsat(solve_dpll(instance(four_clause_contradiction(), 2), Assignment::default()));
    for seed in 0..8 {
        expect_unsat(solve(
            instance(four_clause_contradiction(), 2),
            Assignment::default(),
            seeded(seed),
        ));
    }
}

#[test]
fn cycle_formula_is_sat_and_assignment_satisfies_it() {
    let found = expect_sat(solve_dpll(instance(cycle_formula(), 3), Assignment::default()));
    assert_eq!(cycle_formula().evaluate(&found), Expression::Constant(true));
    assert_eq!(found.get(0), Some(true));
    assert_eq!(found.get(1), Some(true));
    assert_eq!(found.get(2), Some(true));
}

#[test]
fn unit_propagation_from_initial_assignment() {
    // (v0) & (-v0 | v1) & (-v1 | v2) with v0 = true
    let e = all(all(x(0), any(no(x(0)), x(1))), any(no(x(1)), x(2)));
    let options = SolverOptions { seed: Some(1), disable_pure_literal: true, max_decisions: Some(0) };
    let found = expect_sat(solve(instance(e, 3), Assignment::from([(0, true)]), options));
    assert_eq!(found.len(), 3);
    assert_eq!(found.get(0), Some(true));
    assert_eq!(found.get(1), Some(true));
    assert_eq!(found.get(2), Some(true));
}

#[test]
fn initial_assignment_that_falsifies_is_unsat() {
    let e = all(x(0), any(x(1), x(2)));
    expect_unsat(solve_dpll(instance(e, 3), Assignment::from([(0, false)])));
}

#[test]
fn result_extends_initial_assignment() {
    let e = any(any(x(0), x(1)), x(2));
    let initial = Assignment::from([(1, false), (2, false)]);
    let found = expect_sat(solve_dpll(instance(e.clone(), 3), initial));
    assert_eq!(found.get(1), Some(false));
    assert_eq!(found.get(2), Some(false));
    assert_eq!(found.get(0), Some(true));
    assert_eq!(e.evaluate(&found), Expression::Constant(true));
}

#[test]
fn initial_assignment_outside_the_range_is_kept() {
    let found = expect_sat(solve_dpll(instance(x(0), 1), Assignment::from([(9, false)])));
    assert_eq!(found.get(9), Some(false));
    assert_eq!(found.get(0), Some(true));
}

#[test]
fn verdict_agrees_with_enumeration() {
    for e in small_formulas() {
        let expected = satisfiable_by_enumeration(&e, 4);
        for seed in 0..6 {
            for skip in [false, true] {
                let options =
                    SolverOptions { seed: Some(seed), disable_pure_literal: skip, max_decisions: None };
                match solve(instance(e.clone(), 4), Assignment::default(), options) {
                    Ok(SolverResult::Sat(Some(found))) => {
                        assert!(expected, "{:?}", e);
                        assert_eq!(e.clone().evaluate(&found), Expression::Constant(true));
                    }
                    Ok(SolverResult::Unsat) => assert!(!expected, "{:?}", e),
                    other => panic!("unexpected {:?}", other),
                }
            }
        }
    }
}

#[test]
fn same_seed_gives_same_result() {
    let e = all(
        all(any(x(0), x(1)), any(no(x(0)), no(x(1)))),
        all(any(x(2), x(3)), any(no(x(2)), any(no(x(3)), x(4)))),
    );
    for seed in [0u64, 1, 7, 12345, u64::MAX] {
        let first = expect_sat(solve(instance(e.clone(), 5), Assignment::default(), seeded(seed)));
        let second = expect_sat(solve(instance(e.clone(), 5), Assignment::default(), seeded(seed)));
        assert_eq!(first.values, second.values);
    }
}

#[test]
fn exhausted_budget_gives_unknown() {
    // no unit clause and no pure literal: a decision is needed
    let e = all(any(x(0), x(1)), any(no(x(0)), no(x(1))));
    let options = SolverOptions { seed: Some(3), disable_pure_literal: false, max_decisions: Some(0) };
    let result = solve(instance(e.clone(), 2), Assignment::default(), options);
    assert!(matches!(result, Ok(SolverResult::Unknown(UnknownReason::DecisionBudgetExhausted))), "{:?}", result);
    let enough = SolverOptions { seed: Some(3), disable_pure_literal: false, max_decisions: Some(1) };
    let found = expect_sat(solve(instance(e.clone(), 2), Assignment::default(), enough));
    assert_eq!(e.evaluate(&found), Expression::Constant(true));
}

#[test]
fn budget_limits_decisions_of_unsatisfiable_search() {
    let options = SolverOptions { seed: Some(5), disable_pure_literal: false, max_decisions: Some(0) };
    let result = solve(instance(four_clause_contradiction(), 2), Assignment::default(), options);
    assert!(matches!(result, Ok(SolverResult::Unknown(UnknownReason::DecisionBudgetExhausted))), "{:?}", result);
    let enough = SolverOptions { seed: Some(5), disable_pure_literal: false, max_decisions: Some(1) };
    expect_unsat(solve(instance(four_clause_contradiction(), 2), Assignment::default(), enough));
}

#[test]
fn pure_literal_elimination_can_be_left_out() {
    // v0 | v1 is satisfied by pure literals without a decision
    let e = any(x(0), x(1));
    let with = SolverOptions { seed: Some(2), disable_pure_literal: false, max_decisions: Some(0) };
    let found = expect_sat(solve(instance(e.clone(), 2), Assignment::default(), with));
    assert_eq!(found.get(0), Some(true));
    assert_eq!(found.get(1), Some(true));
    let without = SolverOptions { seed: Some(2), disable_pure_literal: true, max_decisions: Some(0) };
    let result = solve(instance(e, 2), Assignment::default(), without);
    assert!(matches!(result, Ok(SolverResult::Unknown(UnknownReason::DecisionBudgetExhausted))), "{:?}", result);
}

#[test]
fn variable_outside_the_range_is_an_error() {
    let e = any(x(0), x(5));
    let result = solve_dpll(instance(e, 2), Assignment::default());
    assert!(matches!(result, Err(SolveError::VariableOutOfRange(5))), "{:?}", result);
}

#[test]
fn variable_outside_an_empty_range_is_an_error() {
    let result = solve_dpll(instance(x(0), 0), Assignment::default());
    assert!(matches!(result, Err(SolveError::VariableOutOfRange(0))), "{:?}", result);
}

#[test]
fn constant_false_is_unsat() {
    expect_unsat(solve_dpll(instance(Expression::Constant(false), 0), Assignment::default()));
    expect_unsat(solve_dpll(
        instance(all(x(0), Expression::Constant(false)), 1),
        Assignment::default(),
    ));
}

#[test]
fn constant_true_is_sat_with_the_initial_assignment() {
    let found = expect_sat(solve_dpll(instance(Expression::Constant(true), 0), Assignment::default()));
    assert_eq!(found.len(), 0);
    let kept = expect_sat(solve_dpll(
        instance(Expression::Constant(true), 0),
        Assignment::from([(4, false)]),
    ));
    assert_eq!(kept.len(), 1);
    assert_eq!(kept.get(4), Some(false));
}

#[test]
fn expression_that_folds_to_true_is_sat() {
    let e = any(x(0), Expression::Constant(true));
    let found = expect_sat(solve_dpll(instance(e.clone(), 1), Assignment::default()));
    assert_eq!(found.len(), 0);
    assert_eq!(e.evaluate(&found), Expression::Constant(true));
    let negated = no(all(x(0), Expression::Constant(false)));
    expect_sat(solve_dpll(instance(negated, 1), Assignment::default()));
}

#[test]
fn default_options() {
    let options = SolverOptions::default();
    assert_eq!(options.seed, None);
    assert!(!options.disable_pure_literal);
    assert_eq!(options.max_decisions, None);
}

#[test]
fn draws_stay_within_bound_and_vary() {
    let settings = SearchSettings { max_id: 0, seed: 42, skip_pure_literals: false };
    let mut stream = DecisionStream::new(None);
    let mut values = Vec::new();
    for _ in 0..64 {
        let value = stream.draw(&settings, 999);
        assert!(value <= 999);
        values.push(value);
    }
    assert_eq!(stream.draws, 64);
    assert_eq!(stream.budget, None);
    let keys: Vec<u16> = (42..106).collect();
    assert_ne!(values, keys);
    values.sort();
    values.dedup();
    assert!(values.len() > 8);
    assert_eq!(DecisionStream::new(None).draw(&settings, 0), 0);
}

#[test]
fn draws_are_first_values_of_generators_seeded_along_the_stream() {
    let seed = u64::MAX - 2;
    let settings = SearchSettings { max_id: 0, seed, skip_pure_literals: false };
    let mut stream = DecisionStream::new(None);
    for step in 0..8u64 {
        let expected: u16 = StdRng::seed_from_u64(seed.wrapping_add(step)).gen_range(0..=5000);
        assert_eq!(stream.draw(&settings, 5000), expected);
    }
    assert_eq!(stream.draws, 8);
}

#[test]
fn draws_repeat_for_same_seed() {
    let settings = SearchSettings { max_id: 0, seed: 7, skip_pure_literals: false };
    let mut first = DecisionStream::new(Some(3));
    let mut second = DecisionStream::new(Some(3));
    for _ in 0..16 {
        assert_eq!(first.draw(&settings, 60000), second.draw(&settings, 60000));
    }
    assert_eq!(first.budget, Some(3));
}

#[test]
fn choose_variable_picks_open_variable() {
    let assignment = Assignment::from([(0, true), (1, false), (3, true)]);
    for seed in 0..20 {
        let settings = SearchSettings { max_id: 4, seed, skip_pure_literals: false };
        let mut stream = DecisionStream::new(None);
        let chosen = choose_variable(&settings, &assignment, &mut stream);
        assert!(chosen == Some(2) || chosen == Some(4));
        assert_eq!(stream.draws, 1);
    }
}

#[test]
fn choose_variable_samples_when_few_are_assigned() {
    let assignment = Assignment::from([(0, true)]);
    for seed in 0..20 {
        let settings = SearchSettings { max_id: 99, seed, skip_pure_literals: false };
        let mut stream = DecisionStream::new(None);
        let chosen = choose_variable(&settings, &assignment, &mut stream).unwrap();
        assert!(chosen >= 1 && chosen <= 99);
        assert!(stream.draws >= 1);
    }
}

#[test]
fn choose_variable_without_open_variable() {
    let assignment = Assignment::from([(0, true), (1, false)]);
    let settings = SearchSettings { max_id: 1, seed: 0, skip_pure_literals: false };
    let mut stream = DecisionStream::new(None);
    assert_eq!(choose_variable(&settings, &assignment, &mut stream), None);
    assert_eq!(stream.draws, 0);
}

#[test]
fn open_variables_in_rising_order() {
    let assignment = Assignment::from([(1, true), (4, false)]);
    assert_eq!(open_variables(5, &assignment), vec![0, 2, 3, 5]);
}

#[test]
fn fresh_seeds_differ() {
    let seeds: Vec<u64> = (0..8).map(|_| fresh_seed()).collect();
    assert!(seeds.iter().any(|s| *s != seeds[0]));
}
