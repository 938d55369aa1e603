use dpll_sat::expression::expression::Assignment;
use dpll_sat::expression::normal::Literal;
use dpll_sat::solver::clauses::{DpllCNF, DpllClause};
use dpll_sat::solver::dpll::{disable_satisfied, solve_dpll_recursive};
use dpll_sat::solver::model::{DecisionStream, DpllSolverResult, SearchSettings};

fn pos(id: u16) -> Literal {
    Literal::new(id, true)
}

fn neg_lit(id: u16) -> Literal {
    Literal::new(id, false)
}

fn clause_base(clauses: Vec<Vec<Literal>>) -> DpllCNF {
    DpllCNF::new(clauses.into_iter().map(|c| DpllClause::new(c, false)).collect())
}

fn snapshot(cnf: &DpllCNF) -> Vec<(Vec<Literal>, bool)> {
    cnf.clauses.iter().map(|c| (c.literals.clone(), c.is_disabled)).collect()
}

fn unsatisfiable_clauses() -> Vec<Vec<Literal>> {
    // v3 is satisfied from the start; the rest forces a contradiction
    vec![
        vec![pos(0), pos(1)],
        vec![neg_lit(0), pos(1)],
        vec![pos(0), neg_lit(1), pos(2)],
        vec![neg_lit(0), neg_lit(1)],
        vec![neg_lit(2), neg_lit(1)],
        vec![pos(3), pos(0)],
    ]
}

#[test]
fn unsat_search_restores_clauses_and_assignment() {
    for seed in 0..10 {
        for skip in [false, true] {
            let mut cnf = clause_base(unsatisfiable_clauses());
            let mut assignment = Assignment::from([(3, true)]);
            disable_satisfied(&mut cnf, &assignment);
            let before = snapshot(&cnf);
            let values_before = assignment.values.clone();
            let settings = SearchSettings { max_id: 3, seed, skip_pure_literals: skip };
            let mut stream = DecisionStream::new(None);
            let verdict = solve_dpll_recursive(&mut cnf, &mut assignment, &settings, &mut stream);
            assert_eq!(verdict, DpllSolverResult::Unsat);
            assert_eq!(snapshot(&cnf), before);
            assert_eq!(assignment.values, values_before);
        }
    }
}

#[test]
fn unknown_search_restores_clauses_and_assignment() {
    let mut cnf = clause_base(unsatisfiable_clauses());
    let mut assignment = Assignment::default();
    let before = snapshot(&cnf);
    let settings = SearchSettings { max_id: 3, seed: 11, skip_pure_literals: true };
    let mut stream = DecisionStream::new(Some(0));
    let verdict = solve_dpll_recursive(&mut cnf, &mut assignment, &settings, &mut stream);
    assert_eq!(verdict, DpllSolverResult::Unknown);
    assert_eq!(snapshot(&cnf), before);
    assert_eq!(assignment.len(), 0);
    assert_eq!(stream.budget, Some(0));
    assert_eq!(stream.draws, 0);
}

#[test]
fn sat_search_leaves_all_clauses_disabled() {
    let mut cnf = clause_base(vec![
        vec![pos(0), pos(1)],
        vec![neg_lit(0), neg_lit(1)],
        vec![pos(1), pos(2)],
    ]);
    let mut assignment = Assignment::default();
    let settings = SearchSettings { max_id: 2, seed: 4, skip_pure_literals: false };
    let mut stream = DecisionStream::new(Some(5));
    let verdict = solve_dpll_recursive(&mut cnf, &mut assignment, &settings, &mut stream);
    assert_eq!(verdict, DpllSolverResult::Sat);
    assert!(cnf.has_no_clauses());
    for clause in &cnf.clauses {
        assert!(clause.is_satisfied(&assignment));
    }
    assert!(stream.budget.unwrap() <= 5);
}

#[test]
fn search_without_clauses_is_sat_at_once() {
    let mut cnf = DpllCNF::new(vec![]);
    let mut assignment = Assignment::from([(7, false)]);
    let settings = SearchSettings { max_id: 0, seed: 0, skip_pure_literals: false };
    let mut stream = DecisionStream::new(Some(0));
    let verdict = solve_dpll_recursive(&mut cnf, &mut assignment, &settings, &mut stream);
    assert_eq!(verdict, DpllSolverResult::Sat);
    assert_eq!(assignment.len(), 1);
    assert_eq!(assignment.get(7), Some(false));
}

#[test]
fn search_with_empty_clause_is_unsat_at_once() {
    let mut cnf = clause_base(vec![vec![pos(0), pos(1)], vec![]]);
    let mut assignment = Assignment::default();
    let settings = SearchSettings { max_id: 1, seed: 0, skip_pure_literals: true };
    let mut stream = DecisionStream::new(Some(0));
    let verdict = solve_dpll_recursive(&mut cnf, &mut assignment, &settings, &mut stream);
    assert_eq!(verdict, DpllSolverResult::Unsat);
    assert_eq!(assignment.len(), 0);
    assert_eq!(stream.draws, 0);
}
