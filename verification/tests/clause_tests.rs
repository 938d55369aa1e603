use dpll_sat::expression::expression::Assignment;
use dpll_sat::expression::normal::{Clause, Literal, CNF};
use dpll_sat::solver::clauses::{DpllCNF, DpllClause};
use dpll_sat::solver::dpll::{disable_satisfied, eliminate_pure_literals, remove_unit_clauses};
use dpll_sat::solver::propagation::find_unit_literal;
use dpll_sat::solver::trail::{assign_literal, backtrack, retract_literal};
use dpll_sat::solver::pure_literals::{code_of, find_pure_literals, literal_of};

fn flags(cnf: &DpllCNF) -> Vec<bool> {
    cnf.clauses.iter().map(|c| c.is_disabled).collect()
}

fn database(clauses: Vec<Vec<Literal>>) -> DpllCNF {
    DpllCNF::new(clauses.into_iter().map(|c| DpllClause::new(c, false)).collect())
}

#[test]
fn test_disable() {
    let lit0 = Literal::new(0, false);
    let lit1 = Literal::new(1, true);
    let lit2 = Literal::new(2, true);
    let lit3 = Literal::new(3, false);

    let mut cnf = DpllCNF::new(vec![
        DpllClause::new(vec![lit0, lit1], false),
        DpllClause::new(vec![lit1, lit2], false),
        DpllClause::new(vec![lit3], false),
    ]);

    let mut assignment = Assignment::from([(1, true)]);

    cnf.disable(lit2);

    assignment.values.remove(&1);
    cnf.enable(lit2, &assignment);
}

#[test]
fn disable_marks_clauses_with_the_literal() {
    let lit0 = Literal::new(0, false);
    let lit1 = Literal::new(1, true);
    let lit2 = Literal::new(2, true);
    let lit3 = Literal::new(3, false);
    let mut cnf = database(vec![vec![lit0, lit1], vec![lit1, lit2], vec![lit3]]);
    cnf.disable(lit2);
    assert_eq!(flags(&cnf), vec![false, true, false]);
    cnf.disable(lit1);
    assert_eq!(flags(&cnf), vec![true, true, false]);
    cnf.disable(lit3.not());
    assert_eq!(flags(&cnf), vec![true, true, false]);
    assert_eq!(cnf.clauses[1].literals, vec![lit1, lit2]);
}

#[test]
fn enable_keeps_clause_with_other_satisfied_literal() {
    let lit1 = Literal::new(1, true);
    let lit2 = Literal::new(2, true);
    let mut cnf = database(vec![vec![lit1, lit2], vec![lit2]]);
    let assignment = Assignment::from([(1, true)]);
    cnf.disable(lit1);
    cnf.disable(lit2);
    assert_eq!(flags(&cnf), vec![true, true]);
    // v2 is taken back: the first clause is still satisfied by v1
    cnf.enable(lit2, &assignment);
    assert_eq!(flags(&cnf), vec![true, false]);
}

#[test]
fn enable_leaves_clauses_without_the_literal() {
    let lit1 = Literal::new(1, true);
    let lit2 = Literal::new(2, true);
    let mut cnf = DpllCNF::new(vec![
        DpllClause::new(vec![lit1], true),
        DpllClause::new(vec![lit2], true),
    ]);
    cnf.enable(lit2, &Assignment::default());
    assert_eq!(flags(&cnf), vec![true, false]);
}

#[test]
fn has_no_clauses_when_all_disabled() {
    let lit = Literal::new(0, true);
    let mut cnf = database(vec![vec![lit], vec![lit, Literal::new(1, false)]]);
    assert!(!cnf.has_no_clauses());
    cnf.disable(lit);
    assert!(cnf.has_no_clauses());
    assert!(DpllCNF::new(vec![]).has_no_clauses());
}

#[test]
fn has_empty_clause_counts_open_literals_of_enabled_clauses() {
    let cnf = database(vec![vec![Literal::new(0, true), Literal::new(1, true)]]);
    assert!(!cnf.has_empty_clause(&Assignment::default()));
    assert!(!cnf.has_empty_clause(&Assignment::from([(0, false)])));
    assert!(cnf.has_empty_clause(&Assignment::from([(0, false), (1, false)])));
    let disabled = DpllCNF::new(vec![DpllClause::new(vec![], true)]);
    assert!(!disabled.has_empty_clause(&Assignment::default()));
    let empty = database(vec![vec![]]);
    assert!(empty.has_empty_clause(&Assignment::default()));
    // an enabled clause with a true literal is not empty
    let satisfied = database(vec![vec![Literal::new(0, true)]]);
    assert!(!satisfied.has_empty_clause(&Assignment::from([(0, true)])));
    assert!(satisfied.has_empty_clause(&Assignment::from([(0, false)])));
}

#[test]
fn enable_looks_at_other_literals_only() {
    let lit1 = Literal::new(1, true);
    let lit2 = Literal::new(2, true);
    let mut cnf = DpllCNF::new(vec![
        DpllClause::new(vec![lit1, lit2], true),
        DpllClause::new(vec![lit2], true),
        DpllClause::new(vec![lit2, lit1.not()], true),
    ]);
    // v2 itself does not count; the negation of v1 in the third clause does
    cnf.enable(lit2, &Assignment::from([(2, true), (1, false)]));
    assert_eq!(flags(&cnf), vec![false, false, true]);
}

#[test]
fn is_satisfied_beside_skips_the_given_literal() {
    let clause = DpllClause::new(vec![Literal::new(0, true), Literal::new(1, false)], true);
    let assignment = Assignment::from([(0, true), (1, true)]);
    assert!(clause.is_satisfied(&assignment));
    assert!(!clause.is_satisfied_beside(&assignment, Literal::new(0, true)));
    assert!(clause.is_satisfied_beside(&assignment, Literal::new(1, false)));
}

#[test]
fn literal_count_counts_unassigned() {
    let clause = DpllClause::new(
        vec![Literal::new(0, true), Literal::new(1, false), Literal::new(2, true)],
        false,
    );
    assert_eq!(clause.literal_count(&Assignment::default()), 3);
    assert_eq!(clause.literal_count(&Assignment::from([(1, true)])), 2);
    assert_eq!(clause.literal_count(&Assignment::from([(0, true), (1, true), (2, false)])), 0);
}

#[test]
fn is_satisfied_needs_matching_polarity() {
    let clause = DpllClause::new(vec![Literal::new(0, true), Literal::new(1, false)], false);
    assert!(!clause.is_satisfied(&Assignment::default()));
    assert!(!clause.is_satisfied(&Assignment::from([(0, false), (1, true)])));
    assert!(clause.is_satisfied(&Assignment::from([(1, false)])));
}

#[test]
fn clause_database_from_cnf_is_enabled() {
    let cnf = CNF::new(vec![
        Clause::new(vec![Literal::new(0, true)]),
        Clause::new(vec![Literal::new(1, false), Literal::new(0, true)]),
    ]);
    let db = DpllCNF::from(cnf);
    assert_eq!(flags(&db), vec![false, false]);
    assert_eq!(db.clauses[1].literals, vec![Literal::new(1, false), Literal::new(0, true)]);
    let single = DpllClause::from(Clause::new(vec![Literal::new(5, true)]));
    assert!(!single.is_disabled);
    assert_eq!(single.literals, vec![Literal::new(5, true)]);
}

#[test]
fn disable_satisfied_follows_initial_assignment() {
    let mut cnf = database(vec![
        vec![Literal::new(0, true), Literal::new(1, true)],
        vec![Literal::new(0, false)],
        vec![Literal::new(2, false), Literal::new(1, false)],
    ]);
    disable_satisfied(&mut cnf, &Assignment::from([(0, true), (2, false)]));
    assert_eq!(flags(&cnf), vec![true, false, true]);
}

#[test]
fn assign_and_retract_restore_flags() {
    let mut cnf = database(vec![
        vec![Literal::new(0, true), Literal::new(1, true)],
        vec![Literal::new(1, true)],
        vec![Literal::new(0, false)],
    ]);
    let mut assignment = Assignment::default();
    assign_literal(&mut cnf, &mut assignment, Literal::new(0, true));
    assert_eq!(flags(&cnf), vec![true, false, false]);
    assign_literal(&mut cnf, &mut assignment, Literal::new(1, true));
    assert_eq!(flags(&cnf), vec![true, true, false]);
    retract_literal(&mut cnf, &mut assignment, Literal::new(1, true));
    assert_eq!(flags(&cnf), vec![true, false, false]);
    assert_eq!(assignment.get(1), None);
    retract_literal(&mut cnf, &mut assignment, Literal::new(0, true));
    assert_eq!(flags(&cnf), vec![false, false, false]);
    assert_eq!(assignment.len(), 0);
}

#[test]
fn find_unit_literal_picks_first_unit_clause() {
    let cnf = database(vec![
        vec![Literal::new(0, true), Literal::new(1, true)],
        vec![Literal::new(2, false), Literal::new(3, true)],
        vec![Literal::new(1, false), Literal::new(0, true)],
    ]);
    assert_eq!(find_unit_literal(&cnf, &Assignment::default()), None);
    let assignment = Assignment::from([(2, true), (1, true)]);
    let mut seeded = database(vec![
        vec![Literal::new(0, true), Literal::new(1, true)],
        vec![Literal::new(2, false), Literal::new(3, true)],
        vec![Literal::new(1, false), Literal::new(0, true)],
    ]);
    disable_satisfied(&mut seeded, &assignment);
    assert_eq!(find_unit_literal(&seeded, &assignment), Some(Literal::new(3, true)));
}

#[test]
fn unit_propagation_follows_chain() {
    // v0, -v0 | v1, -v1 | v2
    let mut cnf = database(vec![
        vec![Literal::new(0, true)],
        vec![Literal::new(0, false), Literal::new(1, true)],
        vec![Literal::new(1, false), Literal::new(2, true)],
    ]);
    let mut assignment = Assignment::default();
    let mut trail = Vec::new();
    remove_unit_clauses(&mut cnf, &mut assignment, &mut trail);
    assert_eq!(trail, vec![Literal::new(0, true), Literal::new(1, true), Literal::new(2, true)]);
    assert_eq!(assignment.get(0), Some(true));
    assert_eq!(assignment.get(1), Some(true));
    assert_eq!(assignment.get(2), Some(true));
    assert!(cnf.has_no_clauses());
    backtrack(&mut cnf, &mut assignment, trail);
    assert_eq!(assignment.len(), 0);
    assert_eq!(flags(&cnf), vec![false, false, false]);
}

#[test]
fn unit_propagation_leaves_conflict_enabled() {
    // v0 and -v0
    let mut cnf = database(vec![vec![Literal::new(0, true)], vec![Literal::new(0, false)]]);
    let mut assignment = Assignment::default();
    let mut trail = Vec::new();
    remove_unit_clauses(&mut cnf, &mut assignment, &mut trail);
    assert_eq!(trail, vec![Literal::new(0, true)]);
    assert_eq!(flags(&cnf), vec![true, false]);
    assert!(cnf.has_empty_clause(&assignment));
}

#[test]
fn pure_literals_are_made_true() {
    // v0 | v1, -v0 | v1, v2 | -v3, -v2 | -v3: v1 and -v3 are pure
    let mut cnf = database(vec![
        vec![Literal::new(0, true), Literal::new(1, true)],
        vec![Literal::new(0, false), Literal::new(1, true)],
        vec![Literal::new(2, true), Literal::new(3, false)],
        vec![Literal::new(2, false), Literal::new(3, false)],
    ]);
    let mut assignment = Assignment::default();
    let mut trail = vec![Literal::new(8, true)];
    eliminate_pure_literals(&mut cnf, &mut assignment, &mut trail);
    assert_eq!(trail[0], Literal::new(8, true));
    let mut added: Vec<(u16, bool)> = trail[1..].iter().map(|l| (l.var_id, l.value)).collect();
    added.sort();
    assert_eq!(added, vec![(1, true), (3, false)]);
    assert_eq!(assignment.get(0), None);
    assert_eq!(assignment.get(1), Some(true));
    assert_eq!(assignment.get(2), None);
    assert_eq!(assignment.get(3), Some(false));
    assert!(cnf.has_no_clauses());
}

#[test]
fn pure_literal_scan_ignores_assigned_and_disabled() {
    // v0 is assigned; the clause with -v1 is satisfied by v0, so v1 is pure
    let mut cnf = database(vec![
        vec![Literal::new(0, true), Literal::new(1, false)],
        vec![Literal::new(0, false), Literal::new(1, true), Literal::new(2, true)],
        vec![Literal::new(2, false), Literal::new(1, true)],
    ]);
    let mut assignment = Assignment::from([(0, true)]);
    disable_satisfied(&mut cnf, &assignment);
    let mut trail = Vec::new();
    eliminate_pure_literals(&mut cnf, &mut assignment, &mut trail);
    assert_eq!(trail, vec![Literal::new(1, true)]);
    assert_eq!(assignment.get(0), Some(true));
    assert_eq!(assignment.get(2), None);
}

#[test]
fn literal_codes_go_both_ways() {
    assert_eq!(code_of(Literal::new(0, false)), 0);
    assert_eq!(code_of(Literal::new(0, true)), 1);
    assert_eq!(code_of(Literal::new(7, false)), 14);
    assert_eq!(code_of(Literal::new(65535, true)), 131071);
    for literal in [Literal::new(0, true), Literal::new(3, false), Literal::new(65535, true)] {
        assert_eq!(literal_of(code_of(literal)), literal);
    }
}

#[test]
fn find_pure_literals_by_their_codes() {
    // v0 | v1, -v0 | v1, v2 | -v3, -v2 | -v3: v1 and -v3 are pure
    let cnf = database(vec![
        vec![Literal::new(0, true), Literal::new(1, true)],
        vec![Literal::new(0, false), Literal::new(1, true)],
        vec![Literal::new(2, true), Literal::new(3, false)],
        vec![Literal::new(2, false), Literal::new(3, false)],
    ]);
    let mut codes: Vec<u32> = find_pure_literals(&cnf, &Assignment::default()).into_iter().collect();
    codes.sort();
    assert_eq!(codes, vec![3, 6]);
}

#[test]
fn unit_propagation_appends_to_the_trail_in_order() {
    // v0, -v0 | v1, -v1 | v2 with v0 true from the start
    let mut cnf = database(vec![
        vec![Literal::new(0, true)],
        vec![Literal::new(0, false), Literal::new(1, true)],
        vec![Literal::new(1, false), Literal::new(2, true)],
    ]);
    let mut assignment = Assignment::from([(0, true)]);
    disable_satisfied(&mut cnf, &assignment);
    assert_eq!(flags(&cnf), vec![true, false, false]);
    let mut trail = vec![Literal::new(9, false)];
    remove_unit_clauses(&mut cnf, &mut assignment, &mut trail);
    assert_eq!(
        trail,
        vec![Literal::new(9, false), Literal::new(1, true), Literal::new(2, true)]
    );
    assert_eq!(assignment.len(), 3);
    assert_eq!(assignment.get(1), Some(true));
    assert_eq!(assignment.get(2), Some(true));
    assert_eq!(flags(&cnf), vec![true, true, true]);
}

#[test]
fn enabled_clauses_lists_indices() {
    let lit = Literal::new(0, true);
    let mut cnf = database(vec![vec![lit], vec![Literal::new(1, true)], vec![lit.not()]]);
    assert_eq!(cnf.enabled_clauses(), vec![0, 1, 2]);
    cnf.disable(lit);
    assert_eq!(cnf.enabled_clauses(), vec![1, 2]);
    cnf.disable(Literal::new(1, true));
    cnf.disable(lit.not());
    assert!(cnf.enabled_clauses().is_empty());
}
