use dpll_sat::expression::expression::Expression;
use dpll_sat::expression::normal::{Clause, Literal, CNF, DNF};

fn v(id: u16) -> Expression {
    Expression::Variable(id)
}

fn conj(a: Expression, b: Expression) -> Expression {
    Expression::And(Box::new(a), Box::new(b))
}

fn disj(a: Expression, b: Expression) -> Expression {
    Expression::Or(Box::new(a), Box::new(b))
}

fn neg(a: Expression) -> Expression {
    Expression::Not(Box::new(a))
}

fn value_under(e: &Expression, bits: u32) -> bool {
    match e {
        Expression::Variable(id) => (bits >> *id) & 1 == 1,
        Expression::Constant(c) => *c,
        Expression::And(l, r) => value_under(l, bits) && value_under(r, bits),
        Expression::Or(l, r) => value_under(l, bits) || value_under(r, bits),
        Expression::Not(inner) => !value_under(inner, bits),
    }
}

fn literal_true(l: &Literal, bits: u32) -> bool {
    ((bits >> l.var_id) & 1 == 1) == l.value
}

fn cnf_true(cnf: &CNF, bits: u32) -> bool {
    cnf.clauses.iter().all(|c| c.literals.iter().any(|l| literal_true(l, bits)))
}

fn dnf_true(dnf: &DNF, bits: u32) -> bool {
    dnf.clauses.iter().any(|c| c.literals.iter().all(|l| literal_true(l, bits)))
}

fn negations_only_above_variables(e: &Expression) -> bool {
    match e {
        Expression::And(l, r) | Expression::Or(l, r) => {
            negations_only_above_variables(l) && negations_only_above_variables(r)
        }
        Expression::Not(inner) => matches!(**inner, Expression::Variable(_)),
        _ => true,
    }
}

fn is_literal_shape(e: &Expression) -> bool {
    match e {
        Expression::Variable(_) => true,
        Expression::Not(inner) => matches!(**inner, Expression::Variable(_)),
        _ => false,
    }
}

fn is_conjunction_shape(e: &Expression) -> bool {
    match e {
        Expression::And(l, r) => is_conjunction_shape(l) && is_conjunction_shape(r),
        _ => is_literal_shape(e),
    }
}

fn is_disjunction_shape(e: &Expression) -> bool {
    match e {
        Expression::Or(l, r) => is_disjunction_shape(l) && is_disjunction_shape(r),
        _ => is_literal_shape(e),
    }
}

fn is_dnf_shape(e: &Expression) -> bool {
    match e {
        Expression::Or(l, r) => is_dnf_shape(l) && is_dnf_shape(r),
        _ => is_conjunction_shape(e),
    }
}

fn is_cnf_shape(e: &Expression) -> bool {
    match e {
        Expression::And(l, r) => is_cnf_shape(l) && is_cnf_shape(r),
        _ => is_disjunction_shape(e),
    }
}

fn formulas() -> Vec<Expression> {
    vec![
        v(0),
        neg(v(1)),
        conj(v(0), neg(v(0))),
        disj(v(0), neg(v(0))),
        conj(conj(v(0), disj(v(1), v(2))), neg(v(3))),
        neg(conj(disj(v(0), v(1)), neg(v(2)))),
        disj(conj(v(0), v(1)), conj(neg(v(2)), disj(v(3), v(0)))),
        conj(disj(v(0), v(1)), conj(disj(neg(v(0)), v(2)), disj(v(3), neg(v(1))))),
        neg(disj(neg(conj(v(0), v(3))), conj(v(1), neg(v(2))))),
        conj(disj(conj(v(0), v(1)), v(2)), disj(v(3), conj(v(1), neg(v(0))))),
        disj(conj(v(0), Expression::Constant(true)), conj(v(1), Expression::Constant(false))),
    ]
}

fn constant_formulas() -> Vec<Expression> {
    vec![
        Expression::Constant(true),
        Expression::Constant(false),
        neg(Expression::Constant(false)),
        disj(v(0), Expression::Constant(true)),
        conj(v(1), Expression::Constant(false)),
        neg(disj(conj(v(0), v(1)), neg(Expression::Constant(false)))),
        conj(disj(v(2), neg(Expression::Constant(false))), Expression::Constant(true)),
    ]
}

fn sorted_clause_set(cnf: &CNF) -> Vec<Vec<(u16, bool)>> {
    let mut clauses: Vec<Vec<(u16, bool)>> = cnf
        .clauses
        .iter()
        .map(|c| {
            let mut literals: Vec<(u16, bool)> =
                c.literals.iter().map(|l| (l.var_id, l.value)).collect();
            literals.sort();
            literals
        })
        .collect();
    clauses.sort();
    clauses.dedup();
    clauses
}

#[test]
fn literal_new_and_not() {
    let l = Literal::new(4, true);
    assert_eq!(l.var_id, 4);
    assert_eq!(l.value, true);
    assert_eq!(l.id(), 4);
    assert_eq!(l.not(), Literal::new(4, false));
    assert_eq!(l.not().not(), l);
}

#[test]
fn literal_as_expression() {
    assert_eq!(Expression::from(Literal::new(2, true)), v(2));
    assert_eq!(Expression::from(Literal::new(2, false)), neg(v(2)));
}

#[test]
fn clause_new_collapses_duplicates() {
    let a = Literal::new(0, true);
    let b = Literal::new(1, false);
    let clause = Clause::new(vec![a, b, a, b, a]);
    assert_eq!(clause.literals, vec![a, b]);
}

#[test]
fn cnf_and_dnf_new_keep_clauses() {
    let cnf = CNF::new(vec![Clause::new(vec![Literal::new(0, true)]), Clause::new(vec![])]);
    assert_eq!(cnf.clauses.len(), 2);
    assert_eq!(cnf.clauses[0].literals, vec![Literal::new(0, true)]);
    assert!(cnf.clauses[1].literals.is_empty());
    let dnf = DNF::new(vec![Clause::new(vec![Literal::new(3, false)])]);
    assert_eq!(dnf.clauses.len(), 1);
    assert_eq!(dnf.clauses[0].literals, vec![Literal::new(3, false)]);
}

#[test]
fn demorgan_pushes_negation_inwards() {
    // -((v0 | v1) & -v2) => (-v0 & -v1) | v2
    let e = neg(conj(disj(v(0), v(1)), neg(v(2))));
    assert_eq!(e.recursive_demorgan(), disj(conj(neg(v(0)), neg(v(1))), v(2)));
}

#[test]
fn demorgan_drops_double_negation() {
    assert_eq!(neg(neg(v(0))).recursive_demorgan(), v(0));
    assert_eq!(neg(neg(neg(v(0)))).recursive_demorgan(), neg(v(0)));
}

#[test]
fn demorgan_turns_negated_constant_into_the_other_constant() {
    assert_eq!(neg(Expression::Constant(false)).recursive_demorgan(), Expression::Constant(true));
    assert_eq!(neg(Expression::Constant(true)).recursive_demorgan(), Expression::Constant(false));
    // -(v0 & 1) => -v0 | 0
    let e = neg(conj(v(0), Expression::Constant(true)));
    assert_eq!(e.recursive_demorgan(), disj(neg(v(0)), Expression::Constant(false)));
}

#[test]
fn distribute_right_disjunction() {
    // v0 & (v1 | v2) => (v0 & v1) | (v0 & v2)
    let e = conj(v(0), disj(v(1), v(2)));
    assert_eq!(e.distribute_and_over_or(), disj(conj(v(0), v(1)), conj(v(0), v(2))));
}

#[test]
fn distribute_left_disjunction() {
    // (v0 | v1) & v2 => (v0 & v2) | (v1 & v2)
    let e = conj(disj(v(0), v(1)), v(2));
    assert_eq!(e.distribute_and_over_or(), disj(conj(v(0), v(2)), conj(v(1), v(2))));
}

#[test]
fn distribute_reaches_nested_disjunction() {
    // (v0 & (v1 | v2)) & -v3
    let e = conj(conj(v(0), disj(v(1), v(2))), neg(v(3)));
    let expected = disj(
        conj(conj(v(0), v(1)), neg(v(3))),
        conj(conj(v(0), v(2)), neg(v(3))),
    );
    assert_eq!(e.distribute_and_over_or(), expected);
}

#[test]
fn distribute_both_sides() {
    // (v0 | v1) & (v2 | v3)
    let e = conj(disj(v(0), v(1)), disj(v(2), v(3)));
    let expected = disj(
        disj(conj(v(0), v(2)), conj(v(1), v(2))),
        disj(conj(v(0), v(3)), conj(v(1), v(3))),
    );
    assert_eq!(e.distribute_and_over_or(), expected);
}

#[test]
fn dnf_of_example() {
    // (v0 | v1) & v2 => (v0 & v2) | (v1 & v2)
    let e = conj(disj(v(0), v(1)), v(2));
    assert_eq!(e.to_dnf_expr(), disj(conj(v(0), v(2)), conj(v(1), v(2))));
}

#[test]
fn cnf_of_example() {
    // (v0 & v1) | v2 => (v0 | v2) & (v1 | v2)
    let e = disj(conj(v(0), v(1)), v(2));
    assert_eq!(e.to_cnf_expr(), conj(disj(v(0), v(2)), disj(v(1), v(2))));
}

#[test]
fn normal_forms_have_their_shape() {
    for e in formulas() {
        let dnf = e.clone().to_dnf_expr();
        let cnf = e.clone().to_cnf_expr();
        assert!(is_dnf_shape(&dnf), "{:?}", dnf);
        assert!(is_cnf_shape(&cnf), "{:?}", cnf);
    }
}

#[test]
fn normal_forms_are_in_negation_normal_form() {
    for e in formulas() {
        assert!(negations_only_above_variables(&e.clone().to_dnf_expr()));
        assert!(negations_only_above_variables(&e.clone().to_cnf_expr()));
        assert!(negations_only_above_variables(&e.clone().recursive_demorgan()));
    }
    for e in constant_formulas() {
        assert!(negations_only_above_variables(&e.clone().to_dnf_expr()));
        assert!(negations_only_above_variables(&e.clone().to_cnf_expr()));
        assert!(negations_only_above_variables(&e.clone().recursive_demorgan()));
    }
}

#[test]
fn cnf_expression_has_same_truth_table() {
    for e in formulas() {
        let cnf = e.clone().to_cnf_expr();
        for bits in 0..16u32 {
            assert_eq!(value_under(&cnf, bits), value_under(&e, bits), "{:?}", e);
        }
    }
}

#[test]
fn dnf_expression_has_same_truth_table() {
    for e in formulas() {
        let dnf = e.clone().to_dnf_expr();
        for bits in 0..16u32 {
            assert_eq!(value_under(&dnf, bits), value_under(&e, bits), "{:?}", e);
        }
    }
}

#[test]
fn cnf_clauses_have_same_truth_table() {
    for e in formulas() {
        let cnf = CNF::from(e.clone());
        for bits in 0..16u32 {
            assert_eq!(cnf_true(&cnf, bits), value_under(&e, bits), "{:?}", e);
        }
    }
}

#[test]
fn dnf_clauses_have_same_truth_table() {
    for e in formulas() {
        let dnf = DNF::from(e.clone());
        for bits in 0..16u32 {
            assert_eq!(dnf_true(&dnf, bits), value_under(&e, bits), "{:?}", e);
        }
    }
}

#[test]
fn cnf_is_idempotent() {
    for e in formulas() {
        let once = e.clone().to_cnf_expr();
        let twice = once.clone().to_cnf_expr();
        assert_eq!(twice, once);
        assert_eq!(
            sorted_clause_set(&CNF::from(once.clone())),
            sorted_clause_set(&CNF::from(e.clone()))
        );
    }
}

#[test]
fn dnf_is_idempotent() {
    for e in formulas() {
        let once = e.clone().to_dnf_expr();
        assert_eq!(once.clone().to_dnf_expr(), once);
    }
}

#[test]
fn normal_forms_of_expressions_that_fold_to_a_constant() {
    for e in constant_formulas() {
        let expected = Expression::Constant(value_under(&e, 0));
        assert_eq!(e.clone().to_cnf_expr(), expected);
        assert_eq!(e.clone().to_dnf_expr(), expected);
    }
}

#[test]
fn cnf_of_false_is_the_empty_clause_and_of_true_no_clause() {
    let cnf = CNF::from(Expression::Constant(false));
    assert_eq!(cnf.clauses.len(), 1);
    assert!(cnf.clauses[0].literals.is_empty());
    assert!(CNF::from(Expression::Constant(true)).clauses.is_empty());
    assert!(CNF::from(disj(v(0), Expression::Constant(true))).clauses.is_empty());
}

#[test]
fn dnf_of_true_is_the_empty_clause_and_of_false_no_clause() {
    let dnf = DNF::from(Expression::Constant(true));
    assert_eq!(dnf.clauses.len(), 1);
    assert!(dnf.clauses[0].literals.is_empty());
    assert!(DNF::from(Expression::Constant(false)).clauses.is_empty());
    assert!(DNF::from(conj(v(0), Expression::Constant(false))).clauses.is_empty());
}

#[test]
fn clauses_of_constant_formulas_have_same_truth_table() {
    for e in constant_formulas() {
        let cnf = CNF::from(e.clone());
        let dnf = DNF::from(e.clone());
        for bits in 0..16u32 {
            assert_eq!(cnf_true(&cnf, bits), value_under(&e, bits), "{:?}", e);
            assert_eq!(dnf_true(&dnf, bits), value_under(&e, bits), "{:?}", e);
        }
    }
}

#[test]
fn cnf_clauses_in_extraction_order() {
    // (v0 | v1) & (-v0 | v2): the right conjunct is drawn first
    let e = conj(disj(v(0), v(1)), disj(neg(v(0)), v(2)));
    let cnf = CNF::from(e);
    assert_eq!(cnf.clauses.len(), 2);
    assert_eq!(cnf.clauses[0].literals, vec![Literal::new(0, false), Literal::new(2, true)]);
    assert_eq!(cnf.clauses[1].literals, vec![Literal::new(0, true), Literal::new(1, true)]);
}

#[test]
fn dnf_clauses_in_extraction_order() {
    let e = disj(conj(v(0), v(1)), neg(v(2)));
    let dnf = DNF::from(e);
    assert_eq!(dnf.clauses.len(), 2);
    assert_eq!(dnf.clauses[0].literals, vec![Literal::new(2, false)]);
    assert_eq!(dnf.clauses[1].literals, vec![Literal::new(0, true), Literal::new(1, true)]);
}

#[test]
fn collect_literals_keeps_each_literal_once() {
    // (v0 | v1 | v1) & v2 & -v3
    let e = conj(conj(disj(disj(v(0), v(1)), v(1)), v(2)), neg(v(3)));
    assert_eq!(
        e.collect_literals(),
        vec![
            Literal::new(0, true),
            Literal::new(1, true),
            Literal::new(2, true),
            Literal::new(3, false)
        ]
    );
}

#[test]
fn collect_literals_skips_constants() {
    let e = disj(v(0), Expression::Constant(true));
    assert_eq!(e.collect_literals(), vec![Literal::new(0, true)]);
    assert!(Expression::Constant(false).collect_literals().is_empty());
}

#[test]
fn collect_literals_below_negation_keeps_polarity() {
    let e = neg(disj(v(0), neg(v(1))));
    assert_eq!(e.collect_literals(), vec![Literal::new(0, true), Literal::new(1, false)]);
}

#[test]
fn expression_from_cnf_folds_clauses() {
    let cnf = CNF::new(vec![
        Clause::new(vec![Literal::new(0, true), Literal::new(1, false)]),
        Clause::new(vec![Literal::new(2, true)]),
    ]);
    let expected = conj(
        conj(
            Expression::Constant(true),
            disj(disj(Expression::Constant(false), v(0)), neg(v(1))),
        ),
        disj(Expression::Constant(false), v(2)),
    );
    assert_eq!(Expression::from(cnf), expected);
}
