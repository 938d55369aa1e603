use dpll_sat::expression::expression::{Assignment, Expression};
use dpll_sat::parser::{InternError, ParsedExpression};
use dpll_sat::solver::dpll::solve_dpll;
use dpll_sat::solver::instance::{SATInstance, SolverResult};
use std::collections::HashMap;

fn named(name: &str) -> ParsedExpression {
    ParsedExpression::Variable(name.to_string())
}

fn both(a: ParsedExpression, b: ParsedExpression) -> ParsedExpression {
    ParsedExpression::And(Box::new(a), Box::new(b))
}

fn either(a: ParsedExpression, b: ParsedExpression) -> ParsedExpression {
    ParsedExpression::Or(Box::new(a), Box::new(b))
}

fn negated(a: ParsedExpression) -> ParsedExpression {
    ParsedExpression::Not(Box::new(a))
}

#[test]
fn interning_numbers_names_in_order_of_first_occurrence() {
    // (a & (b | c)) & -d
    let parsed = both(both(named("a"), either(named("b"), named("c"))), negated(named("d")));
    let mut table = HashMap::new();
    let expression = parsed.intern_to_expression(&mut table).unwrap();
    let expected = Expression::And(
        Box::new(Expression::And(
            Box::new(Expression::Variable(0)),
            Box::new(Expression::Or(
                Box::new(Expression::Variable(1)),
                Box::new(Expression::Variable(2)),
            )),
        )),
        Box::new(Expression::Not(Box::new(Expression::Variable(3)))),
    );
    assert_eq!(expression, expected);
    assert_eq!(table.len(), 4);
    assert_eq!(table[&0], "a");
    assert_eq!(table[&1], "b");
    assert_eq!(table[&2], "c");
    assert_eq!(table[&3], "d");
}

#[test]
fn interning_reuses_identifier_of_known_name() {
    let parsed = either(both(named("x"), named("y")), both(negated(named("x")), named("y")));
    let mut table = HashMap::new();
    let expression = parsed.intern_to_expression(&mut table).unwrap();
    let expected = Expression::Or(
        Box::new(Expression::And(
            Box::new(Expression::Variable(0)),
            Box::new(Expression::Variable(1)),
        )),
        Box::new(Expression::And(
            Box::new(Expression::Not(Box::new(Expression::Variable(0)))),
            Box::new(Expression::Variable(1)),
        )),
    );
    assert_eq!(expression, expected);
    assert_eq!(table.len(), 2);
}

#[test]
fn interning_into_a_filled_table() {
    let mut table = HashMap::new();
    table.insert(0u16, "p".to_string());
    table.insert(1u16, "q".to_string());
    let expression = both(named("q"), named("r")).intern_to_expression(&mut table).unwrap();
    let expected = Expression::And(
        Box::new(Expression::Variable(1)),
        Box::new(Expression::Variable(2)),
    );
    assert_eq!(expression, expected);
    assert_eq!(table.len(), 3);
    assert_eq!(table[&2], "r");
}

#[test]
fn interning_keeps_constants() {
    let mut table = HashMap::new();
    let expression = ParsedExpression::Constant(true).intern_to_expression(&mut table).unwrap();
    assert_eq!(expression, Expression::Constant(true));
    assert!(table.is_empty());
}

#[test]
fn interning_fails_when_identifiers_run_out() {
    let mut table = HashMap::new();
    for id in 0..=u16::MAX {
        table.insert(id, format!("n{}", id));
    }
    let known = named("n65535").intern_to_expression(&mut table);
    assert_eq!(known.unwrap(), Expression::Variable(65535));
    let fresh = named("one_more").intern_to_expression(&mut table);
    assert_eq!(fresh.unwrap_err(), InternError::TooManyVariables);
    assert_eq!(table.len(), 65536);
}

#[test]
fn instance_from_parsed_expression() {
    let parsed = both(both(named("a"), either(named("b"), named("c"))), negated(named("d")));
    let instance = SATInstance::from_parsed(parsed).unwrap();
    assert_eq!(instance.var_to_str.len(), 4);
    assert_eq!(instance.var_to_str[&3], "d");
    assert_eq!(instance.variable_named(&"c".to_string()), Some(2));
    assert_eq!(instance.variable_named(&"e".to_string()), None);
    assert_eq!(instance.expression.max_variable(), Some(3));
    match solve_dpll(instance, Assignment::default()) {
        Ok(SolverResult::Sat(Some(found))) => {
            assert_eq!(found.get(0), Some(true));
            assert_eq!(found.get(3), Some(false));
            assert!(found.get(1) == Some(true) || found.get(2) == Some(true));
        }
        other => panic!("unexpected {:?}", other),
    }
}

#[test]
fn instance_new_lists_names_by_identifier() {
    let mut names = HashMap::new();
    names.insert(1u16, "beta".to_string());
    names.insert(0u16, "alpha".to_string());
    let instance = SATInstance::new(Expression::Variable(1), names);
    assert_eq!(
        instance.str_to_var,
        vec![("alpha".to_string(), 0u16), ("beta".to_string(), 1u16)]
    );
    assert_eq!(instance.var_to_str.len(), 2);
    assert_eq!(instance.expression, Expression::Variable(1));
    assert_eq!(instance.variable_named(&"beta".to_string()), Some(1));
}

fn parse(text: &str) -> Option<ParsedExpression> {
    dpll_sat::parser::text::parse_expression(text.as_bytes())
}

fn shape(e: &ParsedExpression) -> String {
    match e {
        ParsedExpression::Variable(name) => name.clone(),
        ParsedExpression::Constant(value) => if *value { "1".to_string() } else { "0".to_string() },
        ParsedExpression::And(l, r) => format!("({}&{})", shape(l), shape(r)),
        ParsedExpression::Or(l, r) => format!("({}|{})", shape(l), shape(r)),
        ParsedExpression::Not(inner) => format!("-{}", shape(inner)),
    }
}

fn parsed_shape(text: &str) -> Option<String> {
    parse(text).map(|e| shape(&e))
}

#[test]
fn parse_names_and_constants() {
    assert_eq!(parsed_shape("a"), Some("a".to_string()));
    assert_eq!(parsed_shape("  some_name_2  "), Some("some_name_2".to_string()));
    assert_eq!(parsed_shape("_x"), Some("_x".to_string()));
    assert_eq!(parsed_shape("0"), Some("0".to_string()));
    assert_eq!(parsed_shape("\t1\n"), Some("1".to_string()));
}

#[test]
fn parse_conjunction_binds_tighter_than_disjunction() {
    assert_eq!(parsed_shape("a | b & c"), Some("(a|(b&c))".to_string()));
    assert_eq!(parsed_shape("a & b | c"), Some("((a&b)|c)".to_string()));
    assert_eq!(parsed_shape("a & b | c & d"), Some("((a&b)|(c&d))".to_string()));
}

#[test]
fn parse_operators_group_to_the_right() {
    assert_eq!(parsed_shape("a & b & c"), Some("(a&(b&c))".to_string()));
    assert_eq!(parsed_shape("a | b | c"), Some("(a|(b|c))".to_string()));
}

#[test]
fn parse_negation_binds_tightest() {
    assert_eq!(parsed_shape("-a & b"), Some("(-a&b)".to_string()));
    assert_eq!(parsed_shape("- - a"), Some("--a".to_string()));
    assert_eq!(parsed_shape("-(a | b)"), Some("-(a|b)".to_string()));
    assert_eq!(parsed_shape("a|-b"), Some("(a|-b)".to_string()));
}

#[test]
fn parse_parentheses_group() {
    assert_eq!(parsed_shape("(a & (b | c)) & (-d)"), Some("((a&(b|c))&-d)".to_string()));
    assert_eq!(parsed_shape("((a))"), Some("a".to_string()));
    assert_eq!(parsed_shape("( a | b ) & c"), Some("((a|b)&c)".to_string()));
}

#[test]
fn parse_rejects_malformed_text() {
    for text in ["", "   ", "a &", "& a", "(a", "a)", "a b", "a & | b", "2", "a + b", "-", "()", "a\u{e9}"] {
        assert!(parse(text).is_none(), "{:?}", text);
    }
}

#[test]
fn parse_then_intern_then_solve() {
    let parsed = parse("(p | q) & -p & (r | -q)").unwrap();
    let instance = SATInstance::from_parsed(parsed).unwrap();
    assert_eq!(instance.var_to_str[&0], "p");
    assert_eq!(instance.var_to_str[&1], "q");
    assert_eq!(instance.var_to_str[&2], "r");
    match solve_dpll(instance, Assignment::default()) {
        Ok(SolverResult::Sat(Some(found))) => {
            assert_eq!(found.get(0), Some(false));
            assert_eq!(found.get(1), Some(true));
            assert_eq!(found.get(2), Some(true));
        }
        other => panic!("unexpected {:?}", other),
    }
}

#[test]
fn render_writes_parentheses_around_pairs() {
    let e = both(both(named("a"), either(named("b"), named("c"))), negated(named("d")));
    assert_eq!(e.render(), Some(b"((a&(b|c))&-d)".to_vec()));
    assert_eq!(ParsedExpression::Constant(true).render(), Some(b"1".to_vec()));
    assert_eq!(negated(ParsedExpression::Constant(false)).render(), Some(b"-0".to_vec()));
}

#[test]
fn render_then_parse_gives_expression_back() {
    let expressions = vec![
        named("x"),
        negated(negated(named("_y1"))),
        both(named("a"), both(named("b"), named("c"))),
        both(both(named("a"), named("b")), named("c")),
        either(negated(both(named("p"), ParsedExpression::Constant(true))), named("q")),
        negated(either(named("long_name"), both(named("B2"), negated(named("c"))))),
    ];
    for e in expressions {
        let text = e.render().unwrap();
        let back = dpll_sat::parser::text::parse_expression(&text).unwrap();
        assert_eq!(shape(&back), shape(&e));
    }
}

#[test]
fn render_refuses_names_outside_the_text_form() {
    assert!(!named("").is_well_named());
    assert!(!named("1a").is_well_named());
    assert!(!named("a b").is_well_named());
    assert!(!named("na\u{ef}ve").is_well_named());
    assert!(named("a_1").is_well_named());
    assert_eq!(named("a-b").render(), None);
    assert_eq!(both(named("a"), named("")).render(), None);
}
