use dpll_sat::expression::expression::{Assignment, Expression};
use dpll_sat::solver::dpll::solve;
use dpll_sat::solver::instance::{SATInstance, SolverOptions, SolverResult};
use std::collections::HashMap;

fn cell(row: usize, column: usize, digit: usize) -> u16 {
    (81 * row + 9 * column + digit) as u16
}

fn at_least_one(variables: &[u16]) -> Expression {
    balanced(variables.iter().map(|v| Expression::Variable(*v)).collect(), false)
}

fn not_both(a: u16, b: u16) -> Expression {
    Expression::Or(
        Box::new(Expression::Not(Box::new(Expression::Variable(a)))),
        Box::new(Expression::Not(Box::new(Expression::Variable(b)))),
    )
}

fn balanced(mut parts: Vec<Expression>, conjunction: bool) -> Expression {
    assert!(!parts.is_empty());
    while parts.len() > 1 {
        let mut next = Vec::new();
        let mut rest = parts.into_iter();
        while let Some(a) = rest.next() {
            match rest.next() {
                Some(b) => next.push(if conjunction {
                    Expression::And(Box::new(a), Box::new(b))
                } else {
                    Expression::Or(Box::new(a), Box::new(b))
                }),
                None => next.push(a),
            }
        }
        parts = next;
    }
    parts.pop().unwrap()
}

fn groups() -> Vec<Vec<(usize, usize)>> {
    let mut groups = Vec::new();
    for i in 0..9 {
        groups.push((0..9).map(|j| (i, j)).collect());
        groups.push((0..9).map(|j| (j, i)).collect());
        groups.push((0..9).map(|j| (3 * (i / 3) + j / 3, 3 * (i % 3) + j % 3)).collect());
    }
    groups
}

fn sudoku_rules() -> Expression {
    let mut clauses = Vec::new();
    for row in 0..9 {
        for column in 0..9 {
            let digits: Vec<u16> = (0..9).map(|d| cell(row, column, d)).collect();
            clauses.push(at_least_one(&digits));
            for a in 0..9 {
                for b in (a + 1)..9 {
                    clauses.push(not_both(digits[a], digits[b]));
                }
            }
        }
    }
    for group in groups() {
        for digit in 0..9 {
            let places: Vec<u16> = group.iter().map(|(r, c)| cell(*r, *c, digit)).collect();
            clauses.push(at_least_one(&places));
            for a in 0..9 {
                for b in (a + 1)..9 {
                    clauses.push(not_both(places[a], places[b]));
                }
            }
        }
    }
    balanced(clauses, true)
}

fn decode(assignment: &Assignment) -> String {
    let mut grid = String::new();
    for row in 0..9 {
        for column in 0..9 {
            let digits: Vec<usize> = (0..9)
                .filter(|d| assignment.get(cell(row, column, *d)) == Some(true))
                .collect();
            assert_eq!(digits.len(), 1);
            grid.push(char::from_digit(digits[0] as u32 + 1, 10).unwrap());
        }
    }
    grid
}

#[test]
fn sudoku_with_unique_solution() {
    let puzzle = "530070000600195000098000060800060003400803001700020006060000280000419005000080079";
    let solution = "534678912672195348198342567859761423426853791713924856961537284287419635345286179";
    let mut names = HashMap::new();
    for id in 0..729u16 {
        names.insert(id, format!("x{}", id));
    }
    let mut clues = HashMap::new();
    for (place, character) in puzzle.chars().enumerate() {
        let digit = character.to_digit(10).unwrap() as usize;
        if digit > 0 {
            clues.insert(cell(place / 9, place % 9, digit - 1), true);
        }
    }
    let instance = SATInstance::new(sudoku_rules(), names);
    let options = SolverOptions { seed: Some(2024), disable_pure_literal: false, max_decisions: None };
    match solve(instance, Assignment::new(clues), options) {
        Ok(SolverResult::Sat(Some(found))) => assert_eq!(decode(&found), solution),
        other => panic!("unexpected {:?}", other),
    }
}
