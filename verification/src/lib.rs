//! A propositional satisfiability solver: Boolean expressions, their
//! conjunctive and disjunctive normal forms, and a DPLL search over clauses.

pub mod expression;
pub mod parser;
pub mod solver;
