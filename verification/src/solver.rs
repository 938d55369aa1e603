//! The DPLL search and the data it works on.

pub mod clauses;
pub mod decision;
pub mod dpll;
pub mod instance;
pub mod model;
pub mod propagation;
pub mod pure_literals;
pub mod trail;
