//! Boolean expressions, assignments and normal forms.

pub mod expression;
pub mod laws;
pub mod normal;
