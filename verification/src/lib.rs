//! Small building blocks with machine-checked contracts: a boolean formula
//! evaluator, a call-counting spy, and an arena-backed tree whose handles stay
//! well-defined when ancestors are removed.

pub mod formula;
pub mod spy;
pub mod tree;
