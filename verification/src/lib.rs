//! A general problem solver: a means-ends-analysis planner over
//! STRIPS-style operators.
//!
//! Given the facts that hold at the start, the facts wanted, and the
//! operators at hand, [`problem_solver`] searches depth first for a sequence
//! of actions after which every wanted fact holds. What it returns is
//! stated over the model in [`search`]; [`laws`] holds what is proved of
//! that model for all inputs.

pub mod fact;
pub mod laws;
pub mod operator;
pub mod search;
pub mod solver;

pub use crate::fact::{duplicate_all, holds, holds_all, Fact};
pub use crate::operator::{apply_effects, Operator, Problem};
pub use crate::solver::{achieve, achieve_all, apply_operator, problem_solver};
