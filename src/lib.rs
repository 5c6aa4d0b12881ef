//! A means-ends planner in the style of the General Problem Solver.
//!
//! A world is a set of named facts ([`state::StateSet`]); goals are
//! predicates over it ([`condition::ConditionImpl`]); actions are
//! [`operation::Operation`]s with prerequisites and effects; the
//! [`solver::GeneralProblemSolver`] searches depth-first for a plan.

pub mod condition;
pub mod operation;
pub mod solver;
mod keyed;
pub mod state;
