//! The in-memory engine's planner and run-length encoding of columns.
//!
//! [`planner`] turns logical plans into physical plans. [`outcomes`] and [`planner_laws`] state
//! what holds of planning as a whole, [`node_laws`] and [`source_laws`] what each node becomes,
//! [`error_laws`] where errors come from, [`plan_laws`] which nodes are planned and in which
//! order, and [`check_laws`] what the checks of [`checks`] promise. [`expression_laws`] and
//! [`graph_laws`] state what holds of expressions as trees, and [`function_laws`] what single
//! functions return. [`rle`] encodes columns by their runs; [`rle_laws`] and [`column_laws`]
//! state what holds of the encoding and of the columns that have one. [`outside`], [`column`],
//! [`logical`] and [`expression`] hold what the library knows of polars' own types and
//! functions.
pub mod check_laws;
pub mod checks;
pub mod column;
pub mod column_laws;
pub mod decisions;
pub mod error_laws;
pub mod expression;
pub mod expression_laws;
pub mod function_laws;
pub mod graph;
pub mod graph_laws;
pub mod logical;
pub mod node_laws;
pub mod order;
pub mod outcomes;
pub mod outside;
pub mod physical;
pub mod plan_laws;
pub mod planner;
pub mod planner_laws;
pub mod rle;
pub mod rle_laws;
pub mod source_laws;
pub mod sources;
pub mod state;
