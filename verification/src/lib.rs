//! A tabled engine for logical resolution: it decides whether a closed,
//! canonical goal is provable from a database of declarations, uniquely or
//! ambiguously, and with which substitution.
//!
//! The database is an implementation of [`database::RustIrDatabase`]: it
//! says which goals are coinductive, and it reduces a goal one step at a
//! time. The engine does the rest. A [`recursive::Solver`] solves goals
//! within a [`recursive::RecursiveContext`], which holds the
//! [`stack::Stack`] of the goals that are open, the
//! [`search_graph::SearchGraph`] of the goals that the running query has
//! met, and the [`cache::Cache`] of the answers that are final. A goal that
//! is met again while it is open closes a cycle: a coinductive cycle is a
//! proof, and any other cycle has the goal attempted until its answer is the
//! one that the cycle saw.
//!
//! What the engine does is stated twice: in [`semantics`], as functions of
//! the context, the goal and an oracle, to which the solver's functions are
//! held for every oracle that describes their database; and in the
//! contracts of the solver's functions themselves, as what holds of every
//! database. [`laws`] holds what follows.

pub mod cache;
pub mod context;
pub mod database;
pub mod fx_map;
pub mod goal;
pub mod laws;
pub mod recursive;
pub mod search_graph;
pub mod semantics;
pub mod solution;
pub mod stack;
