//! The activation core of a service supervisor: starts a set of
//! interdependent units in dependency order. A unit is activated once all the
//! units in its `after` set are started, at most once per run, and a failed
//! activation keeps everything that depends on it from starting.
//!
//! `unit` holds the unit description; `activation` the run state, the
//! scheduling steps that workers take, and the properties proved of a run.

pub mod activation;
pub mod unit;
