//! Organizes version-controlled worktrees ("trees") into named aggregates
//! ("gardens") and named sets ("groups"), driven by a declarative
//! configuration.  A query selects trees, gardens or groups; per-tree
//! variables and environments are evaluated lazily with memoization and
//! cycle detection; named commands are resolved per tree and run across the
//! selected set in breadth-first or depth-first order with a configurable
//! failure policy.

pub mod cmd;
pub mod config;
pub mod errors;
pub mod eval;
pub mod model;
pub mod query;
pub mod runtime;
pub mod syntax;
