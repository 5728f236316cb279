//! Error taxonomy and process exit codes.

use vstd::prelude::*;

verus! {

/// Exit status reported when every invocation succeeded.
pub const EX_OK: i32 = 0;

/// Exit status used when an invocation could not be run at all.
pub const EX_IOERR: i32 = 74;

/// Errors raised while resolving queries, evaluating variables and
/// orchestrating commands.
///
/// - `ParseError`: the query's glob pattern is malformed.
/// - `CyclicDefinition`: a variable's definition transitively refers to a
///   variable whose resolution is still in progress.
/// - `CyclicGroupMembership`: expanding a group revisited a group that is
///   already being expanded.
/// - `ExecutionFailure`: an exec expression's shell command exited with the
///   carried non-zero status, or could not be spawned.
/// - `NotFound`: a point lookup matched no entity, or a tree's path had not
///   been resolved yet.
#[derive(Clone, Debug, PartialEq, Eq, Structural)]
pub enum GardenError {
    ParseError,
    CyclicDefinition,
    CyclicGroupMembership,
    ExecutionFailure(i32),
    NotFound,
}

} // verus!
