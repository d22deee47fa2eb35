//! Errors of simulation operations.

use vstd::prelude::*;

verus! {

/// Why a simulation operation failed.
#[derive(Debug, Clone, PartialEq, Eq)]
pub enum SimulationError {
    /// The simulation is over.
    SimulationShutdown,
    /// The operation does not fit the state of the simulation.
    InvalidState(String),
}

/// The result of a simulation operation.
pub type SimulationResult<T> = Result<T, SimulationError>;

/// Whether `e` says that the state is invalid, for the given reason.
pub open spec fn is_invalid_state(e: SimulationError, reason: Seq<char>) -> bool {
    e matches SimulationError::InvalidState(m) && m@ == reason
}

} // verus!
