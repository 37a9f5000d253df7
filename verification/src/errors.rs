//! Error kinds of the library.

use vstd::prelude::*;

verus! {

/// Failure kinds surfaced by the core.
#[derive(Clone, Copy, Debug, PartialEq, Eq, Structural)]
pub enum CoreError {
    /// A frame or payload was malformed.
    Codec,
    /// A notebook, run or kernel id did not resolve.
    NotFound,
    /// A kernel login arrived for a handle that was not in its initial state.
    KernelNotInit,
    /// A globals update lifted a variable the previous snapshot lacked.
    IllFormedUpdate,
    /// A persisted notebook carried an unknown version string.
    VersionMismatch,
    /// An output arrived for a cell id that no output cell of the run has.
    CellNotFound,
    /// A run was to be created under an id the notebook already has.
    DuplicateRun,
    /// A kernel was to be registered under an id already registered.
    DuplicateKernel,
    /// A terminal output arrived for a run whose queue was empty.
    QueueEmpty,
}

/// The description of each failure kind.
pub open spec fn message_of(e: CoreError) -> Seq<char> {
    match e {
        CoreError::Codec => "Malformed frame or payload"@,
        CoreError::NotFound => "Not found"@,
        CoreError::KernelNotInit => "Kernel is not in init state"@,
        CoreError::IllFormedUpdate => "Ill-formed globals update"@,
        CoreError::VersionMismatch => "Invalid version"@,
        CoreError::CellNotFound => "Output cell not found"@,
        CoreError::DuplicateRun => "Run id already exists"@,
        CoreError::DuplicateKernel => "Kernel id already exists"@,
        CoreError::QueueEmpty => "No computation was pending"@,
    }
}

impl CoreError {
    /// A short description, for surfacing to a client.
    pub fn message(&self) -> (r: &'static str)
        ensures
            r@ == message_of(*self),
    {
        match self {
            CoreError::Codec => "Malformed frame or payload",
            CoreError::NotFound => "Not found",
            CoreError::KernelNotInit => "Kernel is not in init state",
            CoreError::IllFormedUpdate => "Ill-formed globals update",
            CoreError::VersionMismatch => "Invalid version",
            CoreError::CellNotFound => "Output cell not found",
            CoreError::DuplicateRun => "Run id already exists",
            CoreError::DuplicateKernel => "Kernel id already exists",
            CoreError::QueueEmpty => "No computation was pending",
        }
    }
}

} // verus!
