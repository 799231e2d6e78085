use vstd::prelude::*;

verus! {

/// Failure taxonomy of the store. Every failure aborts the invocation as a
/// whole: no retries, no partial application, and (except for a successful
/// write) no account is mutated.
#[derive(Debug, Clone, Copy, PartialEq, Eq, Structural)]
pub enum AgentStoreError {
    /// The instruction bytes are not a complete, well-formed encoding.
    MalformedInstruction,
    /// Fewer accounts were supplied than the operation needs.
    MissingAccount,
    /// The target storage account is not owned by this program.
    IncorrectOwner,
    /// The funding account did not sign the invocation.
    MissingSignature,
    /// The encoded record exceeds the target account's allocated length.
    InsufficientStorageCapacity,
}

} // verus!
