//! Errors reported to the host.

use vstd::prelude::*;

verus! {

/// The host's error codes that this library reports.
#[derive(Debug, Clone, Copy, PartialEq, Eq, Structural)]
pub enum ProgramError {
    InvalidArgument,
    InvalidInstructionData,
    InvalidAccountData,
    AccountDataTooSmall,
    NotEnoughAccountKeys,
    AccountAlreadyInitialized,
    UninitializedAccount,
    /// The storage trie has no room left for a new node.
    OutOfStorage,
}

} // verus!
