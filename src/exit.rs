//! How an EVM frame ends.

use vstd::prelude::*;

verus! {

#[derive(Debug, Clone, Copy, PartialEq, Eq, Structural)]
pub enum ExitSucceed {
    Stopped,
    Returned,
    Suicided,
}

#[derive(Debug, Clone, Copy, PartialEq, Eq, Structural)]
pub enum ExitError {
    StackUnderflow,
    StackOverflow,
    InvalidJump,
    InvalidRange,
    DesignatedInvalid,
    CallTooDeep,
    CreateCollision,
    CreateContractLimit,
    OutOfOffset,
    OutOfGas,
    OutOfFund,
    PCUnderflow,
    CreateEmpty,
}

#[derive(Debug, Clone, Copy, PartialEq, Eq, Structural)]
pub enum ExitRevert {
    Reverted,
}

#[derive(Debug, Clone, Copy, PartialEq, Eq, Structural)]
pub enum ExitFatal {
    NotSupported,
    UnhandledInterrupt,
    CallErrorAsFatal(ExitError),
}

/// The end of a frame: success, an error, a revert, or a fatal fault.
#[derive(Debug, Clone, Copy, PartialEq, Eq, Structural)]
pub enum ExitReason {
    Succeed(ExitSucceed),
    Error(ExitError),
    Revert(ExitRevert),
    Fatal(ExitFatal),
}

impl ExitReason {
    pub fn is_succeed(&self) -> (r: bool)
        ensures
            r == (*self is Succeed),
    {
        match self {
            ExitReason::Succeed(_) => true,
            _ => false,
        }
    }
}

} // verus!
