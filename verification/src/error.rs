//! Failure taxonomy of the accumulator.

use vstd::prelude::*;

verus! {

/// Every way an insertion or a decoded instruction can be rejected. Each
/// failure aborts the whole insertion before any persisted state is
/// committed.
#[derive(Clone, Copy, Debug, PartialEq, Eq, Structural)]
pub enum MtreeError {
    InvalidInstruction,
    ExpectedSignerAccount,
    InvalidInfoAccount,
    ExpectedWritableAccount,
    InvalidSystemProgram,
    InvalidNodeAccount,
    SubTreeFull,
    UninitializedSubTree,
}

impl MtreeError {
    /// The numeric code a host error wraps, assigned by declaration order.
    pub open spec fn spec_code(self) -> u32 {
        match self {
            MtreeError::InvalidInstruction => 0,
            MtreeError::ExpectedSignerAccount => 1,
            MtreeError::InvalidInfoAccount => 2,
            MtreeError::ExpectedWritableAccount => 3,
            MtreeError::InvalidSystemProgram => 4,
            MtreeError::InvalidNodeAccount => 5,
            MtreeError::SubTreeFull => 6,
            MtreeError::UninitializedSubTree => 7,
        }
    }

    /// The numeric code a host error wraps.
    pub fn code(&self) -> (r: u32)
        ensures
            r == self.spec_code(),
    {
        match self {
            MtreeError::InvalidInstruction => 0,
            MtreeError::ExpectedSignerAccount => 1,
            MtreeError::InvalidInfoAccount => 2,
            MtreeError::ExpectedWritableAccount => 3,
            MtreeError::InvalidSystemProgram => 4,
            MtreeError::InvalidNodeAccount => 5,
            MtreeError::SubTreeFull => 6,
            MtreeError::UninitializedSubTree => 7,
        }
    }

    /// The message a front end reports for this failure.
    pub fn message(&self) -> &'static str {
        match self {
            MtreeError::InvalidInstruction => "Invalid instruction",
            MtreeError::ExpectedSignerAccount => "Expected signer account",
            MtreeError::InvalidInfoAccount => "Invalid info account",
            MtreeError::ExpectedWritableAccount => "Expected writable account",
            MtreeError::InvalidSystemProgram => "Invalid system program",
            MtreeError::InvalidNodeAccount => "Invalid node account",
            MtreeError::SubTreeFull => "Invalid sub tree account",
            MtreeError::UninitializedSubTree => "Uninitialized sub tree account",
        }
    }
}

} // verus!
