//! The error type of the kernels, its messages, and the length check.
use vstd::prelude::*;

use crate::text::{decimal, write_decimal};

verus! {

/// Why a kernel refused its inputs.
#[derive(Debug, Clone, Copy, PartialEq, Eq, Structural)]
pub enum KernelError {
    /// Two vectors that must be combined element by element differ in length.
    LengthMismatch { left: usize, right: usize },
    /// The operation is undefined because a vector has zero norm.
    ZeroVector,
    /// A search was asked over no candidates at all.
    EmptyCandidates,
    /// `k` lies outside `1..=len`.
    InvalidK { k: usize, len: usize },
}

/// The result type of every kernel.
pub type KernelResult<T> = Result<T, KernelError>;

impl KernelError {
    /// The human-readable description of the error.
    pub open spec fn message_spec(self) -> Seq<char> {
        match self {
            KernelError::LengthMismatch { left, right } => "vectors must have equal length: "@
                + decimal(left as nat) + " vs "@ + decimal(right as nat),
            KernelError::ZeroVector => "operation is undefined for zero vectors"@,
            KernelError::EmptyCandidates => "candidate set must not be empty"@,
            KernelError::InvalidK { k, len } => "k must be in 1..="@ + decimal(len as nat)
                + ", got "@ + decimal(k as nat),
        }
    }

    /// Renders the error as text (what `Display` shows for it).
    pub fn message(&self) -> (text: String)
        ensures
            text@ == self.message_spec(),
    {
        match self {
            KernelError::LengthMismatch { left, right } => {
                let mut text = String::from_str("vectors must have equal length: ");
                write_decimal(*left, &mut text);
                text.append(" vs ");
                write_decimal(*right, &mut text);
                text
            },
            KernelError::ZeroVector => String::from_str("operation is undefined for zero vectors"),
            KernelError::EmptyCandidates => String::from_str("candidate set must not be empty"),
            KernelError::InvalidK { k, len } => {
                let mut text = String::from_str("k must be in 1..=");
                write_decimal(*len, &mut text);
                text.append(", got ");
                write_decimal(*k, &mut text);
                text
            },
        }
    }
}

/// Checks that two vectors, given by their lengths, can be combined element by element.
pub fn validate_equal_len(left: usize, right: usize) -> (res: KernelResult<()>)
    ensures
        left == right ==> res == Ok::<(), KernelError>(()),
        left != right ==> res == Err::<(), KernelError>(KernelError::LengthMismatch { left, right }),
{
    if left != right {
        return Err(KernelError::LengthMismatch { left, right });
    }
    Ok(())
}

} // verus!
