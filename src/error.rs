//! The errors the operations report.
use vstd::prelude::*;

verus! {

/// Why an operation was refused.
#[derive(Clone, Copy, Debug, PartialEq, Eq, Structural)]
pub enum ApiError {
    /// The input breaks a rule, such as a user name already in use.
    InvalidArgument,
    /// The operation is not allowed in the target's current state.
    InvalidState,
    /// A referenced id does not exist.
    NotFound,
}

impl ApiError {
    /// The numeric code of the error.
    pub open spec fn code_spec(self) -> u8 {
        match self {
            ApiError::InvalidArgument => 1,
            ApiError::InvalidState => 2,
            ApiError::NotFound => 3,
        }
    }

    /// The numeric code of the error.
    pub fn code(&self) -> (r: u8)
        ensures
            r == self.code_spec(),
    {
        match self {
            ApiError::InvalidArgument => 1,
            ApiError::InvalidState => 2,
            ApiError::NotFound => 3,
        }
    }

    /// The symbolic name of the error.
    pub open spec fn reason_spec(self) -> Seq<char> {
        match self {
            ApiError::InvalidArgument => "ERR_INVALID_ARGUMENT"@,
            ApiError::InvalidState => "ERR_INVALID_STATE"@,
            ApiError::NotFound => "ERR_NOT_FOUND"@,
        }
    }

    /// The symbolic name of the error.
    pub fn reason(&self) -> (r: &'static str)
        ensures
            r@ == self.reason_spec(),
    {
        proof {
            reveal_strlit("ERR_INVALID_ARGUMENT");
            reveal_strlit("ERR_INVALID_STATE");
            reveal_strlit("ERR_NOT_FOUND");
        }
        match self {
            ApiError::InvalidArgument => "ERR_INVALID_ARGUMENT",
            ApiError::InvalidState => "ERR_INVALID_STATE",
            ApiError::NotFound => "ERR_NOT_FOUND",
        }
    }
}

} // verus!
