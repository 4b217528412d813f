use vstd::prelude::*;

verus! {

/// Why a split or a join was refused.
#[derive(Debug, Clone, Copy, PartialEq, Eq, Structural)]
pub enum ShamirError {
    /// The threshold `k` is 1 or less.
    InvalidThreshold,
    /// Fewer shares were asked for than the threshold needs.
    InsufficientTotalShares,
    /// More than 255 shares were asked for; the field has no more nonzero indices.
    TooManyShares,
    /// The secret has no bytes.
    EmptySecret,
    /// A join was asked of an empty set of shares.
    NoPartsProvided,
    /// The shares handed to a join are not all of one length.
    InconsistentShareLength,
    /// Two shares handed to a join stand at the same point of the field.
    DuplicateShareIndex,
    /// A division by the zero element of the field.
    DivisionByZero,
}

impl ShamirError {
    /// The text of the message that describes this error.
    pub open spec fn message_text(self) -> Seq<char> {
        match self {
            ShamirError::InvalidThreshold => "Threshold k must be greater than 1"@,
            ShamirError::InsufficientTotalShares => "Total shares n must be greater than or equal to k"@,
            ShamirError::TooManyShares => "Total shares n cannot exceed 255"@,
            ShamirError::EmptySecret => "Secret cannot be empty"@,
            ShamirError::NoPartsProvided => "No parts provided"@,
            ShamirError::InconsistentShareLength => "Varying lengths of part values"@,
            ShamirError::DuplicateShareIndex => "Two parts share one index"@,
            ShamirError::DivisionByZero => "Division by zero in GF(256)"@,
        }
    }

    /// A message for the user that describes this error.
    pub fn message(&self) -> (text: String)
        ensures
            text@ == self.message_text(),
    {
        match self {
            ShamirError::InvalidThreshold => "Threshold k must be greater than 1".to_string(),
            ShamirError::InsufficientTotalShares => "Total shares n must be greater than or equal to k".to_string(),
            ShamirError::TooManyShares => "Total shares n cannot exceed 255".to_string(),
            ShamirError::EmptySecret => "Secret cannot be empty".to_string(),
            ShamirError::NoPartsProvided => "No parts provided".to_string(),
            ShamirError::InconsistentShareLength => "Varying lengths of part values".to_string(),
            ShamirError::DuplicateShareIndex => "Two parts share one index".to_string(),
            ShamirError::DivisionByZero => "Division by zero in GF(256)".to_string(),
        }
    }
}

} // verus!
