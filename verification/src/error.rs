//! The application's error type and the HTTP status each error maps to.
use vstd::prelude::*;

verus! {

/// Why a request body was rejected before anything was stored.
#[derive(Clone, Copy, Debug, PartialEq, Eq)]
pub enum ValidationFailure {
    /// The client name is empty once surrounding whitespace is removed.
    BlankName,
    /// The trimmed client name has more characters than allowed.
    NameTooLong,
    /// The client name holds a control character.
    NameHasControlCharacters,
    /// The document number does not have the required byte length.
    DocumentWrongLength,
    /// The document number holds something other than ASCII digits.
    DocumentNotDigits,
    /// The birth date lies after today.
    BirthDateInFuture,
    /// The birth date lies before the earliest accepted year.
    BirthDateTooEarly,
    /// The client has not reached the minimum age.
    ClientTooYoung,
    /// The amount is zero or negative.
    AmountNotPositive,
    /// The amount has more decimal places than allowed.
    AmountTooPrecise,
    /// The amount exceeds the per-transaction cap.
    AmountTooLarge,
}

/// Why start-up refused the data found in storage.
#[derive(Clone, Debug, PartialEq, Eq)]
pub enum BootstrapFailure {
    /// A `.tmp` file was left behind by an interrupted balance flush.
    OrphanTmpFile,
    /// The flush nonces do not form the sequence `1..=N`; `index` is the first
    /// position (counting from one) at which the sorted nonces disagree.
    BrokenNonceSequence { index: u32 },
    /// The stored last nonce is not an integer.
    InvalidLastNonce,
    /// Any other start-up failure, described in words.
    Other(String),
}

/// Central application error type.
#[derive(Clone, Debug, PartialEq, Eq)]
pub enum AppError {
    ClientNotFound,
    InsufficientFunds,
    DocumentInUse,
    DocumentInFlight,
    /// Storage failure, with the underlying message.
    Io(String),
    /// Serialization failure, with the underlying message.
    Serde(String),
    /// Start-up failure (corrupted storage, nonce mismatches, and so on).
    Bootstrap(BootstrapFailure),
    /// A request body failed validation.
    Validation(ValidationFailure),
}

/// The HTTP status code that answers a request refused with `e`.
pub open spec fn status_of(e: AppError) -> u16 {
    match e {
        AppError::ClientNotFound => 404,
        AppError::InsufficientFunds => 422,
        AppError::DocumentInUse => 409,
        AppError::DocumentInFlight => 409,
        AppError::Io(_) => 500,
        AppError::Serde(_) => 500,
        AppError::Bootstrap(_) => 500,
        AppError::Validation(_) => 400,
    }
}

impl AppError {
    /// The HTTP status code this error is answered with.
    pub fn status_code(&self) -> (r: u16)
        ensures
            r == status_of(*self),
    {
        match self {
            AppError::ClientNotFound => 404,
            AppError::InsufficientFunds => 422,
            AppError::DocumentInUse | AppError::DocumentInFlight => 409,
            AppError::Io(_) | AppError::Serde(_) | AppError::Bootstrap(_) => 500,
            AppError::Validation(_) => 400,
        }
    }
}

} // verus!
