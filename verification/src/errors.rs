//! The error taxonomy shared by every core operation.

use vstd::prelude::*;

verus! {

/// Why a core operation failed.
///
/// * `Validation` — a user-entered field is malformed (a numeric field that
///   does not parse, an unrecognized account type, or a value beyond the
///   supported numeric range).
/// * `Constraint` — the operation would violate the
///   one-saving/one-checking-account-per-subbranch-per-client invariant, or
///   an unrecognized account type reached a persistence step.
/// * `NotFound` — a referenced subbranch, account or index row is absent.
/// * `Storage` — the underlying store refused a write (for the in-memory
///   state this arises only when a freshly drawn account identifier
///   collides with an existing row).
#[derive(Clone, Copy, Debug, PartialEq, Eq, Structural)]
pub enum BankError {
    Validation,
    Constraint,
    NotFound,
    Storage,
}

impl BankError {
    /// A fixed description of the error kind, for the presentation layer.
    pub fn describe(&self) -> (r: String)
        ensures
            *self is Validation ==> r@ == "validation error"@,
            *self is Constraint ==> r@ == "account constraint error"@,
            *self is NotFound ==> r@ == "not found"@,
            *self is Storage ==> r@ == "storage error"@,
    {
        match self {
            BankError::Validation => String::from_str("validation error"),
            BankError::Constraint => String::from_str("account constraint error"),
            BankError::NotFound => String::from_str("not found"),
            BankError::Storage => String::from_str("storage error"),
        }
    }
}

} // verus!
