//! The errors the library reports.
use vstd::prelude::*;

verus! {

#[derive(Debug)]
pub enum ContractError {
    /// An unknown record, session, index or reply.
    NotFound,
    MigrationExists { name: String },
    MigrationComplete { name: String },
    NotAuthorized { reason: String },
    ValidationError { reason: String },
    /// An address or name that another record already has.
    AlreadyRegistered,
    /// A counter would leave its range.
    Overflow,
    /// A division by zero.
    DivideByZero,
    /// A reply whose correlation id was never handed out.
    InvalidReply { reply_id: u64 },
    /// An upgrade failed under the abort policy.
    UpgradeFailed { error: String },
    /// Stored key bytes that are not UTF-8 text.
    InvalidUtf8,
}

} // verus!
