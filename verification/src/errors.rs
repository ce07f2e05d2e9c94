//! The reasons a credential operation can be rejected.

use vstd::prelude::*;

verus! {

/// Why a call was rejected. Every rejected call leaves the state exactly as
/// it was before the call.
#[derive(Clone, Copy, Debug, PartialEq, Eq, Structural)]
pub enum Error {
    /// A record with this payload's hash already exists.
    CredentialAlreadyExists,
    /// The payload exceeds the size limit.
    MetadataTooLarge,
    /// The caller already holds the maximum number of records.
    TooManyCredentials,
    /// No record carries the given id.
    CredentialNotFound,
    /// The caller did not create the record it tries to mutate.
    NotCredentialOwner,
}

} // verus!
