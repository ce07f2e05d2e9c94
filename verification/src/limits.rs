//! The two storage bounds, enforced at the service boundary.

use vstd::prelude::*;

verus! {

/// Largest payload, in bytes, that a record may carry.
pub const MAX_METADATA_BYTES: usize = 4096;

/// Largest number of records a single owner may hold.
pub const MAX_OWNED_CREDENTIALS: usize = 500;

} // verus!
