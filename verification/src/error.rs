//! The reasons for which the registry refuses an operation.

use vstd::prelude::*;

verus! {

/// Why an operation was refused. A refused operation changes nothing.
#[derive(Clone, Copy, Debug, PartialEq, Eq, Structural)]
pub enum ContractError {
    /// A negative price, a duration of zero days, or one so long that the
    /// time of expiry cannot be represented.
    ValidationError,
    /// No key has the id, or no administrator is set.
    NotFound,
    /// The caller is not the principal that the operation asks for.
    Unauthorized,
    /// The key was issued as not transferable.
    NotTransferable,
    /// The key is frozen or no longer active.
    InactiveOrFrozen,
    /// The key's time of expiry has passed.
    Expired,
    /// The account of a principal involved is frozen.
    AccountFrozen,
    /// An administrator is already set.
    AlreadyInitialized,
    /// A record with the id is already stored.
    AlreadyExists,
    /// The key counter or a holder's index is full.
    CapacityExceeded,
}

} // verus!
