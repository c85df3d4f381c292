//! A fungible-token ledger actor core: arbitrary-precision unsigned
//! arithmetic, a balance/allowance ledger, a persistence codec, and the
//! load-mutate-save cycle against an injected block store.

use vstd::prelude::*;

pub mod codec;
pub mod state;
pub mod store;
pub mod types;
pub mod uint256;

verus! {

/// The failure kinds of the token core. Every operation either commits a
/// well-defined change or reports one of these without mutating anything.
#[derive(Clone, Copy, Debug, PartialEq, Eq, Structural)]
pub enum Error {
    /// Root pointer missing or unreadable; unrecoverable for the invocation.
    IllegalState,
    /// Encode or decode failure on the persisted state object.
    SerializationFailure,
    /// A balance or allowance check failed; no partial mutation committed.
    InsufficientBalance,
    /// An arbitrary-precision subtraction would have gone negative.
    Underflow,
    /// The dispatched method number is not part of the call table.
    UnhandledMethod,
}

} // verus!
