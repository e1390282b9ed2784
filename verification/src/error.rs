//! Error taxonomy of the lifecycle engine.

use vstd::prelude::*;

verus! {

/// How an operation of the core can fail.
#[derive(Clone, Copy, Debug, PartialEq, Eq, Structural)]
pub enum CoreError {
    /// An unsafe or malformed client-supplied value was rejected.
    Validation,
    /// The identifier space was exhausted during allocation.
    Capacity,
    /// A durable write or read failed; reported by the caller that did it.
    StorageIo,
    /// The requested slug does not name a live paste.
    NotFound,
    /// Invalid startup configuration, fatal at startup.
    Config,
}

} // verus!
