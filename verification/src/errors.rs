//! The failure taxonomy of the provisioning core. Every operation that can
//! fail reports one of these tags; none is swallowed or retried here.

use vstd::prelude::*;

verus! {

/// A tagged failure of a registry or provisioning operation.
#[derive(Clone, Copy, Debug, PartialEq, Eq, Structural)]
pub enum ServiceError {
    /// A record with the caller-supplied id already exists; the store is
    /// left unchanged. Expected and recoverable.
    DuplicateIdentity(u64),
    /// The durable store could not be read, written or decoded.
    Storage,
    /// The rendered configuration failed to parse into the expected
    /// specification shape.
    Template,
    /// The container runtime failed to create or start the instance.
    Runtime,
}

} // verus!
