//! Errors of the routing core.

use vstd::prelude::*;

verus! {

/// Why the routing table refused an operation.
#[derive(Clone, Copy, PartialEq, Eq, Structural, Debug)]
pub enum RoutingError {
    /// The identifier given is the local node's own. A node never routes to
    /// itself, so its own identifier has no bucket.
    InvalidIdentifier,
}

} // verus!
