use vstd::prelude::*;

verus! {

/// The errors of the library.
#[derive(Debug, Clone, Copy, PartialEq, Eq)]
pub enum ASABRError {
    /// A contact manager refused the contact it was given.
    ContactInitError,
    /// A node or a contact names a node that the contact plan does not hold.
    NodeOutOfRange,
    /// The nodes of a contact plan are not numbered from 0 in order.
    NodeIdMismatch,
    /// The router does not route bundles with several destinations.
    MulticastUnsupportedError,
}

} // verus!
