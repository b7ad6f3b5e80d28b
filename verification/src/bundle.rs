use vstd::prelude::*;
use crate::types::{Date, NodeID, Priority, Volume};

verus! {

/// A unit of data to be carried from a source node to one or more destinations.
#[derive(Clone, Debug)]
pub struct Bundle {
    /// The node that emitted the bundle.
    pub source: NodeID,
    /// The nodes the bundle must reach.
    pub destinations: Vec<NodeID>,
    /// The priority of the bundle; a greater value is a higher priority.
    pub priority: Priority,
    /// The size of the bundle.
    pub size: Volume,
    /// The date after which the bundle is no longer worth delivering.
    pub expiration: Date,
}

/// The two bundles agree on every field.
pub open spec fn same_bundle(a: Bundle, b: Bundle) -> bool {
    &&& a.source == b.source
    &&& a.destinations@ == b.destinations@
    &&& a.priority == b.priority
    &&& a.size == b.size
    &&& a.expiration == b.expiration
}

impl Bundle {
    /// A copy of the bundle.
    pub fn duplicate(&self) -> (r: Bundle)
        ensures
            same_bundle(r, *self),
    {
        let mut destinations: Vec<NodeID> = Vec::new();
        let mut i: usize = 0;
        while i < self.destinations.len()
            invariant
                0 <= i <= self.destinations@.len(),
                destinations@ == self.destinations@.take(i as int),
            decreases self.destinations@.len() - i,
        {
            destinations.push(self.destinations[i]);
            i = i + 1;
            assert(destinations@ =~= self.destinations@.take(i as int));
        }
        assert(destinations@ =~= self.destinations@);
        Bundle {
            source: self.source,
            destinations,
            priority: self.priority,
            size: self.size,
            expiration: self.expiration,
        }
    }
}

} // verus!
