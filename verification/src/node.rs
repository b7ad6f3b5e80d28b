use vstd::prelude::*;
use crate::errors::ASABRError;
use crate::node_manager::NodeManager;
use crate::types::NodeID;

verus! {

/// The fixed description of a node.
#[derive(Debug, Clone)]
pub struct NodeInfo {
    /// The identifier of the node.
    pub id: NodeID,
    /// The name of the node.
    pub name: String,
    /// The node is never used as a relay.
    pub excluded: bool,
}

/// A node of the network, with its management policy.
#[derive(Debug)]
pub struct Node<NM: NodeManager> {
    pub info: NodeInfo,
    pub manager: NM,
}

impl<NM: NodeManager> Node<NM> {
    /// Creates a node from its description and its manager.
    pub fn try_new(info: NodeInfo, manager: NM) -> (r: Result<Self, ASABRError>)
        ensures
            r matches Ok(n) && n.info == info && n.manager == manager,
    {
        Ok(Node { info, manager })
    }

    /// The identifier of the node.
    pub fn get_node_id(&self) -> (r: NodeID)
        ensures
            r == self.info.id,
    {
        self.info.id
    }
}

} // verus!
