use vstd::prelude::*;
use crate::contact_manager::ContactManager;
use crate::errors::ASABRError;
use crate::types::{Date, NodeID};

verus! {

/// The fixed description of a contact: a window during which `tx_node` can send to `rx_node`.
#[derive(Clone, Copy, Debug)]
pub struct ContactInfo {
    /// The sending node.
    pub tx_node: NodeID,
    /// The receiving node.
    pub rx_node: NodeID,
    /// The opening of the window.
    pub start: Date,
    /// The closing of the window.
    pub end: Date,
}

impl ContactInfo {
    /// Describes a contact from `tx_node` to `rx_node` open over `[start, end]`.
    pub fn new(tx_node: NodeID, rx_node: NodeID, start: Date, end: Date) -> (r: Self)
        ensures
            r == (ContactInfo { tx_node, rx_node, start, end }),
    {
        ContactInfo { tx_node, rx_node, start, end }
    }
}

/// A contact of the contact plan, with the manager that books transmissions on it.
#[derive(Debug)]
pub struct Contact<CM: ContactManager> {
    /// The description of the contact.
    pub info: ContactInfo,
    /// The booking policy of the contact.
    pub manager: CM,
    /// The contact is set aside by the pathfinding.
    pub suppressed: bool,
}

impl<CM: ContactManager> Contact<CM> {
    /// Creates a contact, once its manager has accepted it.
    pub fn try_new(info: ContactInfo, manager: CM) -> (r: Result<Self, ASABRError>)
        requires
            manager.wf(),
        ensures
            r is Ok <==> manager.accepts(info),
            r matches Ok(c) ==> c.info == info && !c.suppressed && c.manager.wf() && manager.initialised(
                c.manager,
                info,
            ),
            r matches Err(e) ==> e == ASABRError::ContactInitError,
    {
        let mut manager = manager;
        if manager.try_init(&info) {
            Ok(Contact { info, manager, suppressed: false })
        } else {
            Err(ASABRError::ContactInitError)
        }
    }

    /// The receiving node of the contact.
    pub fn get_rx_node(&self) -> (r: NodeID)
        ensures
            r == self.info.rx_node,
    {
        self.info.rx_node
    }

    /// The sending node of the contact.
    pub fn get_tx_node(&self) -> (r: NodeID)
        ensures
            r == self.info.tx_node,
    {
        self.info.tx_node
    }
}

} // verus!
