use vstd::prelude::*;
use crate::contact::Contact;
use crate::contact_manager::ContactManager;
use crate::errors::ASABRError;
use crate::node::Node;
use crate::node_manager::NodeManager;

verus! {

/// The nodes of a network and the contacts between them; a plan is always
/// consistent (`wf`), as only `new` builds one.
#[derive(Debug)]
pub struct ContactPlan<NM: NodeManager, CM: ContactManager> {
    /// The nodes, each at the index of its identifier.
    nodes: Vec<Node<NM>>,
    /// The contacts.
    contacts: Vec<Contact<CM>>,
}

impl<NM: NodeManager, CM: ContactManager> ContactPlan<NM, CM> {
    /// The nodes of the plan.
    pub closed spec fn nodes_view(&self) -> Seq<Node<NM>> {
        self.nodes@
    }

    /// The contacts of the plan.
    pub closed spec fn contacts_view(&self) -> Seq<Contact<CM>> {
        self.contacts@
    }

    /// The plan is consistent: node `i` has identifier `i`, every contact joins
    /// two nodes of the plan, and every contact manager is well formed.
    pub open spec fn wf(&self) -> bool {
        &&& self.nodes_view().len() <= 0x1_0000
        &&& forall|i: int| 0 <= i < self.nodes_view().len() ==> (#[trigger] self.nodes_view()[i]).info.id == i
        &&& forall|k: int|
            0 <= k < self.contacts_view().len() ==> (#[trigger] self.contacts_view()[k]).info.tx_node
                < self.nodes_view().len() && self.contacts_view()[k].info.rx_node < self.nodes_view().len()
                && self.contacts_view()[k].manager.wf()
    }

    #[verifier::type_invariant]
    closed spec fn consistent(&self) -> bool {
        self.wf()
    }

    /// The nodes and contacts of the plan.
    pub fn into_parts(self) -> (r: (Vec<Node<NM>>, Vec<Contact<CM>>))
        ensures
            self.wf(),
            r.0@ == self.nodes_view(),
            r.1@ == self.contacts_view(),
    {
        proof {
            use_type_invariant(&self);
        }
        (self.nodes, self.contacts)
    }

    /// Creates a contact plan, checking that node `i` has identifier `i` and that
    /// every contact joins two nodes of the plan.
    pub fn new(nodes: Vec<Node<NM>>, contacts: Vec<Contact<CM>>) -> (r: Result<Self, ASABRError>)
        requires
            forall|k: int| 0 <= k < contacts@.len() ==> (#[trigger] contacts@[k]).manager.wf(),
        ensures
            match r {
                Ok(cp) => cp.wf() && cp.nodes_view() == nodes@ && cp.contacts_view() == contacts@,
                Err(e) => (e == ASABRError::NodeIdMismatch && (nodes@.len() > 0x1_0000 || exists|i: int|
                    0 <= i < nodes@.len() && (#[trigger] nodes@[i]).info.id != i)) || (e
                    == ASABRError::NodeOutOfRange && exists|k: int|
                    0 <= k < contacts@.len() && ((#[trigger] contacts@[k]).info.tx_node >= nodes@.len()
                        || contacts@[k].info.rx_node >= nodes@.len())),
            },
            r is Ok <==> (nodes@.len() <= 0x1_0000 && (forall|i: int|
                0 <= i < nodes@.len() ==> (#[trigger] nodes@[i]).info.id == i) && (forall|k: int|
                0 <= k < contacts@.len() ==> (#[trigger] contacts@[k]).info.tx_node < nodes@.len()
                    && contacts@[k].info.rx_node < nodes@.len())),
    {
        let n = nodes.len();
        if n > 0x1_0000 {
            return Err(ASABRError::NodeIdMismatch);
        }
        let mut i: usize = 0;
        while i < n
            invariant
                n == nodes@.len(),
                n <= 0x1_0000,
                0 <= i <= n,
                forall|j: int| 0 <= j < i ==> (#[trigger] nodes@[j]).info.id == j,
            decreases n - i,
        {
            if nodes[i].info.id as usize != i {
                return Err(ASABRError::NodeIdMismatch);
            }
            i = i + 1;
        }
        let mut k: usize = 0;
        while k < contacts.len()
            invariant
                n == nodes@.len(),
                0 <= k <= contacts@.len(),
                forall|j: int|
                    0 <= j < k ==> (#[trigger] contacts@[j]).info.tx_node < n && contacts@[j].info.rx_node
                        < n,
            decreases contacts@.len() - k,
        {
            if contacts[k].info.tx_node as usize >= n || contacts[k].info.rx_node as usize >= n {
                return Err(ASABRError::NodeOutOfRange);
            }
            k = k + 1;
        }
        Ok(ContactPlan { nodes, contacts })
    }
}

} // verus!
