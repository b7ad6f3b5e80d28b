use vstd::prelude::*;
use crate::types::{Date, Duration, NodeID, DATE_MAX};

verus! {

/// The hop by which a route stage is reached: a contact from the parent stage's node.
#[derive(Debug)]
pub struct ViaHop {
    /// The index of the contact taken.
    pub contact: usize,
    /// The stage from which the contact is taken.
    pub parent_route: Box<RouteStage>,
    /// The sending node of the contact.
    pub tx_node: NodeID,
    /// The receiving node of the contact.
    pub rx_node: NodeID,
}

/// One hop of a route, in the order of travel.
#[derive(Debug, Clone, Copy, PartialEq, Eq, Structural)]
pub struct PathHop {
    pub contact: usize,
    pub tx_node: NodeID,
    pub rx_node: NodeID,
}

/// The state of a route once it has reached `to_node`.
#[derive(Debug)]
pub struct RouteStage {
    /// The date at which the bundle is at `to_node`.
    pub at_time: Date,
    /// The node reached.
    pub to_node: NodeID,
    /// How the node is reached; `None` for the source of a route.
    pub via: Option<ViaHop>,
    /// The number of hops from the source.
    pub hop_count: u32,
    /// The sum of the delays of the hops from the source.
    pub cumulative_delay: Duration,
    /// The date after which the route is no longer valid.
    pub expiration: Date,
    /// The hops from the source to this stage, once set up by `init_route`.
    pub route: Vec<PathHop>,
}

/// The hops from the source of `stage` to `stage`, in the order of travel.
pub open spec fn path_of(stage: RouteStage) -> Seq<PathHop>
    decreases stage,
{
    match stage.via {
        None => Seq::empty(),
        Some(v) => path_of(*v.parent_route).push(
            PathHop { contact: v.contact, tx_node: v.tx_node, rx_node: v.rx_node },
        ),
    }
}

/// The two stages agree on everything, down to their sources.
pub open spec fn same_stage(a: RouteStage, b: RouteStage) -> bool
    decreases a,
{
    &&& a.at_time == b.at_time
    &&& a.to_node == b.to_node
    &&& a.hop_count == b.hop_count
    &&& a.cumulative_delay == b.cumulative_delay
    &&& a.expiration == b.expiration
    &&& a.route@ == b.route@
    &&& match (a.via, b.via) {
        (None, None) => true,
        (Some(va), Some(vb)) => va.contact == vb.contact && va.tx_node == vb.tx_node && va.rx_node
            == vb.rx_node && same_stage(*va.parent_route, *vb.parent_route),
        _ => false,
    }
}

/// Stages that agree down to their sources are reached by the same hops.
pub proof fn lemma_same_stage_path(a: RouteStage, b: RouteStage)
    requires
        same_stage(a, b),
    ensures
        path_of(a) == path_of(b),
    decreases a,
{
    match (a.via, b.via) {
        (Some(va), Some(vb)) => {
            lemma_same_stage_path(*va.parent_route, *vb.parent_route);
        },
        _ => {},
    }
}

impl RouteStage {
    /// A stage at `to_node` at `at_time`, reached by `via`, with no hop counted yet.
    pub fn new(at_time: Date, to_node: NodeID, via: Option<ViaHop>) -> (r: Self)
        ensures
            r.at_time == at_time,
            r.to_node == to_node,
            r.via == via,
            r.hop_count == 0,
            r.cumulative_delay == 0,
            r.expiration == DATE_MAX,
            r.route@ == Seq::<PathHop>::empty(),
    {
        RouteStage {
            at_time,
            to_node,
            via,
            hop_count: 0,
            cumulative_delay: 0,
            expiration: DATE_MAX,
            route: Vec::new(),
        }
    }

    /// An identical copy of the stage and of the stages it is reached from.
    pub fn duplicate(&self) -> (r: Self)
        ensures
            r.at_time == self.at_time,
            r.to_node == self.to_node,
            r.hop_count == self.hop_count,
            r.cumulative_delay == self.cumulative_delay,
            r.expiration == self.expiration,
            r.route@ == self.route@,
            path_of(r) == path_of(*self),
            r.via is Some <==> self.via is Some,
            same_stage(r, *self),
        decreases self,
    {
        let via = match &self.via {
            None => None,
            Some(v) => Some(
                ViaHop {
                    contact: v.contact,
                    parent_route: Box::new(v.parent_route.duplicate()),
                    tx_node: v.tx_node,
                    rx_node: v.rx_node,
                },
            ),
        };
        let mut route: Vec<PathHop> = Vec::new();
        let mut i: usize = 0;
        while i < self.route.len()
            invariant
                0 <= i <= self.route@.len(),
                route@ == self.route@.take(i as int),
            decreases self.route@.len() - i,
        {
            route.push(self.route[i]);
            i = i + 1;
            assert(route@ =~= self.route@.take(i as int));
        }
        assert(route@ =~= self.route@);
        RouteStage {
            at_time: self.at_time,
            to_node: self.to_node,
            via,
            hop_count: self.hop_count,
            cumulative_delay: self.cumulative_delay,
            expiration: self.expiration,
            route,
        }
    }

    /// The hops from the source to this stage, in the order of travel.
    pub fn collect_path(&self) -> (r: Vec<PathHop>)
        ensures
            r@ == path_of(*self),
        decreases self,
    {
        match &self.via {
            None => Vec::new(),
            Some(v) => {
                let mut p = v.parent_route.collect_path();
                p.push(PathHop { contact: v.contact, tx_node: v.tx_node, rx_node: v.rx_node });
                p
            },
        }
    }

    /// Sets up the route of the stage: the hops from its source to it, in the order of travel.
    pub fn init_route(&mut self)
        ensures
            final(self).route@ == path_of(*old(self)),
            path_of(*final(self)) == path_of(*old(self)),
            final(self).at_time == old(self).at_time,
            final(self).to_node == old(self).to_node,
            final(self).hop_count == old(self).hop_count,
            final(self).cumulative_delay == old(self).cumulative_delay,
            final(self).expiration == old(self).expiration,
    {
        let p = self.collect_path();
        self.route = p;
    }
}

} // verus!
