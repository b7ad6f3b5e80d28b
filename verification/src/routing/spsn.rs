use vstd::prelude::*;
use core::marker::PhantomData;
use crate::bundle::Bundle;
use crate::contact_manager::ContactManager;
use crate::contact_plan::ContactPlan;
use crate::errors::ASABRError;
use crate::multigraph::Multigraph;
use crate::node_manager::NodeManager;
use crate::pathfinding::{search_optimal, search_result, PathFindingOutput, Pathfinding};
use crate::route_storage::{Guard, TreeStorage};
use crate::routing::{
    targets_booked,
    lemma_reaches_only_widen,
    reached_in_time,
    unicast_booked,
    reaches_only,
    schedule_multicast,
    schedule_unicast,
    Router,
    RoutingOutput,
};
use crate::types::{Date, NodeID, Priority, Volume};

verus! {

/// Shortest Path with Safety Nodes: routes along pathfinding trees, kept in a
/// tree storage to be used again, and refuses at once the unicast bundles that
/// a known limit says cannot reach their destination.
pub struct Spsn<NM: NodeManager, CM: ContactManager, P: Pathfinding<NM, CM>, S: TreeStorage> {
    /// The trees computed so far.
    pub route_storage: S,
    /// The way trees are computed.
    pub pathfinding: P,
    /// The limits known for unicast bundles.
    pub unicast_guard: Guard,
    /// The contacts of the network.
    pub multigraph: Multigraph<NM, CM>,
    pub _phantom_nm: PhantomData<NM>,
    pub _phantom_cm: PhantomData<CM>,
}

/// The lower of two sizes.
pub open spec fn min_volume(a: Volume, b: Volume) -> Volume {
    if a < b {
        a
    } else {
        b
    }
}

impl<NM: NodeManager, CM: ContactManager, P: Pathfinding<NM, CM>, S: TreeStorage> Spsn<NM, CM, P, S> {
    /// Creates a router over the contacts of `contact_plan`, with an empty guard
    /// that keeps its limits per priority when `with_priorities` is set.
    pub fn new(contact_plan: ContactPlan<NM, CM>, route_storage: S, with_priorities: bool) -> (r:
        Result<Self, ASABRError>)
        ensures
            r matches Ok(s) && s.wf() && s.unicast_guard.with_priorities == with_priorities
                && s.unicast_guard.limits@.len() == 0 && s.multigraph.nodes@ == contact_plan.nodes_view()
                && s.multigraph.holds_exactly(contact_plan.contacts_view()) && s.route_storage == route_storage,
    {
        Ok(
            Spsn {
                pathfinding: P::new(),
                route_storage,
                unicast_guard: Guard::new(with_priorities),
                multigraph: Multigraph::new(contact_plan),
                _phantom_nm: PhantomData,
                _phantom_cm: PhantomData,
            },
        )
    }

    /// The stored result selected for `bundle` still reaches all its destinations.
    pub open spec fn reuses_for_multicast(&self, bundle: Bundle, curr_time: Date, excluded_nodes: Seq<NodeID>) -> bool {
        self.route_storage.selected(bundle, curr_time, excluded_nodes) matches Some(i)
            && self.route_storage.reached_by(i, bundle, curr_time).len() == bundle.destinations@.len()
    }

    /// What routing the multicast `bundle` gives, `self` being the router before
    /// and `next` after: along the stored result selected for it, where that one
    /// still reaches all its destinations, the booking of its routes towards
    /// them; otherwise, for a source of the graph, the booking of the routes of
    /// a new search result, stored as the storage's `stored` says, towards the
    /// destinations it reaches in time (as `targets_booked` says: with none,
    /// nothing is sent or booked).
    pub open spec fn multicast_outcome(
        &self,
        next: Self,
        r: Result<Option<RoutingOutput>, ASABRError>,
        source: NodeID,
        curr_time: Date,
        bundle: Bundle,
        excluded_nodes: Seq<NodeID>,
    ) -> bool {
        &&& self.reuses_for_multicast(bundle, curr_time, excluded_nodes) ==> (r matches Ok(Some(out))
            && next.pathfinding == self.pathfinding && next.route_storage == self.route_storage
            && targets_booked(
            self.multigraph,
            next.multigraph,
            out,
            self.route_storage.tree_at(self.route_storage.selected(bundle, curr_time, excluded_nodes)->0),
            self.route_storage.reached_by(
                self.route_storage.selected(bundle, curr_time, excluded_nodes)->0,
                bundle,
                curr_time,
            ),
            curr_time,
            bundle,
        ))
        &&& !self.reuses_for_multicast(bundle, curr_time, excluded_nodes) && (source as int)
            < self.multigraph.nodes@.len() ==> exists|idx: int|
            0 <= idx < next.route_storage.count() && search_result(
                self.multigraph,
                curr_time,
                source,
                bundle,
                excluded_nodes,
                P::avoids_excluded(),
                #[trigger] next.route_storage.tree_at(idx),
            ) && search_optimal::<NM, CM, P>(self.multigraph, bundle, excluded_nodes, next.route_storage.tree_at(idx))
                && self.route_storage.stored(next.route_storage, bundle, next.route_storage.tree_at(idx))
                && (r matches Ok(Some(out)) && targets_booked(
                self.multigraph,
                next.multigraph,
                out,
                next.route_storage.tree_at(idx),
                reached_in_time(next.route_storage.tree_at(idx), bundle.destinations@, bundle.expiration),
                curr_time,
                bundle,
            ))
    }

    /// What routing the unicast `bundle` from `source` along the new `tree`
    /// gives, `self` being the router before and `next` after (`tree` being a
    /// search result for these inputs that no single hop improves, and the
    /// storage is the old one after storing it): where the tree
    /// does not reach the destination, nothing, and the guard learns the
    /// bundle's size as a limit (and no other limit changes); where it reaches it after the bundle's
    /// expiration, nothing; otherwise the booking of the tree's route.
    pub open spec fn fresh_unicast(
        &self,
        next: Self,
        r: Result<Option<RoutingOutput>, ASABRError>,
        tree: PathFindingOutput,
        source: NodeID,
        curr_time: Date,
        bundle: Bundle,
        excluded_nodes: Seq<NodeID>,
    ) -> bool {
        let dest = bundle.destinations@[0];
        &&& search_result(self.multigraph, curr_time, source, bundle, excluded_nodes, P::avoids_excluded(), tree)
        &&& search_optimal::<NM, CM, P>(self.multigraph, bundle, excluded_nodes, tree)
        &&& self.route_storage.stored(next.route_storage, bundle, tree)
                &&& match tree.by_destination@[dest as int] {
            None => r matches Ok(None) && next.multigraph == self.multigraph
                && next.unicast_guard.with_priorities == self.unicast_guard.with_priorities
                && self.unicast_guard.keeps_others(next.unicast_guard, bundle.priority, dest)
                && next.unicast_guard.limit_of(bundle.priority, dest) == Some(
                match self.unicast_guard.limit_of(bundle.priority, dest) {
                    Some(l) => min_volume(bundle.size, l),
                    None => bundle.size,
                },
            ),
            Some(st) => if st.at_time > bundle.expiration {
                r matches Ok(None) && next.multigraph == self.multigraph && next.unicast_guard
                    == self.unicast_guard
            } else {
                r matches Ok(Some(out)) && unicast_booked(
                    self.multigraph,
                    next.multigraph,
                    out,
                    tree,
                    true,
                    curr_time,
                    bundle,
                ) && next.unicast_guard == self.unicast_guard
            },
        }
    }

    /// Routes a bundle with one destination: refused at once where the guard
    /// knows it cannot get through; otherwise along a stored tree that still
    /// reaches the destination, or else along a new tree, which is stored. Where
    /// the new tree does not reach the destination, the guard learns the limit.
    fn route_unicast(
        &mut self,
        source: NodeID,
        bundle: &Bundle,
        curr_time: Date,
        excluded_nodes: &[NodeID],
    ) -> (r: Result<Option<RoutingOutput>, ASABRError>)
        requires
            old(self).wf(),
            bundle.destinations@.len() == 1,
        ensures
            final(self).wf(),
            final(self).unicast_guard.with_priorities == old(self).unicast_guard.with_priorities,
            old(self).unicast_guard.keeps_others(
                final(self).unicast_guard,
                bundle.priority,
                bundle.destinations@[0],
            ),
            old(self).unicast_guard.refuses(*bundle) ==> (r matches Ok(None)
                && final(self).unicast_guard.limits@ == old(self).unicast_guard.limits@
                && *final(self) == *old(self)),
            final(self).unicast_guard.limits@ != old(self).unicast_guard.limits@ ==> (r matches Ok(None)
                && final(self).unicast_guard.limit_of(bundle.priority, bundle.destinations@[0]) == Some(
                match old(self).unicast_guard.limit_of(bundle.priority, bundle.destinations@[0]) {
                    Some(l) => min_volume(bundle.size, l),
                    None => bundle.size,
                },
            )),
            r matches Ok(Some(out)) ==> reaches_only(out, bundle.destinations@),
            (source as int) < old(self).multigraph.nodes@.len() && (bundle.destinations@[0] as int)
                < old(self).multigraph.nodes@.len() ==> r is Ok,
            r matches Err(e) ==> e == ASABRError::NodeOutOfRange,
            !old(self).unicast_guard.refuses(*bundle) ==> match old(self).route_storage.selected(
                *bundle,
                curr_time,
                excluded_nodes@,
            ) {
                Some(i) => r matches Ok(Some(out)) && unicast_booked(
                    old(self).multigraph,
                    final(self).multigraph,
                    out,
                    old(self).route_storage.tree_at(i),
                    false,
                    curr_time,
                    *bundle,
                ) && final(self).unicast_guard == old(self).unicast_guard && final(self).route_storage
                    == old(self).route_storage && final(self).pathfinding == old(self).pathfinding,
                None => (source as int) < old(self).multigraph.nodes@.len() && (bundle.destinations@[0] as int)
                    < old(self).multigraph.nodes@.len() ==> exists|idx: int|
                    0 <= idx < final(self).route_storage.count() && old(self).fresh_unicast(
                        *final(self),
                        r,
                        #[trigger] final(self).route_storage.tree_at(idx),
                        source,
                        curr_time,
                        *bundle,
                        excluded_nodes@,
                    ),
            },
    {
        if self.unicast_guard.must_abort(bundle) {
            return Ok(None);
        }
        let dest = bundle.destinations[0];
        if let Some((i, _reachable_nodes)) = self.route_storage.select(bundle, curr_time, excluded_nodes) {
            let tree = self.route_storage.get(i);
            let out = schedule_unicast(bundle, curr_time, tree, false, &mut self.multigraph);
            proof {
                lemma_unicast_reaches_only(out, bundle.destinations@);
            }
            return Ok(Some(out));
        }
        let new_tree = match self.pathfinding.get_next(
            &self.multigraph,
            curr_time,
            source,
            bundle,
            excluded_nodes,
        ) {
            Ok(t) => t,
            Err(e) => {
                return Err(e);
            },
        };
        let d = dest as usize;
        if d >= new_tree.by_destination.len() {
            return Err(ASABRError::NodeOutOfRange);
        }
        let arrival: Option<Date> = match &new_tree.by_destination[d] {
            Some(route) => Some(route.at_time),
            None => None,
        };
        let ghost nt = new_tree;
        let ghost before = *self;
        let idx = self.route_storage.store(bundle, new_tree);
        match arrival {
            Some(at) => {
                // the tree is built without regard to expiration
                if at > bundle.expiration {
                    assert(self.route_storage.tree_at(idx as int) == nt);
                    assert(before.fresh_unicast(*self, Ok(None), nt, source, curr_time, *bundle, excluded_nodes@));
                    return Ok(None);
                }
            },
            None => {
                self.unicast_guard.add_limit(bundle, dest);
                assert(self.route_storage.tree_at(idx as int) == nt);
                assert(before.fresh_unicast(*self, Ok(None), nt, source, curr_time, *bundle, excluded_nodes@));
                return Ok(None);
            },
        }
        let tree = self.route_storage.get(idx);
        let out = schedule_unicast(bundle, curr_time, tree, true, &mut self.multigraph);
        proof {
            lemma_unicast_reaches_only(out, bundle.destinations@);
            assert(self.route_storage.tree_at(idx as int) == nt);
            assert(before.fresh_unicast(*self, Ok(Some(out)), nt, source, curr_time, *bundle, excluded_nodes@));
        }
        Ok(Some(out))
    }

    /// Routes a bundle with several destinations: along a stored tree that still
    /// reaches all of them, or else along a new tree, which is stored, towards
    /// the destinations it reaches in time.
    pub fn route_multicast(
        &mut self,
        source: NodeID,
        bundle: &Bundle,
        curr_time: Date,
        excluded_nodes: &[NodeID],
    ) -> (r: Result<Option<RoutingOutput>, ASABRError>)
        requires
            old(self).wf(),
        ensures
            final(self).wf(),
            final(self).unicast_guard == old(self).unicast_guard,
            r matches Ok(o) ==> (o matches Some(out) && reaches_only(out, bundle.destinations@)),
            r matches Err(e) ==> e == ASABRError::NodeOutOfRange,
            (source as int) < old(self).multigraph.nodes@.len() ==> r is Ok,
            old(self).multicast_outcome(*final(self), r, source, curr_time, *bundle, excluded_nodes@),
    {
        if let Some((i, reachable_nodes)) = self.route_storage.select(bundle, curr_time, excluded_nodes) {
            if bundle.destinations.len() == reachable_nodes.len() {
                let ghost reached = reachable_nodes@;
                let tree = self.route_storage.get(i);
                let out = schedule_multicast(
                    bundle,
                    curr_time,
                    tree,
                    Some(reachable_nodes),
                    &mut self.multigraph,
                );
                proof {
                    lemma_reaches_only_widen(out, reached, bundle.destinations@);
                }
                return Ok(Some(out));
            }
        }
        let new_tree = match self.pathfinding.get_next(
            &self.multigraph,
            curr_time,
            source,
            bundle,
            excluded_nodes,
        ) {
            Ok(t) => t,
            Err(e) => {
                return Err(e);
            },
        };
        let ghost nt = new_tree;
        let ghost before = *self;
        let idx = self.route_storage.store(bundle, new_tree);
        let tree = self.route_storage.get(idx);
        let out = schedule_multicast(bundle, curr_time, tree, None, &mut self.multigraph);
        proof {
            assert(self.route_storage.tree_at(idx as int) == nt);
            assert(search_result(before.multigraph, curr_time, source, *bundle, excluded_nodes@, P::avoids_excluded(), nt));
        }
        Ok(Some(out))
    }
}

/// A decision that reaches only the first destination reaches only destinations.
proof fn lemma_unicast_reaches_only(out: RoutingOutput, destinations: Seq<NodeID>)
    requires
        destinations.len() >= 1,
        forall|i: int, j: int|
            0 <= i < out.first_hops@.len() && 0 <= j < out.first_hops@[i].stages@.len()
                ==> (#[trigger] out.first_hops@[i].stages@[j]).to_node == destinations[0],
    ensures
        reaches_only(out, destinations),
{
    assert forall|i: int, j: int|
        0 <= i < out.first_hops@.len() && 0 <= j < out.first_hops@[i].stages@.len() implies destinations.contains(
        (#[trigger] out.first_hops@[i].stages@[j]).to_node,
    ) by {
        assert(destinations[0] == out.first_hops@[i].stages@[j].to_node);
    }
}

impl<NM: NodeManager, CM: ContactManager, P: Pathfinding<NM, CM>, S: TreeStorage> Router for Spsn<
    NM,
    CM,
    P,
    S,
> {
    open spec fn wf(&self) -> bool {
        self.multigraph.wf() && self.unicast_guard.wf()
    }

    /// Refuses an expired bundle; routes a bundle with one destination by
    /// unicast, and any other by multicast.
    fn route(
        &mut self,
        source: NodeID,
        bundle: &Bundle,
        curr_time: Date,
        excluded_nodes: &[NodeID],
    ) -> (r: Result<Option<RoutingOutput>, ASABRError>)
        ensures
            r matches Ok(Some(out)) ==> reaches_only(out, bundle.destinations@),
            bundle.destinations@.len() > 0 ==> old(self).unicast_guard.keeps_others(
                final(self).unicast_guard,
                bundle.priority,
                bundle.destinations@[0],
            ),
            final(self).unicast_guard.with_priorities == old(self).unicast_guard.with_priorities,
            (source as int) < old(self).multigraph.nodes@.len() && (bundle.destinations@.len() == 1
                ==> (bundle.destinations@[0] as int) < old(self).multigraph.nodes@.len()) ==> r is Ok,
            bundle.expiration >= curr_time && bundle.destinations@.len() != 1 ==> (r is Ok ==> r matches Ok(
                Some(_),
            )),
            bundle.expiration < curr_time ==> *final(self) == *old(self),
            bundle.expiration >= curr_time && bundle.destinations@.len() != 1 ==> old(self).multicast_outcome(
                *final(self),
                r,
                source,
                curr_time,
                *bundle,
                excluded_nodes@,
            ),
            bundle.expiration >= curr_time && bundle.destinations@.len() == 1 && old(
                self,
            ).unicast_guard.refuses(*bundle) ==> (r matches Ok(None) && *final(self) == *old(self)),
            bundle.expiration >= curr_time && bundle.destinations@.len() == 1 && !old(
                self,
            ).unicast_guard.refuses(*bundle) ==> match old(self).route_storage.selected(
                *bundle,
                curr_time,
                excluded_nodes@,
            ) {
                Some(i) => r matches Ok(Some(out)) && unicast_booked(
                    old(self).multigraph,
                    final(self).multigraph,
                    out,
                    old(self).route_storage.tree_at(i),
                    false,
                    curr_time,
                    *bundle,
                ),
                None => (source as int) < old(self).multigraph.nodes@.len() && (bundle.destinations@[0] as int)
                    < old(self).multigraph.nodes@.len() ==> exists|idx: int|
                    0 <= idx < final(self).route_storage.count() && old(self).fresh_unicast(
                        *final(self),
                        r,
                        #[trigger] final(self).route_storage.tree_at(idx),
                        source,
                        curr_time,
                        *bundle,
                        excluded_nodes@,
                    ),
            },
    {
        if bundle.expiration < curr_time {
            return Ok(None);
        }
        if bundle.destinations.len() == 1 {
            return self.route_unicast(source, bundle, curr_time, excluded_nodes);
        }
        self.route_multicast(source, bundle, curr_time, excluded_nodes)
    }
}

} // verus!
