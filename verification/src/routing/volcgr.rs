use vstd::prelude::*;
use core::marker::PhantomData;
use crate::bundle::Bundle;
use crate::contact_manager::ContactManager;
use crate::contact_plan::ContactPlan;
use crate::errors::ASABRError;
use crate::multigraph::Multigraph;
use crate::node_manager::NodeManager;
use crate::pathfinding::Pathfinding;
use crate::route_storage::table::copy_path;
use crate::route_storage::{Route, RouteStorage};
use crate::routing::{
    lemma_reaches_only_widen,
    unicast_from_tree,
    unicast_outcome,
    unicast_path,
    path_output_booked,
    reaches_only,
    schedule_path_output,
    Router,
    RoutingOutput,
};
use crate::pathfinding::{search_optimal, search_result, walked_from, PathFindingOutput};
use crate::route_stage::PathHop;
use crate::types::{Date, NodeID};

verus! {

/// Volume-aware contact graph routing: routes one bundle at a time along a
/// stored route that can still carry it, or else along a new route, which is stored.
pub struct VolCgr<NM: NodeManager, CM: ContactManager, P: Pathfinding<NM, CM>, S: RouteStorage<NM, CM>> {
    /// The routes computed so far.
    pub route_storage: S,
    /// The way routes are computed.
    pub pathfinding: P,
    /// The contacts of the network.
    pub multigraph: Multigraph<NM, CM>,
    pub _phantom_nm: PhantomData<NM>,
    pub _phantom_cm: PhantomData<CM>,
}

impl<NM: NodeManager, CM: ContactManager, P: Pathfinding<NM, CM>, S: RouteStorage<NM, CM>> VolCgr<
    NM,
    CM,
    P,
    S,
> {
    /// Creates a router over the contacts of `contact_plan`.
    pub fn new(contact_plan: ContactPlan<NM, CM>, route_storage: S) -> (r: Result<Self, ASABRError>)
        ensures
            r matches Ok(v) && v.wf() && v.multigraph.nodes@ == contact_plan.nodes_view()
                && v.multigraph.holds_exactly(contact_plan.contacts_view()) && v.route_storage == route_storage,
    {
        Ok(
            VolCgr {
                pathfinding: P::new(),
                route_storage,
                multigraph: Multigraph::new(contact_plan),
                _phantom_nm: PhantomData,
                _phantom_cm: PhantomData,
            },
        )
    }

    /// What routing the unicast `bundle` from `source` on a new search gives,
    /// `self` being the router before and `next` after: the search returns some
    /// result `tree` for these inputs, which no single hop improves; the route
    /// it holds towards the destination, where it reaches it, is stored once
    /// (the storage is otherwise unchanged); and the answer is what
    /// `unicast_from_tree` gives on that tree.
    pub open spec fn routes_fresh(
        &self,
        next: Self,
        r: Result<Option<RoutingOutput>, ASABRError>,
        source: NodeID,
        curr_time: Date,
        bundle: Bundle,
        excluded_nodes: Seq<NodeID>,
    ) -> bool {
        let dest = bundle.destinations@[0];
        exists|tree: PathFindingOutput|
            #[trigger] search_result(self.multigraph, curr_time, source, bundle, excluded_nodes, P::avoids_excluded(), tree)
                && search_optimal::<NM, CM, P>(self.multigraph, bundle, excluded_nodes, tree)
                && (r matches Ok(o) && unicast_outcome(
                self.multigraph,
                next.multigraph,
                o,
                tree,
                curr_time,
                bundle,
            )) && ((dest as int) < tree.by_destination@.len() && tree.by_destination@[dest as int] is Some
                ==> exists|route: Route|
                #[trigger] self.route_storage.stored(next.route_storage, bundle, route) && next.route_storage.holds(
                    route,
                ) && route.path@ == unicast_path(tree, dest)
                    && route.destination_stage.to_node == dest && route.destination_stage.at_time
                    == tree.by_destination@[dest as int]->0.at_time) && (!((dest as int) < tree.by_destination@.len()
                && tree.by_destination@[dest as int] is Some) ==> next.route_storage == self.route_storage)
    }

    /// Routes a bundle with one destination along a stored route that can still
    /// carry it in time; otherwise computes a route, stores it, and takes it if
    /// the bundle can get through in time.
    fn route_unicast(
        &mut self,
        source: NodeID,
        bundle: &Bundle,
        curr_time: Date,
        excluded_nodes: &[NodeID],
    ) -> (r: Result<Option<RoutingOutput>, ASABRError>)
        requires
            old(self).wf(),
            bundle.destinations@.len() == 1,
        ensures
            final(self).wf(),
            r matches Ok(Some(out)) ==> out.first_hops@.len() <= 1 && reaches_only(
                out,
                bundle.destinations@,
            ),
            r matches Err(e) ==> e == ASABRError::NodeOutOfRange,
            (source as int) < old(self).multigraph.nodes@.len() ==> r is Ok,
            old(self).route_storage.selected_path(*bundle, curr_time, old(self).multigraph, excluded_nodes@)
                matches Some(p) ==> r matches Ok(Some(out)) && path_output_booked(
                old(self).multigraph,
                final(self).multigraph,
                out,
                p,
                curr_time,
                *bundle,
            ) && final(self).route_storage == old(self).route_storage && final(self).pathfinding == old(
                self,
            ).pathfinding,
            old(self).route_storage.selected_path(*bundle, curr_time, old(self).multigraph, excluded_nodes@)
                is None && (source as int) < old(self).multigraph.nodes@.len() ==> old(self).routes_fresh(
                *final(self),
                r,
                source,
                curr_time,
                *bundle,
                excluded_nodes@,
            ),
    {
        let dest = bundle.destinations[0];
        if let Some(path) = self.route_storage.select(bundle, curr_time, &self.multigraph, excluded_nodes) {
            let out = schedule_path_output(bundle, curr_time, path.as_slice(), &mut self.multigraph);
            proof {
                lemma_last_hop_reaches(out, path@, bundle.destinations@);
            }
            return Ok(Some(out));
        }
        let new_tree = match self.pathfinding.get_next(
            &self.multigraph,
            curr_time,
            source,
            bundle,
            excluded_nodes,
        ) {
            Ok(t) => t,
            Err(e) => {
                return Err(e);
            },
        };
        let ghost mut stored: Option<Route> = None;
        match Route::from_tree(&new_tree, dest) {
            None => {},
            Some(r) => {
                let mut route = r;
                route.destination_stage.init_route();
                proof {
                    stored = Some(route);
                }
                self.route_storage.store(bundle, route);
            },
        }
        let ghost g0 = self.multigraph;
        let o = unicast_from_tree(bundle, curr_time, source, &new_tree, &mut self.multigraph);
        proof {
            if o is Some {
                let out = o->0;
                let st = new_tree.by_destination@[dest as int]->Some_0;
                assert(walked_from(g0, st, source, curr_time, *bundle));
                lemma_last_hop_reaches(out, unicast_path(new_tree, dest), bundle.destinations@);
            }
            assert(search_result(g0, curr_time, source, *bundle, excluded_nodes@, P::avoids_excluded(), new_tree));
            if (dest as int) < new_tree.by_destination@.len() && new_tree.by_destination@[dest as int] is Some {
                let rt = stored->0;
                assert(self.route_storage.holds(rt));
                assert(old(self).route_storage.stored(self.route_storage, *bundle, rt));
            }
            assert(old(self).routes_fresh(*self, Ok(o), source, curr_time, *bundle, excluded_nodes@));
        }
        Ok(o)
    }
}

/// A decision that reaches only the end of `path`, the first destination,
/// reaches only destinations.
proof fn lemma_last_hop_reaches(out: RoutingOutput, path: Seq<PathHop>, destinations: Seq<NodeID>)
    requires
        path.len() == 0 ==> out.first_hops@.len() == 0,
        path.len() > 0 ==> reaches_only(out, seq![path.last().rx_node]),
        path.len() > 0 ==> destinations.len() > 0 && path.last().rx_node == destinations[0],
    ensures
        reaches_only(out, destinations),
{
    if path.len() > 0 {
        assert(destinations.contains(seq![path.last().rx_node][0]));
        lemma_reaches_only_widen(out, seq![path.last().rx_node], destinations);
    }
}

impl<NM: NodeManager, CM: ContactManager, P: Pathfinding<NM, CM>, S: RouteStorage<NM, CM>> Router for VolCgr<
    NM,
    CM,
    P,
    S,
> {
    open spec fn wf(&self) -> bool {
        self.multigraph.wf()
    }

    /// Refuses an expired bundle; routes a bundle with one destination, and
    /// answers that several destinations are not supported.
    fn route(
        &mut self,
        source: NodeID,
        bundle: &Bundle,
        curr_time: Date,
        excluded_nodes: &[NodeID],
    ) -> (r: Result<Option<RoutingOutput>, ASABRError>)
        ensures
            r matches Ok(Some(out)) ==> reaches_only(out, bundle.destinations@),
            (source as int) < old(self).multigraph.nodes@.len() && bundle.destinations@.len() == 1 ==> r is Ok,
            bundle.expiration < curr_time || bundle.destinations@.len() != 1 ==> *final(self) == *old(self),
            bundle.expiration >= curr_time && bundle.destinations@.len() == 1 ==> match old(
                self,
            ).route_storage.selected_path(*bundle, curr_time, old(self).multigraph, excluded_nodes@) {
                Some(p) => r matches Ok(Some(out)) && path_output_booked(
                    old(self).multigraph,
                    final(self).multigraph,
                    out,
                    p,
                    curr_time,
                    *bundle,
                ) && final(self).route_storage == old(self).route_storage && final(self).pathfinding == old(
                    self,
                ).pathfinding,
                None => (source as int) < old(self).multigraph.nodes@.len() ==> old(self).routes_fresh(
                    *final(self),
                    r,
                    source,
                    curr_time,
                    *bundle,
                    excluded_nodes@,
                ),
            },
            bundle.expiration >= curr_time && bundle.destinations@.len() != 1 ==> r == Err::<
                Option<RoutingOutput>,
                ASABRError,
            >(ASABRError::MulticastUnsupportedError),
    {
        if bundle.expiration < curr_time {
            return Ok(None);
        }
        if bundle.destinations.len() == 1 {
            return self.route_unicast(source, bundle, curr_time, excluded_nodes);
        }
        Err(ASABRError::MulticastUnsupportedError)
    }
}

} // verus!
