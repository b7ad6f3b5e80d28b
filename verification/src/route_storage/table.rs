use vstd::prelude::*;
use core::marker::PhantomData;
use crate::bundle::Bundle;
use crate::contact_manager::ContactManager;
use crate::distance::Distance;
use crate::multigraph::Multigraph;
use crate::node_manager::NodeManager;
use crate::pathfinding::node_parenting::contains_node;
use crate::route_stage::PathHop;
use crate::route_storage::{Route, RouteStorage};
use crate::routing::{dry_run_unicast_path, path_arrival};
use crate::types::{Date, NodeID};

verus! {

/// The routes held, each towards its destination, best first under `D`.
pub struct RoutingTable<NM: NodeManager, CM: ContactManager, D: Distance> {
    /// The routes, best first.
    pub routes: Vec<Route>,
    pub _phantom_nm: PhantomData<NM>,
    pub _phantom_cm: PhantomData<CM>,
    pub _phantom_d: PhantomData<D>,
}

/// The number of routes of `routes` towards `destination`.
pub open spec fn count_to(routes: Seq<Route>, destination: NodeID) -> nat
    decreases routes.len(),
{
    if routes.len() == 0 {
        0
    } else {
        count_to(routes.drop_last(), destination) + if routes.last().destination_stage.to_node
            == destination {
            1nat
        } else {
            0nat
        }
    }
}

/// A copy of `path`.
pub fn copy_path(path: &Vec<PathHop>) -> (r: Vec<PathHop>)
    ensures
        r@ == path@,
{
    let mut r: Vec<PathHop> = Vec::new();
    let mut i: usize = 0;
    while i < path.len()
        invariant
            0 <= i <= path@.len(),
            r@ == path@.take(i as int),
        decreases path@.len() - i,
    {
        r.push(path[i]);
        i = i + 1;
        assert(r@ =~= path@.take(i as int));
    }
    assert(r@ =~= path@);
    r
}

/// Whether some hop of `path` reaches one of `excluded_nodes`.
fn reaches_excluded(path: &Vec<PathHop>, excluded_nodes: &[NodeID]) -> (r: bool)
    ensures
        r == exists|i: int| 0 <= i < path@.len() && excluded_nodes@.contains(#[trigger] path@[i].rx_node),
{
    let mut i: usize = 0;
    while i < path.len()
        invariant
            0 <= i <= path@.len(),
            forall|j: int| 0 <= j < i ==> !excluded_nodes@.contains(#[trigger] path@[j].rx_node),
        decreases path@.len() - i,
    {
        if contains_node(excluded_nodes, path[i].rx_node) {
            assert(excluded_nodes@.contains(path@[i as int].rx_node));
            return true;
        }
        i = i + 1;
    }
    false
}

impl<NM: NodeManager, CM: ContactManager, D: Distance> RoutingTable<NM, CM, D> {
    /// `D` prefers the stage of route `a` to that of route `b`.
    pub open spec fn prefers(a: Route, b: Route) -> bool {
        D::better_spec(
            a.destination_stage.hop_count,
            a.destination_stage.at_time,
            b.destination_stage.hop_count,
            b.destination_stage.at_time,
        )
    }

    /// The route at `i` leads from the bundle's source to its first destination,
    /// reaches none of `excluded_nodes`, and the bundle, sent along it at
    /// `curr_time`, arrives no later than its expiration.
    pub open spec fn takes(
        &self,
        i: int,
        bundle: Bundle,
        curr_time: Date,
        multigraph: Multigraph<NM, CM>,
        excluded_nodes: Seq<NodeID>,
    ) -> bool {
        let route = self.routes@[i];
        let p = route.path@;
        &&& bundle.destinations@.len() > 0
        &&& route.destination_stage.to_node == bundle.destinations@[0]
        &&& p.len() > 0
        &&& p.last().rx_node == bundle.destinations@[0]
        &&& p[0].tx_node == bundle.source
        &&& !(exists|k: int| 0 <= k < p.len() && excluded_nodes.contains(#[trigger] p[k].rx_node))
        &&& path_arrival(multigraph, p, curr_time, bundle) matches Some(a) && a <= bundle.expiration
    }

    /// The first route among the first `n` that the bundle takes.
    pub open spec fn first_taken(
        &self,
        n: int,
        bundle: Bundle,
        curr_time: Date,
        multigraph: Multigraph<NM, CM>,
        excluded_nodes: Seq<NodeID>,
    ) -> Option<int>
        decreases n,
    {
        if n <= 0 {
            None
        } else {
            match self.first_taken(n - 1, bundle, curr_time, multigraph, excluded_nodes) {
                Some(k) => Some(k),
                None => if self.takes(n - 1, bundle, curr_time, multigraph, excluded_nodes) {
                    Some(n - 1)
                } else {
                    None
                },
            }
        }
    }

    /// The first route taken among the first `m` is the first one among any more.
    pub proof fn lemma_first_taken_extends(
        &self,
        m: int,
        n: int,
        bundle: Bundle,
        curr_time: Date,
        multigraph: Multigraph<NM, CM>,
        excluded_nodes: Seq<NodeID>,
    )
        requires
            0 <= m <= n,
            self.first_taken(m, bundle, curr_time, multigraph, excluded_nodes) is Some,
        ensures
            self.first_taken(n, bundle, curr_time, multigraph, excluded_nodes) == self.first_taken(
                m,
                bundle,
                curr_time,
                multigraph,
                excluded_nodes,
            ),
        decreases n - m,
    {
        if n > m {
            self.lemma_first_taken_extends(m, n - 1, bundle, curr_time, multigraph, excluded_nodes);
        }
    }

    /// Where no route among the first `n` is taken, none is first taken.
    pub proof fn lemma_first_taken_none(
        &self,
        n: int,
        bundle: Bundle,
        curr_time: Date,
        multigraph: Multigraph<NM, CM>,
        excluded_nodes: Seq<NodeID>,
    )
        requires
            forall|j: int| 0 <= j < n ==> !self.takes(j, bundle, curr_time, multigraph, excluded_nodes),
        ensures
            self.first_taken(n, bundle, curr_time, multigraph, excluded_nodes) is None,
        decreases n,
    {
        if n > 0 {
            self.lemma_first_taken_none(n - 1, bundle, curr_time, multigraph, excluded_nodes);
        }
    }

    /// An empty table.
    pub fn new() -> (r: Self)
        ensures
            r.routes@.len() == 0,
    {
        RoutingTable {
            routes: Vec::new(),
            _phantom_nm: PhantomData,
            _phantom_cm: PhantomData,
            _phantom_d: PhantomData,
        }
    }

    /// Whether the table holds a route towards `destination`.
    pub fn has_route_to(&self, destination: NodeID) -> (r: bool)
        ensures
            r == exists|i: int|
                0 <= i < self.routes@.len() && (#[trigger] self.routes@[i]).destination_stage.to_node
                    == destination,
    {
        let mut i: usize = 0;
        while i < self.routes.len()
            invariant
                0 <= i <= self.routes@.len(),
                forall|j: int|
                    0 <= j < i ==> (#[trigger] self.routes@[j]).destination_stage.to_node != destination,
            decreases self.routes@.len() - i,
        {
            if self.routes[i].destination_stage.to_node == destination {
                assert(self.routes@[i as int].destination_stage.to_node == destination);
                return true;
            }
            i = i + 1;
        }
        false
    }

    /// The number of routes the table holds towards `destination`.
    pub fn route_count_for(&self, destination: NodeID) -> (r: usize)
        ensures
            r == count_to(self.routes@, destination),
    {
        let mut count: usize = 0;
        let mut i: usize = 0;
        assert(self.routes@.take(0) =~= Seq::<Route>::empty());
        while i < self.routes.len()
            invariant
                0 <= i <= self.routes@.len(),
                count == count_to(self.routes@.take(i as int), destination),
                count <= i,
            decreases self.routes@.len() - i,
        {
            assert(self.routes@.take(i + 1).drop_last() =~= self.routes@.take(i as int));
            if self.routes[i].destination_stage.to_node == destination {
                count = count + 1;
            }
            i = i + 1;
        }
        assert(self.routes@.take(self.routes@.len() as int) =~= self.routes@);
        count
    }
}

impl<NM: NodeManager, CM: ContactManager, D: Distance> RouteStorage<NM, CM> for RoutingTable<
    NM,
    CM,
    D,
> {
    open spec fn holds(&self, route: Route) -> bool {
        self.routes@.contains(route)
    }

    open spec fn stored(&self, next: Self, bundle: Bundle, route: Route) -> bool {
        exists|i: int|
            0 <= i <= self.routes@.len() && next.routes@ == self.routes@.insert(i, route) && (forall|j: int|
                0 <= j < i ==> !Self::prefers(route, #[trigger] self.routes@[j])) && (i < self.routes@.len()
                ==> Self::prefers(route, self.routes@[i]))
    }

    open spec fn selected_path(
        &self,
        bundle: Bundle,
        curr_time: Date,
        multigraph: Multigraph<NM, CM>,
        excluded_nodes: Seq<NodeID>,
    ) -> Option<Seq<PathHop>> {
        match self.first_taken(self.routes@.len() as int, bundle, curr_time, multigraph, excluded_nodes) {
            Some(i) => Some(self.routes@[i].path@),
            None => None,
        }
    }

    /// The first route (best first) towards the bundle's destination, from its
    /// source, that reaches none of `excluded_nodes` and that the bundle can
    /// still take, arriving in time.
    fn select(
        &self,
        bundle: &Bundle,
        curr_time: Date,
        multigraph: &Multigraph<NM, CM>,
        excluded_nodes: &[NodeID],
    ) -> (r: Option<Vec<PathHop>>)
        ensures
            match r {
                Some(p) => exists|i: int|
                    0 <= i < self.routes@.len() && self.takes(i, *bundle, curr_time, *multigraph, excluded_nodes@)
                        && p@ == (#[trigger] self.routes@[i]).path@ && forall|j: int|
                        0 <= j < i ==> !self.takes(j, *bundle, curr_time, *multigraph, excluded_nodes@),
                None => forall|j: int|
                    0 <= j < self.routes@.len() ==> !self.takes(j, *bundle, curr_time, *multigraph, excluded_nodes@),
            },
    {
        if bundle.destinations.len() == 0 {
            proof {
                self.lemma_first_taken_none(
                    self.routes@.len() as int,
                    *bundle,
                    curr_time,
                    *multigraph,
                    excluded_nodes@,
                );
            }
            return None;
        }
        let dest = bundle.destinations[0];
        let mut i: usize = 0;
        while i < self.routes.len()
            invariant
                multigraph.wf(),
                0 <= i <= self.routes@.len(),
                bundle.destinations@.len() > 0,
                dest == bundle.destinations@[0],
                forall|j: int|
                    0 <= j < i ==> !self.takes(j, *bundle, curr_time, *multigraph, excluded_nodes@),
                self.first_taken(i as int, *bundle, curr_time, *multigraph, excluded_nodes@) is None,
            decreases self.routes@.len() - i,
        {
            let route = &self.routes[i];
            if route.destination_stage.to_node == dest && route.path.len() > 0
                && route.path[route.path.len() - 1].rx_node == dest
                && route.path[0].tx_node == bundle.source && !reaches_excluded(
                &route.path,
                excluded_nodes,
            ) {
                match dry_run_unicast_path(
                    bundle,
                    curr_time,
                    bundle.source,
                    route.path.as_slice(),
                    multigraph,
                ) {
                    Some(st) => {
                        if st.at_time <= bundle.expiration {
                            let p = copy_path(&route.path);
                            assert(self.takes(i as int, *bundle, curr_time, *multigraph, excluded_nodes@));
                            proof {
                                self.lemma_first_taken_extends(
                                    i + 1,
                                    self.routes@.len() as int,
                                    *bundle,
                                    curr_time,
                                    *multigraph,
                                    excluded_nodes@,
                                );
                            }
                            return Some(p);
                        }
                    },
                    None => {},
                }
            }
            i = i + 1;
        }
        None
    }

    /// Holds `route` before the first held route to which `D` prefers it.
    fn store(&mut self, _bundle: &Bundle, route: Route)
        ensures
            exists|i: int|
                0 <= i <= old(self).routes@.len() && final(self).routes@ == old(self).routes@.insert(i, route)
                    && (forall|j: int|
                    0 <= j < i ==> !Self::prefers(route, #[trigger] old(self).routes@[j])) && (i
                    < old(self).routes@.len() ==> Self::prefers(route, old(self).routes@[i])),
    {
        let mut i: usize = 0;
        while i < self.routes.len() && !D::better(&route.destination_stage, &self.routes[i].destination_stage)
            invariant
                0 <= i <= self.routes@.len(),
                self.routes@ == old(self).routes@,
                forall|j: int| 0 <= j < i ==> !Self::prefers(route, #[trigger] self.routes@[j]),
            decreases self.routes@.len() - i,
        {
            i = i + 1;
        }
        let ghost rt = route;
        self.routes.insert(i, route);
        assert(self.routes@[i as int] == rt);
    }
}

} // verus!
