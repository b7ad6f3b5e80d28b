use vstd::prelude::*;
use crate::bundle::Bundle;
use crate::contact_manager::ContactManager;
use crate::multigraph::Multigraph;
use crate::node_manager::NodeManager;
use crate::pathfinding::PathFindingOutput;
use crate::route_stage::{path_of, PathHop, RouteStage};
use crate::routing::path_arrival;
use crate::types::{Date, NodeID, Priority, Volume};

pub mod cache;
pub mod table;

verus! {

/// A size limit known for the bundles of a priority towards a destination.
#[derive(Debug, Clone, Copy)]
pub struct GuardLimit {
    pub priority: Priority,
    pub destination: NodeID,
    pub size: Volume,
}

/// Remembers the destinations that could not be reached, to refuse at once the
/// bundles of no greater size (and, with priorities, of the same priority).
#[derive(Debug)]
pub struct Guard {
    /// The limits are kept per priority.
    pub with_priorities: bool,
    /// The known limits, at most one per priority and destination.
    pub limits: Vec<GuardLimit>,
}

impl Guard {
    /// The priority under which the limits of `priority` are kept.
    pub open spec fn key_priority(&self, priority: Priority) -> Priority {
        if self.with_priorities {
            priority
        } else {
            0
        }
    }

    /// The limit at `i` is kept for `priority` towards `destination`.
    pub open spec fn keyed(&self, i: int, priority: Priority, destination: NodeID) -> bool {
        self.limits@[i].priority == self.key_priority(priority) && self.limits@[i].destination
            == destination
    }

    /// The limit known for the bundles of `priority` towards `destination`.
    pub open spec fn limit_of(&self, priority: Priority, destination: NodeID) -> Option<Volume> {
        if exists|i: int| 0 <= i < self.limits@.len() && self.keyed(i, priority, destination) {
            Some(
                self.limits@[choose|i: int|
                    0 <= i < self.limits@.len() && self.keyed(i, priority, destination)].size,
            )
        } else {
            None
        }
    }

    /// `next` holds the limits of this guard for every priority and destination
    /// but those kept with the limits of `priority` towards `destination`.
    pub open spec fn keeps_others(&self, next: Guard, priority: Priority, destination: NodeID) -> bool {
        forall|p: Priority, d: NodeID|
            !(self.key_priority(p) == self.key_priority(priority) && d == destination) ==> #[trigger] next.limit_of(
                p,
                d,
            ) == self.limit_of(p, d)
    }

    /// At most one limit is kept per priority and destination.
    pub open spec fn wf(&self) -> bool {
        forall|i: int, j: int|
            0 <= i < j < self.limits@.len() ==> !(#[trigger] self.limits@[i].priority
                == #[trigger] self.limits@[j].priority && self.limits@[i].destination
                == self.limits@[j].destination)
    }

    /// A unicast bundle that the known limits refuse.
    pub open spec fn refuses(&self, bundle: Bundle) -> bool {
        self.limit_of(bundle.priority, bundle.destinations@[0]) matches Some(l) && bundle.size <= l
    }

    /// A guard without any limit.
    pub fn new(with_priorities: bool) -> (r: Self)
        ensures
            r.wf(),
            r.with_priorities == with_priorities,
            r.limits@.len() == 0,
    {
        Guard { with_priorities, limits: Vec::new() }
    }

    fn find(&self, priority: Priority, destination: NodeID) -> (r: Option<usize>)
        requires
            self.wf(),
        ensures
            match r {
                Some(i) => i < self.limits@.len() && self.keyed(i as int, priority, destination)
                    && self.limit_of(priority, destination) == Some(self.limits@[i as int].size),
                None => self.limit_of(priority, destination) is None,
            },
    {
        let key = if self.with_priorities {
            priority
        } else {
            0
        };
        let mut i: usize = 0;
        while i < self.limits.len()
            invariant
                self.wf(),
                key == self.key_priority(priority),
                0 <= i <= self.limits@.len(),
                forall|j: int| 0 <= j < i ==> !self.keyed(j, priority, destination),
            decreases self.limits@.len() - i,
        {
            if self.limits[i].priority == key && self.limits[i].destination == destination {
                proof {
                    assert(self.keyed(i as int, priority, destination));
                    self.lemma_limit_at(i as int, priority, destination);
                }
                return Some(i);
            }
            i = i + 1;
        }
        None
    }

    /// Whether the known limits refuse the unicast `bundle`.
    pub fn must_abort(&self, bundle: &Bundle) -> (r: bool)
        requires
            self.wf(),
            bundle.destinations@.len() >= 1,
        ensures
            r == self.refuses(*bundle),
    {
        match self.find(bundle.priority, bundle.destinations[0]) {
            Some(i) => bundle.size <= self.limits[i].size,
            None => false,
        }
    }

    /// Records that `bundle` could not reach `destination`; a known limit is only lowered.
    pub fn add_limit(&mut self, bundle: &Bundle, destination: NodeID)
        requires
            old(self).wf(),
        ensures
            final(self).wf(),
            final(self).with_priorities == old(self).with_priorities,
            final(self).limit_of(bundle.priority, destination) == Some(
                match old(self).limit_of(bundle.priority, destination) {
                    Some(l) => if bundle.size < l {
                        bundle.size
                    } else {
                        l
                    },
                    None => bundle.size,
                },
            ),
            old(self).keeps_others(*final(self), bundle.priority, destination),
    {
        let ghost old_limits = self.limits@;
        match self.find(bundle.priority, destination) {
            Some(i) => {
                if bundle.size < self.limits[i].size {
                    let l = GuardLimit {
                        priority: self.limits[i].priority,
                        destination,
                        size: bundle.size,
                    };
                    self.limits.set(i, l);
                }
                proof {
                    assert forall|a: int, b: int| 0 <= a < b < self.limits@.len() implies !(#[trigger] self.limits@[a].priority
                        == #[trigger] self.limits@[b].priority && self.limits@[a].destination
                        == self.limits@[b].destination) by {
                        assert(old_limits[a].priority == self.limits@[a].priority);
                        assert(old_limits[b].priority == self.limits@[b].priority);
                    }
                    assert(self.keyed(i as int, bundle.priority, destination));
                    self.lemma_limit_at(i as int, bundle.priority, destination);
                    assert forall|p: Priority, d: NodeID|
                        !(old(self).key_priority(p) == old(self).key_priority(bundle.priority) && d
                            == destination) implies #[trigger] self.limit_of(p, d) == old(self).limit_of(p, d) by {
                        assert forall|j: int| 0 <= j < self.limits@.len() implies self.keyed(j, p, d)
                            == old(self).keyed(j, p, d) by {}
                        if exists|j: int| 0 <= j < self.limits@.len() && self.keyed(j, p, d) {
                            let j = choose|j: int| 0 <= j < self.limits@.len() && self.keyed(j, p, d);
                            assert(old(self).keyed(j, p, d));
                            old(self).lemma_limit_at(j, p, d);
                            self.lemma_limit_at(j, p, d);
                            assert(j != i);
                        }
                    }
                }
            },
            None => {
                let key = if self.with_priorities {
                    bundle.priority
                } else {
                    0
                };
                self.limits.push(GuardLimit { priority: key, destination, size: bundle.size });
                proof {
                    let n = old_limits.len() as int;
                    assert forall|a: int, b: int| 0 <= a < b < self.limits@.len() implies !(#[trigger] self.limits@[a].priority
                        == #[trigger] self.limits@[b].priority && self.limits@[a].destination
                        == self.limits@[b].destination) by {
                        if b == n {
                            assert(!old(self).keyed(a, bundle.priority, destination));
                        } else {
                            assert(old_limits[a] == self.limits@[a]);
                            assert(old_limits[b] == self.limits@[b]);
                        }
                    }
                    assert(self.keyed(n, bundle.priority, destination));
                    self.lemma_limit_at(n, bundle.priority, destination);
                    assert forall|p: Priority, d: NodeID|
                        !(old(self).key_priority(p) == old(self).key_priority(bundle.priority) && d
                            == destination) implies #[trigger] self.limit_of(p, d) == old(self).limit_of(p, d) by {
                        assert(!self.keyed(n, p, d));
                        assert forall|j: int| 0 <= j < n implies self.keyed(j, p, d) == old(self).keyed(j, p, d) by {
                            assert(old_limits[j] == self.limits@[j]);
                        }
                        if exists|j: int| 0 <= j < self.limits@.len() && self.keyed(j, p, d) {
                            let j = choose|j: int| 0 <= j < self.limits@.len() && self.keyed(j, p, d);
                            assert(old(self).keyed(j, p, d));
                            old(self).lemma_limit_at(j, p, d);
                            self.lemma_limit_at(j, p, d);
                        } else {
                            if exists|j: int| 0 <= j < n && old(self).keyed(j, p, d) {
                                let j = choose|j: int| 0 <= j < n && old(self).keyed(j, p, d);
                                assert(self.keyed(j, p, d));
                            }
                        }
                    }
                }
            },
        }
    }

    /// With one limit per key, the limit of a key is the one kept at its index.
    pub proof fn lemma_limit_at(&self, i: int, priority: Priority, destination: NodeID)
        requires
            self.wf(),
            0 <= i < self.limits@.len(),
            self.keyed(i, priority, destination),
        ensures
            self.limit_of(priority, destination) == Some(self.limits@[i].size),
    {
        let c = choose|c: int| 0 <= c < self.limits@.len() && self.keyed(c, priority, destination);
        if c != i {
            if c < i {
                assert(self.limits@[c].priority == self.limits@[i].priority);
            } else {
                assert(self.limits@[i].priority == self.limits@[c].priority);
            }
        }
    }
}

/// A route towards one destination, as taken from a pathfinding.
#[derive(Debug)]
pub struct Route {
    /// The stage that reaches the destination.
    pub destination_stage: RouteStage,
    /// The hops from the source to the destination, in the order of travel.
    pub path: Vec<PathHop>,
}

impl Route {
    /// The route that `tree` holds towards `destination`, if it reaches it.
    pub fn from_tree(tree: &PathFindingOutput, destination: NodeID) -> (r: Option<Route>)
        ensures
            r matches Some(route) ==> ((destination as int) < tree.by_destination@.len() && (
            tree.by_destination@[destination as int] matches Some(st) && route.path@ == path_of(st)
                && route.destination_stage.to_node == st.to_node && route.destination_stage.at_time
                == st.at_time && route.destination_stage.hop_count == st.hop_count)),
            r is None ==> (destination as int) >= tree.by_destination@.len()
                || tree.by_destination@[destination as int] is None,
    {
        let d = destination as usize;
        if d >= tree.by_destination.len() {
            return None;
        }
        match &tree.by_destination[d] {
            None => None,
            Some(st) => Some(Route { destination_stage: st.duplicate(), path: st.collect_path() }),
        }
    }
}

/// A store of pathfinding results that can be used again.
pub trait TreeStorage: Sized {
    /// The number of results held.
    spec fn count(&self) -> nat;

    /// The result at `i`.
    spec fn tree_at(&self, i: int) -> PathFindingOutput;

    /// Where the held result chosen for `bundle` at `curr_time` without
    /// `excluded_nodes` is held, if one is.
    spec fn selected(&self, bundle: Bundle, curr_time: Date, excluded_nodes: Seq<NodeID>) -> Option<int>;

    /// The destinations of `bundle` that the result at `i` still reaches at `curr_time`.
    spec fn reached_by(&self, i: int, bundle: Bundle, curr_time: Date) -> Seq<NodeID>;

    /// A held result that still routes `bundle` at `curr_time` without
    /// `excluded_nodes`, with the destinations it still reaches.
    fn select(&self, bundle: &Bundle, curr_time: Date, excluded_nodes: &[NodeID]) -> (r: Option<
        (usize, Vec<NodeID>),
    >)
        ensures
            r matches Some((i, reached)) ==> i < self.count() && reached@.len() > 0 && forall|k: int|
                0 <= k < reached@.len() ==> bundle.destinations@.contains(#[trigger] reached@[k]),
            (match r {
                Some((i, _)) => Some(i as int),
                None => None,
            }) == self.selected(*bundle, curr_time, excluded_nodes@),
            r matches Some((i, reached)) ==> reached@ == self.reached_by(i as int, *bundle, curr_time),
    ;

    /// `next` is this storage after holding `tree`, computed for `bundle`.
    spec fn stored(&self, next: Self, bundle: Bundle, tree: PathFindingOutput) -> bool;

    /// Holds `tree`, computed for `bundle`, and returns where it is held.
    fn store(&mut self, bundle: &Bundle, tree: PathFindingOutput) -> (r: usize)
        ensures
            r < final(self).count(),
            final(self).tree_at(r as int) == tree,
            old(self).stored(*final(self), *bundle, tree),
    ;

    /// The result held at `i`.
    fn get(&self, i: usize) -> (r: &PathFindingOutput)
        requires
            i < self.count(),
        ensures
            *r == self.tree_at(i as int),
    ;
}

/// A store of routes that can be used again.
pub trait RouteStorage<NM: NodeManager, CM: ContactManager>: Sized {
    /// The hops of the held route chosen for `bundle` at `curr_time` in
    /// `multigraph` without `excluded_nodes`, if one is.
    spec fn selected_path(
        &self,
        bundle: Bundle,
        curr_time: Date,
        multigraph: Multigraph<NM, CM>,
        excluded_nodes: Seq<NodeID>,
    ) -> Option<Seq<PathHop>>;

    /// The hops of a held route that `bundle` can still take from `curr_time`,
    /// avoiding `excluded_nodes`, and arrive no later than its expiration.
    fn select(
        &self,
        bundle: &Bundle,
        curr_time: Date,
        multigraph: &Multigraph<NM, CM>,
        excluded_nodes: &[NodeID],
    ) -> (r: Option<Vec<PathHop>>)
        requires
            multigraph.wf(),
        ensures
            r matches Some(path) ==> path_arrival(*multigraph, path@, curr_time, *bundle) matches Some(
                a,
            ) && a <= bundle.expiration,
            r matches Some(path) ==> bundle.destinations@.len() > 0 && path@.len() > 0
                && path@.last().rx_node == bundle.destinations@[0],
            (match r {
                Some(path) => Some(path@),
                None => None,
            }) == self.selected_path(*bundle, curr_time, *multigraph, excluded_nodes@),
    ;

    /// `route` is among the routes held.
    spec fn holds(&self, route: Route) -> bool;

    /// `next` is this storage after holding `route`, computed for `bundle`.
    spec fn stored(&self, next: Self, bundle: Bundle, route: Route) -> bool;

    /// Holds `route`, computed for `bundle`.
    fn store(&mut self, bundle: &Bundle, route: Route)
        ensures
            final(self).holds(route),
            old(self).stored(*final(self), *bundle, route),
    ;
}

} // verus!
