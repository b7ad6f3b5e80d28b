use vstd::prelude::*;
use crate::bundle::Bundle;
use crate::pathfinding::PathFindingOutput;
use crate::route_storage::TreeStorage;
use crate::types::{Date, NodeID};

verus! {

/// A bounded store of pathfinding results, the most recent ones kept.
#[derive(Debug)]
pub struct TreeCache {
    /// A result is only used again for bundles no larger than the one it was computed for.
    pub check_size: bool,
    /// A result is only used again for bundles of the priority it was computed for.
    pub check_priority: bool,
    /// The number of results kept.
    pub max_entries: usize,
    /// The results, oldest first.
    pub trees: Vec<PathFindingOutput>,
}

/// Whether the two lists hold the same nodes in the same order.
pub fn same_nodes(a: &[NodeID], b: &[NodeID]) -> (r: bool)
    ensures
        r == (a@ == b@),
{
    if a.len() != b.len() {
        return false;
    }
    let mut i: usize = 0;
    while i < a.len()
        invariant
            a@.len() == b@.len(),
            0 <= i <= a@.len(),
            forall|j: int| 0 <= j < i ==> a@[j] == b@[j],
        decreases a@.len() - i,
    {
        if a[i] != b[i] {
            return false;
        }
        i = i + 1;
    }
    assert(a@ =~= b@);
    true
}

/// The nodes of `dests`, in order, that `tree` reaches by a stage still valid
/// at `curr_time`, no later than `expiration`.
pub open spec fn still_reached_among(
    tree: PathFindingOutput,
    dests: Seq<NodeID>,
    curr_time: Date,
    expiration: Date,
) -> Seq<NodeID>
    decreases dests.len(),
{
    if dests.len() == 0 {
        Seq::empty()
    } else {
        let rest = still_reached_among(tree, dests.drop_last(), curr_time, expiration);
        let d = dests.last();
        if (d as int) < tree.by_destination@.len() && (tree.by_destination@[d as int] matches Some(st)
            && st.expiration >= curr_time && st.at_time <= expiration) {
            rest.push(d)
        } else {
            rest
        }
    }
}

impl TreeCache {
    /// An empty cache.
    pub fn new(check_size: bool, check_priority: bool, max_entries: usize) -> (r: Self)
        ensures
            r.check_size == check_size,
            r.check_priority == check_priority,
            r.max_entries == max_entries,
            r.trees@.len() == 0,
    {
        TreeCache { check_size, check_priority, max_entries, trees: Vec::new() }
    }

    /// The destinations of `bundle` that `tree` still reaches at `curr_time`, in time.
    fn still_reached(tree: &PathFindingOutput, bundle: &Bundle, curr_time: Date) -> (r: Vec<NodeID>)
        ensures
            forall|k: int| 0 <= k < r@.len() ==> bundle.destinations@.contains(#[trigger] r@[k]),
            r@ == still_reached_among(*tree, bundle.destinations@, curr_time, bundle.expiration),
    {
        let mut r: Vec<NodeID> = Vec::new();
        let mut i: usize = 0;
        assert(bundle.destinations@.take(0) =~= Seq::<NodeID>::empty());
        while i < bundle.destinations.len()
            invariant
                0 <= i <= bundle.destinations@.len(),
                forall|k: int| 0 <= k < r@.len() ==> bundle.destinations@.contains(#[trigger] r@[k]),
                r@ == still_reached_among(
                    *tree,
                    bundle.destinations@.take(i as int),
                    curr_time,
                    bundle.expiration,
                ),
            decreases bundle.destinations@.len() - i,
        {
            let d = bundle.destinations[i];
            assert(bundle.destinations@.take(i + 1).drop_last() =~= bundle.destinations@.take(i as int));
            assert(bundle.destinations@.take(i + 1).last() == d);
            if (d as usize) < tree.by_destination.len() {
                if let Some(st) = &tree.by_destination[d as usize] {
                    if st.expiration >= curr_time && st.at_time <= bundle.expiration {
                        r.push(d);
                        assert(bundle.destinations@[i as int] == d);
                    }
                }
            }
            i = i + 1;
        }
        assert(bundle.destinations@.take(bundle.destinations@.len() as int) =~= bundle.destinations@);
        r
    }

    /// The result at `i` was computed from the bundle's source with the same
    /// excluded nodes and, as configured, for a large enough bundle of the same priority.
    pub open spec fn answers(&self, i: int, bundle: Bundle, excluded_nodes: Seq<NodeID>) -> bool {
        let t = self.trees@[i];
        &&& t.excluded_nodes_sorted@ == excluded_nodes
        &&& t.source.to_node == bundle.source
        &&& (!self.check_size || bundle.size <= t.bundle.size)
        &&& (!self.check_priority || bundle.priority == t.bundle.priority)
    }

    /// The last result among the first `n` that is selectable.
    pub open spec fn last_selectable(
        &self,
        n: int,
        bundle: Bundle,
        curr_time: Date,
        excluded_nodes: Seq<NodeID>,
    ) -> Option<int>
        decreases n,
    {
        if n <= 0 {
            None
        } else if self.selectable(n - 1, bundle, curr_time, excluded_nodes) {
            Some(n - 1)
        } else {
            self.last_selectable(n - 1, bundle, curr_time, excluded_nodes)
        }
    }

    /// Results that are not selectable do not change which one is last selectable.
    pub proof fn lemma_last_selectable_skip(
        &self,
        i: int,
        n: int,
        bundle: Bundle,
        curr_time: Date,
        excluded_nodes: Seq<NodeID>,
    )
        requires
            0 <= i <= n,
            forall|j: int| i <= j < n ==> !self.selectable(j, bundle, curr_time, excluded_nodes),
        ensures
            self.last_selectable(n, bundle, curr_time, excluded_nodes) == self.last_selectable(
                i,
                bundle,
                curr_time,
                excluded_nodes,
            ),
        decreases n - i,
    {
        if n > i {
            self.lemma_last_selectable_skip(i, n - 1, bundle, curr_time, excluded_nodes);
        }
    }

    /// The result at `i` answers the request and still reaches some destination.
    pub open spec fn selectable(&self, i: int, bundle: Bundle, curr_time: Date, excluded_nodes: Seq<NodeID>) -> bool {
        &&& self.answers(i, bundle, excluded_nodes)
        &&& still_reached_among(self.trees@[i], bundle.destinations@, curr_time, bundle.expiration).len() > 0
    }
}

impl TreeStorage for TreeCache {
    open spec fn stored(&self, next: Self, bundle: Bundle, tree: PathFindingOutput) -> bool {
        &&& next.check_size == self.check_size
        &&& next.check_priority == self.check_priority
        &&& next.max_entries == self.max_entries
        &&& next.trees@ == if self.trees@.len() + 1 > self.max_entries && self.trees@.len() + 1 > 1 {
            self.trees@.push(tree).drop_first()
        } else {
            self.trees@.push(tree)
        }
    }

    open spec fn count(&self) -> nat {
        self.trees@.len()
    }

    open spec fn tree_at(&self, i: int) -> PathFindingOutput {
        self.trees@[i]
    }

    open spec fn reached_by(&self, i: int, bundle: Bundle, curr_time: Date) -> Seq<NodeID> {
        still_reached_among(self.trees@[i], bundle.destinations@, curr_time, bundle.expiration)
    }

    open spec fn selected(&self, bundle: Bundle, curr_time: Date, excluded_nodes: Seq<NodeID>) -> Option<int> {
        self.last_selectable(self.trees@.len() as int, bundle, curr_time, excluded_nodes)
    }

    /// The most recent result computed from the bundle's source with the same
    /// excluded nodes (and, as configured, for a large enough bundle of the same
    /// priority) that still reaches some destination of the bundle.
    fn select(&self, bundle: &Bundle, curr_time: Date, excluded_nodes: &[NodeID]) -> (r: Option<
        (usize, Vec<NodeID>),
    >)
        ensures
            match r {
                Some((i, reached)) => {
                    &&& self.selectable(i as int, *bundle, curr_time, excluded_nodes@)
                    &&& reached@ == still_reached_among(
                        self.trees@[i as int],
                        bundle.destinations@,
                        curr_time,
                        bundle.expiration,
                    )
                    &&& forall|j: int|
                        i < j < self.trees@.len() ==> !self.selectable(j, *bundle, curr_time, excluded_nodes@)
                },
                None => forall|j: int|
                    0 <= j < self.trees@.len() ==> !self.selectable(j, *bundle, curr_time, excluded_nodes@),
            },
    {
        let mut i: usize = self.trees.len();
        while i > 0
            invariant
                i <= self.trees@.len(),
                forall|j: int|
                    i <= j < self.trees@.len() ==> !self.selectable(j, *bundle, curr_time, excluded_nodes@),
            decreases i,
        {
            i = i - 1;
            let tree = &self.trees[i];
            let usable = same_nodes(tree.excluded_nodes_sorted.as_slice(), excluded_nodes)
                && tree.source.to_node == bundle.source && (!self.check_size || bundle.size
                <= tree.bundle.size) && (!self.check_priority || bundle.priority
                == tree.bundle.priority);
            if usable {
                let reached = Self::still_reached(tree, bundle, curr_time);
                if reached.len() > 0 {
                    proof {
                        self.lemma_last_selectable_skip(
                            i + 1,
                            self.trees@.len() as int,
                            *bundle,
                            curr_time,
                            excluded_nodes@,
                        );
                    }
                    return Some((i, reached));
                }
            }
        }
        proof {
            self.lemma_last_selectable_skip(0, self.trees@.len() as int, *bundle, curr_time, excluded_nodes@);
        }
        None
    }

    /// Keeps `tree` as the most recent result, forgetting the oldest one beyond `max_entries`.
    fn store(&mut self, _bundle: &Bundle, tree: PathFindingOutput) -> (r: usize)
        ensures
            final(self).check_size == old(self).check_size,
            final(self).check_priority == old(self).check_priority,
            final(self).max_entries == old(self).max_entries,
            final(self).trees@ == if old(self).trees@.len() + 1 > old(self).max_entries && old(
                self,
            ).trees@.len() + 1 > 1 {
                old(self).trees@.push(tree).drop_first()
            } else {
                old(self).trees@.push(tree)
            },
            r == final(self).trees@.len() - 1,
    {
        self.trees.push(tree);
        if self.trees.len() > self.max_entries && self.trees.len() > 1 {
            let _ = self.trees.remove(0);
        }
        self.trees.len() - 1
    }

    fn get(&self, i: usize) -> (r: &PathFindingOutput) {
        &self.trees[i]
    }
}

/// A result just stored is the one selected for a later bundle that it answers
/// (same source and excluded nodes, and, as configured, no larger and of the
/// same priority) and still routes to some destination.
pub proof fn law_cache_reuses_stored(
    c: TreeCache,
    c2: TreeCache,
    bundle: Bundle,
    tree: PathFindingOutput,
    later: Bundle,
    curr_time: Date,
    excluded_nodes: Seq<NodeID>,
)
    requires
        c.stored(c2, bundle, tree),
        tree.excluded_nodes_sorted@ == excluded_nodes,
        tree.source.to_node == later.source,
        c.check_size ==> later.size <= tree.bundle.size,
        c.check_priority ==> later.priority == tree.bundle.priority,
        still_reached_among(tree, later.destinations@, curr_time, later.expiration).len() > 0,
    ensures
        c2.count() > 0,
        c2.tree_at(c2.count() - 1) == tree,
        c2.selected(later, curr_time, excluded_nodes) == Some(c2.count() - 1),
{
    let n = c2.trees@.len() as int;
    if c.trees@.len() + 1 > c.max_entries && c.trees@.len() + 1 > 1 {
        assert(c2.trees@[n - 1] == c.trees@.push(tree)[n]);
    }
    assert(c2.trees@[n - 1] == tree);
    assert(c2.selectable(n - 1, later, curr_time, excluded_nodes));
}

/// A cached result still reaches a destination only by a stage that is still
/// valid at `curr_time` and arrives no later than `expiration`.
pub proof fn law_still_reached_in_time(
    tree: PathFindingOutput,
    dests: Seq<NodeID>,
    curr_time: Date,
    expiration: Date,
)
    ensures
        forall|k: int|
            0 <= k < still_reached_among(tree, dests, curr_time, expiration).len() ==> {
                let d = #[trigger] still_reached_among(tree, dests, curr_time, expiration)[k];
                &&& dests.contains(d)
                &&& (d as int) < tree.by_destination@.len()
                &&& tree.by_destination@[d as int] matches Some(st) && st.expiration >= curr_time && st.at_time
                    <= expiration
            },
    decreases dests.len(),
{
    if dests.len() > 0 {
        let init = dests.drop_last();
        law_still_reached_in_time(tree, init, curr_time, expiration);
        let r = still_reached_among(tree, dests, curr_time, expiration);
        let rest = still_reached_among(tree, init, curr_time, expiration);
        assert forall|k: int| 0 <= k < r.len() implies {
            let d = #[trigger] r[k];
            &&& dests.contains(d)
            &&& (d as int) < tree.by_destination@.len()
            &&& tree.by_destination@[d as int] matches Some(st) && st.expiration >= curr_time && st.at_time
                <= expiration
        } by {
            if k < rest.len() {
                assert(r[k] == rest[k]);
                let d = rest[k];
                let j = choose|j: int| 0 <= j < init.len() && init[j] == d;
                assert(dests[j] == d);
            } else {
                assert(dests[dests.len() - 1] == dests.last());
            }
        }
    }
}

} // verus!
