use vstd::prelude::*;
use crate::bundle::{same_bundle, Bundle};
use crate::errors::ASABRError;
use crate::multigraph::Multigraph;
use crate::contact::Contact;
use crate::distance::next_hop_count;
use crate::contact_manager::{ContactManager, ContactManagerTxData};
use crate::node::Node;
use crate::node_manager::NodeManager;
use crate::route_stage::{lemma_same_stage_path, path_of, same_stage, PathHop, RouteStage, ViaHop};
use crate::routing::{hop_result, path_arrival};
use crate::types::{min_u64, sat_add, sat_sub, Date, NodeID, DATE_MAX};

pub mod node_parenting;

verus! {

/// The result of a pathfinding: the stage by which each node is best reached
/// from the source, for one bundle and one set of excluded nodes.
#[derive(Debug)]
pub struct PathFindingOutput {
    /// The bundle for which the pathfinding is performed.
    pub bundle: Bundle,
    /// The stage from which the pathfinding is performed.
    pub source: RouteStage,
    /// The nodes excluded from the pathfinding, in increasing order.
    pub excluded_nodes_sorted: Vec<NodeID>,
    /// The stage by which each node is reached, indexed by node, if it is reached.
    pub by_destination: Vec<Option<RouteStage>>,
}

/// What a search keeps to: which stages it prefers, and whether it goes
/// through excluded nodes.
pub trait SearchPolicy {
    /// Whether the search never goes through an excluded node.
    spec fn avoids_excluded() -> bool;

    /// The search prefers a stage with `a_hops` hops arriving at `a_at` to one
    /// with `b_hops` hops arriving at `b_at`.
    spec fn stage_better(a_hops: u32, a_at: Date, b_hops: u32, b_at: Date) -> bool;
}

/// A way of computing, from a source, the stages by which the nodes of a
/// multigraph are reached.
pub trait Pathfinding<NM: NodeManager, CM: ContactManager>: SearchPolicy + Sized {
    /// Creates the pathfinding.
    fn new() -> Self;


    /// Computes the stages by which the nodes of `multigraph` are reached by
    /// `bundle`, sent from `source` at `current_time`.
    fn get_next(
        &mut self,
        multigraph: &Multigraph<NM, CM>,
        current_time: Date,
        source: NodeID,
        bundle: &Bundle,
        excluded_nodes_sorted: &[NodeID],
    ) -> (r: Result<PathFindingOutput, ASABRError>)
        requires
            multigraph.wf(),
        ensures
            match r {
                Ok(out) => search_result(
                    *multigraph,
                    current_time,
                    source,
                    *bundle,
                    excluded_nodes_sorted@,
                    Self::avoids_excluded(),
                    out,
                ) && search_optimal::<NM, CM, Self>(*multigraph, *bundle, excluded_nodes_sorted@, out),
                Err(e) => e == ASABRError::NodeOutOfRange && source >= multigraph.nodes@.len(),
            },
    ;
}

/// `out` is a result of a search in `multigraph` for `bundle` from `source` at
/// `current_time` without `excluded_nodes`: it has a slot per node, keeps the
/// bundle and the excluded nodes (sorted), reaches the source at once, and
/// reaches every other node it reaches by a stage that its hops, walked in the
/// graph from the source, bring the bundle to at the stage's date, through no
/// excluded node where `avoiding`; every hop from a reached node leads to a
/// reached node, the source, an excluded node, or nowhere.
pub open spec fn search_result<NM: NodeManager, CM: ContactManager>(
    multigraph: Multigraph<NM, CM>,
    current_time: Date,
    source: NodeID,
    bundle: Bundle,
    excluded_nodes: Seq<NodeID>,
    avoiding: bool,
    out: PathFindingOutput,
) -> bool {
    &&& out.by_destination@.len() == multigraph.nodes@.len()
    &&& same_bundle(out.bundle, bundle)
    &&& ascending(out.excluded_nodes_sorted@)
    &&& out.excluded_nodes_sorted@.to_multiset() == excluded_nodes.to_multiset()
    &&& out.source.at_time == current_time && out.source.to_node == source && out.source.via is None
    &&& out.by_destination@[source as int] matches Some(st) && st.at_time == current_time && st.via is None
    &&& forall|j: int|
        0 <= j < out.by_destination@.len() ==> ((#[trigger] out.by_destination@[j]) matches Some(st)
            ==> st.to_node == j && walked_from(multigraph, st, source, current_time, bundle))
    &&& avoiding ==> forall|j: int|
        0 <= j < out.by_destination@.len() ==> ((#[trigger] out.by_destination@[j]) matches Some(st) ==> avoids(
            st,
            excluded_nodes,
        ))
    &&& forall|u: int, k: int|
        0 <= u < out.by_destination@.len() && 0 <= k < multigraph.senders@[u]@.len()
            && out.by_destination@[u] is Some ==> #[trigger] relaxed(
            multigraph,
            out,
            source,
            bundle,
            excluded_nodes,
            u,
            k,
        )
}

/// No hop that `try_make_hop` would make from a reached node gives its
/// receiver a stage that `P` prefers to the one it holds (or leaves it
/// unreached), an excluded receiver aside where `P` avoids excluded nodes.
pub open spec fn search_optimal<NM: NodeManager, CM: ContactManager, P: SearchPolicy>(
    multigraph: Multigraph<NM, CM>,
    bundle: Bundle,
    excluded_nodes: Seq<NodeID>,
    out: PathFindingOutput,
) -> bool {
    forall|u: int, k: int|
        0 <= u < out.by_destination@.len() && 0 <= k < multigraph.senders@[u]@.len()
            && out.by_destination@[u] is Some ==> #[trigger] no_better_hop::<NM, CM, P>(
            multigraph,
            out,
            bundle,
            excluded_nodes,
            u,
            k,
        )
}

/// The hop that `try_make_hop` would make from the stage of the reached node
/// `u` over its receiver at slot `k` gives nothing, or a stage that `P` does
/// not prefer to the one the receiver holds (an excluded receiver aside where
/// `P` avoids excluded nodes).
pub open spec fn no_better_hop<NM: NodeManager, CM: ContactManager, P: SearchPolicy>(
    multigraph: Multigraph<NM, CM>,
    out: PathFindingOutput,
    bundle: Bundle,
    excluded_nodes: Seq<NodeID>,
    u: int,
    k: int,
) -> bool {
    let v = multigraph.senders@[u]@[k].rx;
    let su = out.by_destination@[u]->0;
    ||| P::avoids_excluded() && excluded_nodes.contains(v)
    ||| match best_hop(
        0,
        su,
        bundle,
        multigraph.senders@[u]@[k].contacts@,
        multigraph.nodes@[u],
        multigraph.nodes@[v as int],
    ) {
        None => true,
        Some((_m, h)) => out.by_destination@[v as int] matches Some(sv) && !P::stage_better(
            next_hop_count(su.hop_count),
            h.arrival,
            sv.hop_count,
            sv.at_time,
        ),
    }
}

/// No hop of the route of `stage` ends at an excluded node.
pub open spec fn avoids(stage: RouteStage, excluded_nodes: Seq<NodeID>) -> bool {
    forall|i: int| 0 <= i < path_of(stage).len() ==> !excluded_nodes.contains(#[trigger] path_of(stage)[i].rx_node)
}

/// The hop that `try_make_hop` would make from the stage of the reached node
/// `u` over the contacts to its receiver at slot `k` gives nothing, or that
/// receiver is the source, an excluded node, or reached.
pub open spec fn relaxed<NM: NodeManager, CM: ContactManager>(
    multigraph: Multigraph<NM, CM>,
    out: PathFindingOutput,
    source: NodeID,
    bundle: Bundle,
    excluded_nodes: Seq<NodeID>,
    u: int,
    k: int,
) -> bool {
    let v = multigraph.senders@[u]@[k].rx;
    ||| v == source
    ||| excluded_nodes.contains(v)
    ||| out.by_destination@[v as int] is Some
    ||| best_hop(
        0,
        out.by_destination@[u]->0,
        bundle,
        multigraph.senders@[u]@[k].contacts@,
        multigraph.nodes@[u],
        multigraph.nodes@[v as int],
    ) is None
}

/// The hop that `try_make_hop` makes depends on the sender's stage only through its date.
pub proof fn lemma_best_hop_at<NM: NodeManager, CM: ContactManager>(
    first: int,
    a: RouteStage,
    b: RouteStage,
    bundle: Bundle,
    contacts: Seq<Contact<CM>>,
    tx_node: Node<NM>,
    rx_node: Node<NM>,
)
    requires
        a.at_time == b.at_time,
    ensures
        best_hop(first, a, bundle, contacts, tx_node, rx_node) == best_hop(first, b, bundle, contacts, tx_node, rx_node),
{
}

/// The node identifiers are in increasing order.
pub open spec fn ascending(s: Seq<NodeID>) -> bool {
    forall|i: int, j: int| 0 <= i < j < s.len() ==> s[i] <= s[j]
}

/// The identifiers of `nodes`, each as often as there, in increasing order.
pub fn sorted_nodes(nodes: &[NodeID]) -> (r: Vec<NodeID>)
    ensures
        ascending(r@),
        r@.to_multiset() == nodes@.to_multiset(),
{
    let mut r: Vec<NodeID> = Vec::new();
    let mut i: usize = 0;
    assert(nodes@.take(0) =~= Seq::<NodeID>::empty());
    while i < nodes.len()
        invariant
            0 <= i <= nodes@.len(),
            ascending(r@),
            r@.to_multiset() == nodes@.take(i as int).to_multiset(),
        decreases nodes@.len() - i,
    {
        let x = nodes[i];
        let mut p: usize = 0;
        while p < r.len() && r[p] <= x
            invariant
                0 <= p <= r@.len(),
                forall|k: int| 0 <= k < p ==> r@[k] <= x,
            decreases r@.len() - p,
        {
            p = p + 1;
        }
        let ghost before = r@;
        r.insert(p, x);
        proof {
            assert(p < before.len() ==> x < before[p as int]);
            assert forall|a: int, b: int| 0 <= a < b < r@.len() implies r@[a] <= r@[b] by {
                if b < p {
                } else if b == p {
                    assert(r@[a] == before[a]);
                } else if a < p {
                    assert(r@[b] == before[b - 1]);
                    assert(before[p as int] <= before[b - 1]);
                } else if a == p {
                    assert(r@[b] == before[b - 1]);
                    assert(before[p as int] <= before[b - 1]);
                } else {
                    assert(r@[a] == before[a - 1]);
                    assert(r@[b] == before[b - 1]);
                }
            }
            vstd::seq_lib::to_multiset_insert(before, p as int, x);
            assert(nodes@.take(i + 1) =~= nodes@.take(i as int).push(x));
            vstd::seq_lib::to_multiset_build(nodes@.take(i as int), x);
        }
        i = i + 1;
    }
    assert(nodes@.take(nodes@.len() as int) =~= nodes@);
    r
}

impl PathFindingOutput {
    /// An output for `bundle` from `source`, excluding `excluded_nodes_sorted`
    /// (kept in increasing order), in which none of the `node_count` nodes is
    /// reached yet.
    pub fn new(
        bundle: &Bundle,
        source: RouteStage,
        excluded_nodes_sorted: &[NodeID],
        node_count: usize,
    ) -> (r: Self)
        ensures
            same_bundle(r.bundle, *bundle),
            r.source == source,
            ascending(r.excluded_nodes_sorted@),
            r.excluded_nodes_sorted@.to_multiset() == excluded_nodes_sorted@.to_multiset(),
            r.by_destination@.len() == node_count,
            forall|i: int| 0 <= i < node_count ==> (#[trigger] r.by_destination@[i]) is None,
    {
        let exclusions = sorted_nodes(excluded_nodes_sorted);
        let mut by_destination: Vec<Option<RouteStage>> = Vec::new();
        let mut k: usize = 0;
        while k < node_count
            invariant
                0 <= k <= node_count,
                by_destination@.len() == k,
                forall|j: int| 0 <= j < k ==> (#[trigger] by_destination@[j]) is None,
            decreases node_count - k,
        {
            by_destination.push(None);
            k = k + 1;
        }
        PathFindingOutput {
            bundle: bundle.duplicate(),
            source,
            excluded_nodes_sorted: exclusions,
            by_destination,
        }
    }

    /// A copy of the source stage.
    pub fn get_source_route(&self) -> (r: RouteStage)
        ensures
            same_stage(r, self.source),
    {
        self.source.duplicate()
    }

    /// Sets up the route of the stage that reaches `destination`, if it is reached:
    /// the pathfinding finds the path backwards, this lays it out from the source.
    pub fn init_for_destination(&mut self, destination: NodeID) -> (r: Result<(), ASABRError>)
        requires
            (destination as int) < old(self).by_destination@.len(),
        ensures
            r is Ok,
            final(self).by_destination@.len() == old(self).by_destination@.len(),
            forall|i: int|
                0 <= i < old(self).by_destination@.len() && i != destination
                    ==> #[trigger] final(self).by_destination@[i] == old(self).by_destination@[i],
            match (old(self).by_destination@[destination as int], final(self).by_destination@[destination as int]) {
                (None, None) => true,
                (Some(a), Some(b)) => b.route@ == path_of(a) && path_of(b) == path_of(a)
                    && b.at_time == a.at_time && b.to_node == a.to_node && b.hop_count == a.hop_count
                    && b.expiration == a.expiration && b.cumulative_delay == a.cumulative_delay,
                _ => false,
            },
            final(self).source == old(self).source,
            final(self).excluded_nodes_sorted@ == old(self).excluded_nodes_sorted@,
    {
        let d = destination as usize;
        if self.by_destination[d].is_some() {
            let mut slot: Option<RouteStage> = None;
            std::mem::swap(&mut slot, &mut self.by_destination[d]);
            if let Some(mut route) = slot {
                route.init_route();
                self.by_destination.set(d, Some(route));
            }
        }
        Ok(())
    }
}

/// What `contact` gives `bundle` sent at `at_time` from `tx_node` to `rx_node`:
/// nothing where the contact is suppressed, its manager has no room, or one of
/// the nodes refuses the transmission.
pub open spec fn usable_hop<NM: NodeManager, CM: ContactManager>(
    contact: Contact<CM>,
    at_time: Date,
    bundle: Bundle,
    tx_node: Node<NM>,
    rx_node: Node<NM>,
) -> Option<ContactManagerTxData> {
    if contact.suppressed {
        None
    } else {
        match contact.manager.tx_spec(contact.info, at_time, bundle.priority, bundle.size) {
            None => None,
            Some(h) => if tx_node.manager.tx_accepts(at_time, h.tx_start, h.tx_end, bundle)
                && rx_node.manager.rx_accepts(sat_add(h.tx_start, h.delay), h.arrival, bundle) {
                Some(h)
            } else {
                None
            },
        }
    }
}

/// The arrival that `contact` gives, or `DATE_MAX` where it gives nothing.
pub open spec fn hop_arrival<NM: NodeManager, CM: ContactManager>(
    contact: Contact<CM>,
    at_time: Date,
    bundle: Bundle,
    tx_node: Node<NM>,
    rx_node: Node<NM>,
) -> Date {
    match usable_hop(contact, at_time, bundle, tx_node, rx_node) {
        Some(h) => h.arrival,
        None => DATE_MAX,
    }
}

/// The earliest arrival that the contacts in `[first, k)` give.
pub open spec fn best_arrival<NM: NodeManager, CM: ContactManager>(
    contacts: Seq<Contact<CM>>,
    first: int,
    k: int,
    at_time: Date,
    bundle: Bundle,
    tx_node: Node<NM>,
    rx_node: Node<NM>,
) -> Date
    decreases k - first,
{
    if k <= first {
        DATE_MAX
    } else {
        min_u64(
            best_arrival(contacts, first, k - 1, at_time, bundle, tx_node, rx_node),
            hop_arrival(contacts[k - 1], at_time, bundle, tx_node, rx_node),
        )
    }
}

/// The contact at `k` opens after the best arrival found before it, so that the
/// (start-ordered) contacts from `k` on are not looked at.
pub open spec fn prunes<NM: NodeManager, CM: ContactManager>(
    contacts: Seq<Contact<CM>>,
    first: int,
    k: int,
    at_time: Date,
    bundle: Bundle,
    tx_node: Node<NM>,
    rx_node: Node<NM>,
) -> bool {
    !contacts[k].suppressed && contacts[k].info.start > best_arrival(
        contacts,
        first,
        k,
        at_time,
        bundle,
        tx_node,
        rx_node,
    )
}

/// Where the look-up of contacts stops: the first pruning contact, or the end.
pub open spec fn scan_end<NM: NodeManager, CM: ContactManager>(
    contacts: Seq<Contact<CM>>,
    first: int,
    at_time: Date,
    bundle: Bundle,
    tx_node: Node<NM>,
    rx_node: Node<NM>,
) -> int {
    if exists|k: int|
        first <= k < contacts.len() && prunes(contacts, first, k, at_time, bundle, tx_node, rx_node) {
        choose|k: int|
            first <= k < contacts.len() && prunes(contacts, first, k, at_time, bundle, tx_node, rx_node)
                && forall|j: int|
                first <= j < k ==> !prunes(contacts, first, j, at_time, bundle, tx_node, rx_node)
    } else if first <= contacts.len() {
        contacts.len() as int
    } else {
        first
    }
}

/// `stage` is the stage that the hop `h` on the contact at `index` leads to from `sndr`.
pub open spec fn is_hop_stage<NM: NodeManager, CM: ContactManager>(
    stage: RouteStage,
    sndr: RouteStage,
    contact: Contact<CM>,
    index: int,
    h: ContactManagerTxData,
    tx_node: Node<NM>,
    rx_node: Node<NM>,
) -> bool {
    &&& stage.at_time == h.arrival
    &&& stage.to_node == contact.info.rx_node
    &&& stage.via matches Some(v) && v.contact == index && v.tx_node == tx_node.info.id
        && v.rx_node == rx_node.info.id && same_stage(*v.parent_route, sndr)
    &&& stage.hop_count == if sndr.hop_count == 0xffff_ffff {
        sndr.hop_count
    } else {
        (sndr.hop_count + 1) as u32
    }
    &&& stage.cumulative_delay == sat_add(sndr.cumulative_delay, h.delay)
    &&& stage.expiration == min_u64(sat_sub(h.expiration, sndr.cumulative_delay), sndr.expiration)
    &&& stage.route@ == Seq::<crate::route_stage::PathHop>::empty()
}

/// The hop that `try_make_hop` makes: among the contacts from `first` until the
/// look-up stops, the first one that gives the earliest arrival.
pub open spec fn best_hop<NM: NodeManager, CM: ContactManager>(
    first: int,
    sndr: RouteStage,
    bundle: Bundle,
    contacts: Seq<Contact<CM>>,
    tx_node: Node<NM>,
    rx_node: Node<NM>,
) -> Option<(int, ContactManagerTxData)> {
    let at = sndr.at_time;
    let n = scan_end(contacts, first, at, bundle, tx_node, rx_node);
    let b = best_arrival(contacts, first, n, at, bundle, tx_node, rx_node);
    if b < DATE_MAX {
        let m = choose|m: int|
            first <= m < n && hop_arrival(contacts[m], at, bundle, tx_node, rx_node) == b && forall|
                j: int,
            |
                first <= j < m ==> hop_arrival(contacts[j], at, bundle, tx_node, rx_node) != b;
        match usable_hop(contacts[m], at, bundle, tx_node, rx_node) {
            Some(h) => Some((m, h)),
            None => None,
        }
    } else {
        None
    }
}

pub proof fn lemma_best_arrival_le<NM: NodeManager, CM: ContactManager>(
    contacts: Seq<Contact<CM>>,
    first: int,
    k: int,
    j: int,
    at_time: Date,
    bundle: Bundle,
    tx_node: Node<NM>,
    rx_node: Node<NM>,
)
    requires
        first <= j < k,
    ensures
        best_arrival(contacts, first, k, at_time, bundle, tx_node, rx_node) <= hop_arrival(
            contacts[j],
            at_time,
            bundle,
            tx_node,
            rx_node,
        ),
    decreases k - first,
{
    if j < k - 1 {
        lemma_best_arrival_le(contacts, first, k - 1, j, at_time, bundle, tx_node, rx_node);
    }
}

/// Where some contact prunes, a first one does.
pub proof fn lemma_first_prune_exists<NM: NodeManager, CM: ContactManager>(
    contacts: Seq<Contact<CM>>,
    first: int,
    k: int,
    at_time: Date,
    bundle: Bundle,
    tx_node: Node<NM>,
    rx_node: Node<NM>,
)
    requires
        first <= k < contacts.len(),
        prunes(contacts, first, k, at_time, bundle, tx_node, rx_node),
    ensures
        exists|m: int|
            first <= m < contacts.len() && prunes(contacts, first, m, at_time, bundle, tx_node, rx_node)
                && forall|j: int|
                first <= j < m ==> !prunes(contacts, first, j, at_time, bundle, tx_node, rx_node),
    decreases k - first,
{
    if !(forall|j: int|
        first <= j < k ==> !prunes(contacts, first, j, at_time, bundle, tx_node, rx_node)) {
        let j = choose|j: int|
            first <= j < k && prunes(contacts, first, j, at_time, bundle, tx_node, rx_node);
        lemma_first_prune_exists(contacts, first, j, at_time, bundle, tx_node, rx_node);
    }
}

/// An arrival better than "never" is the arrival of a first contact that gives it.
pub proof fn lemma_best_attained<NM: NodeManager, CM: ContactManager>(
    contacts: Seq<Contact<CM>>,
    first: int,
    k: int,
    at_time: Date,
    bundle: Bundle,
    tx_node: Node<NM>,
    rx_node: Node<NM>,
)
    requires
        best_arrival(contacts, first, k, at_time, bundle, tx_node, rx_node) < DATE_MAX,
    ensures
        exists|m: int|
            first <= m < k && hop_arrival(contacts[m], at_time, bundle, tx_node, rx_node)
                == best_arrival(contacts, first, k, at_time, bundle, tx_node, rx_node) && forall|j: int|
                first <= j < m ==> hop_arrival(contacts[j], at_time, bundle, tx_node, rx_node)
                    != best_arrival(contacts, first, k, at_time, bundle, tx_node, rx_node),
    decreases k - first,
{
    let b = best_arrival(contacts, first, k, at_time, bundle, tx_node, rx_node);
    let prev = best_arrival(contacts, first, k - 1, at_time, bundle, tx_node, rx_node);
    let last = hop_arrival(contacts[k - 1], at_time, bundle, tx_node, rx_node);
    if prev <= last {
        lemma_best_attained(contacts, first, k - 1, at_time, bundle, tx_node, rx_node);
    } else {
        assert forall|j: int| first <= j < k - 1 implies hop_arrival(
            contacts[j],
            at_time,
            bundle,
            tx_node,
            rx_node,
        ) != b by {
            lemma_best_arrival_le(contacts, first, k - 1, j, at_time, bundle, tx_node, rx_node);
        }
        assert(hop_arrival(contacts[k - 1], at_time, bundle, tx_node, rx_node) == b);
    }
}

/// The hop that `try_make_hop` makes is taken on a contact that was looked at,
/// and it arrives no later than any other contact looked at.
pub proof fn law_best_hop_is_earliest<NM: NodeManager, CM: ContactManager>(
    first: int,
    sndr: RouteStage,
    bundle: Bundle,
    contacts: Seq<Contact<CM>>,
    tx_node: Node<NM>,
    rx_node: Node<NM>,
)
    ensures
        best_hop(first, sndr, bundle, contacts, tx_node, rx_node) matches Some((m, h)) ==> {
            let n = scan_end(contacts, first, sndr.at_time, bundle, tx_node, rx_node);
            &&& first <= m < n <= contacts.len()
            &&& usable_hop(contacts[m], sndr.at_time, bundle, tx_node, rx_node) == Some(h)
            &&& forall|j: int|
                first <= j < n ==> h.arrival <= hop_arrival(
                    contacts[j],
                    sndr.at_time,
                    bundle,
                    tx_node,
                    rx_node,
                )
        },
{
    let at = sndr.at_time;
    if exists|k: int| first <= k < contacts.len() && prunes(contacts, first, k, at, bundle, tx_node, rx_node) {
        let k = choose|k: int|
            first <= k < contacts.len() && prunes(contacts, first, k, at, bundle, tx_node, rx_node);
        lemma_first_prune_exists(contacts, first, k, at, bundle, tx_node, rx_node);
    }
    let n = scan_end(contacts, first, at, bundle, tx_node, rx_node);
    let b = best_arrival(contacts, first, n, at, bundle, tx_node, rx_node);
    if b < DATE_MAX {
        lemma_best_attained(contacts, first, n, at, bundle, tx_node, rx_node);
        assert forall|j: int| first <= j < n implies b <= hop_arrival(
            contacts[j],
            at,
            bundle,
            tx_node,
            rx_node,
        ) by {
            lemma_best_arrival_le(contacts, first, n, j, at, bundle, tx_node, rx_node);
        }
    }
}

/// Over contacts ordered by opening date, none of which gives an arrival before
/// it opens, the hop that `try_make_hop` makes arrives no later than any of the
/// contacts from `first` on, those it did not look at included.
pub proof fn law_best_hop_earliest_overall<NM: NodeManager, CM: ContactManager>(
    first: int,
    sndr: RouteStage,
    bundle: Bundle,
    contacts: Seq<Contact<CM>>,
    tx_node: Node<NM>,
    rx_node: Node<NM>,
)
    requires
        0 <= first,
        forall|i: int, j: int|
            0 <= i < j < contacts.len() ==> #[trigger] contacts[i].info.start <= #[trigger] contacts[j].info.start,
        forall|k: int|
            0 <= k < contacts.len() ==> hop_arrival(#[trigger] contacts[k], sndr.at_time, bundle, tx_node, rx_node)
                >= contacts[k].info.start,
    ensures
        best_hop(first, sndr, bundle, contacts, tx_node, rx_node) matches Some((m, h)) ==> forall|j: int|
            first <= j < contacts.len() ==> h.arrival <= hop_arrival(
                #[trigger] contacts[j],
                sndr.at_time,
                bundle,
                tx_node,
                rx_node,
            ),
{
    let at = sndr.at_time;
    law_best_hop_is_earliest(first, sndr, bundle, contacts, tx_node, rx_node);
    if let Some((m, h)) = best_hop(first, sndr, bundle, contacts, tx_node, rx_node) {
        let n = scan_end(contacts, first, at, bundle, tx_node, rx_node);
        let b = best_arrival(contacts, first, n, at, bundle, tx_node, rx_node);
        assert(h.arrival == hop_arrival(contacts[m], at, bundle, tx_node, rx_node));
        if exists|k: int| first <= k < contacts.len() && prunes(contacts, first, k, at, bundle, tx_node, rx_node) {
            let k = choose|k: int|
                first <= k < contacts.len() && prunes(contacts, first, k, at, bundle, tx_node, rx_node);
            lemma_first_prune_exists(contacts, first, k, at, bundle, tx_node, rx_node);
            assert(prunes(contacts, first, n, at, bundle, tx_node, rx_node));
            lemma_best_arrival_le(contacts, first, n, m, at, bundle, tx_node, rx_node);
            lemma_best_attained(contacts, first, n, at, bundle, tx_node, rx_node);
            assert(h.arrival == b);
            assert forall|j: int| first <= j < contacts.len() implies h.arrival <= hop_arrival(
                #[trigger] contacts[j],
                at,
                bundle,
                tx_node,
                rx_node,
            ) by {
                if j >= n {
                    if j > n {
                        assert(contacts[n].info.start <= contacts[j].info.start);
                    }
                }
            }
        }
    }
}

/// The hop that `try_make_hop` makes starts no earlier than the sender's date
/// and arrives when its transmission ends plus the contact's delay (saturating).
pub proof fn law_hop_arrival_is_end_plus_delay<NM: NodeManager, CM: ContactManager>(
    first: int,
    sndr: RouteStage,
    bundle: Bundle,
    contacts: Seq<Contact<CM>>,
    tx_node: Node<NM>,
    rx_node: Node<NM>,
    m: int,
    h: ContactManagerTxData,
)
    requires
        0 <= first,
        forall|i: int| 0 <= i < contacts.len() ==> (#[trigger] contacts[i]).manager.wf(),
        best_hop(first, sndr, bundle, contacts, tx_node, rx_node) == Some((m, h)),
    ensures
        sndr.at_time <= h.tx_start <= h.tx_end,
        h.arrival == sat_add(h.tx_end, h.delay),
{
    assert(0 <= m < contacts.len() && usable_hop(contacts[m], sndr.at_time, bundle, tx_node, rx_node) == Some(h))
        by {
        law_best_hop_is_earliest(first, sndr, bundle, contacts, tx_node, rx_node);
    }
    let c = contacts[m];
    c.manager.lemma_tx_not_before(c.info, sndr.at_time, bundle.priority, bundle.size);
}

/// The stage that `try_make_hop` makes over the contact at `m`, transmitted as
/// `h`: it arrives when the transmission does, at the contact's receiving node,
/// one hop further, with the transmission's delay added and its expiration (less
/// the delay so far) as a bound, and its hops are those of the sender's stage
/// followed by that contact.
pub proof fn law_hop_stage_fields<NM: NodeManager, CM: ContactManager>(
    first: int,
    sndr: RouteStage,
    bundle: Bundle,
    contacts: Seq<Contact<CM>>,
    tx_node: Node<NM>,
    rx_node: Node<NM>,
    m: int,
    h: ContactManagerTxData,
    stage: RouteStage,
)
    requires
        best_hop(first, sndr, bundle, contacts, tx_node, rx_node) == Some((m, h)),
        is_hop_stage(stage, sndr, contacts[m], m, h, tx_node, rx_node),
    ensures
        stage.at_time == h.arrival,
        stage.to_node == contacts[m].info.rx_node,
        stage.hop_count == if sndr.hop_count == 0xffff_ffff {
            sndr.hop_count
        } else {
            (sndr.hop_count + 1) as u32
        },
        stage.cumulative_delay == sat_add(sndr.cumulative_delay, h.delay),
        stage.expiration == min_u64(sat_sub(h.expiration, sndr.cumulative_delay), sndr.expiration),
        path_of(stage) == path_of(sndr).push(
            PathHop { contact: m as usize, tx_node: tx_node.info.id, rx_node: rx_node.info.id },
        ),
        usable_hop(contacts[m], sndr.at_time, bundle, tx_node, rx_node) == Some(h),
{
    law_best_hop_is_earliest(first, sndr, bundle, contacts, tx_node, rx_node);
    let v = stage.via->Some_0;
    lemma_same_stage_path(*v.parent_route, sndr);
}

/// `path` leads from `from` to `to`, each hop leaving the node that the one
/// before it reached.
pub open spec fn leads(path: Seq<PathHop>, from: NodeID, to: NodeID) -> bool
    decreases path.len(),
{
    if path.len() == 0 {
        from == to
    } else {
        path.last().rx_node == to && leads(path.drop_last(), from, path.last().tx_node)
    }
}

/// The hops of `stage` lead from `source` to its node, and, walked in `graph`
/// from `at_time` with each hop taken as soon as the one before it arrives,
/// bring `bundle` there at the stage's date.
pub open spec fn walked_from<NM: NodeManager, CM: ContactManager>(
    graph: Multigraph<NM, CM>,
    stage: RouteStage,
    source: NodeID,
    at_time: Date,
    bundle: Bundle,
) -> bool {
    &&& leads(path_of(stage), source, stage.to_node)
    &&& path_arrival(graph, path_of(stage), at_time, bundle) == Some(stage.at_time)
}

/// The stage with no hop at `source` at `at_time` is walked from `source`.
pub proof fn lemma_source_walked<NM: NodeManager, CM: ContactManager>(
    graph: Multigraph<NM, CM>,
    stage: RouteStage,
    bundle: Bundle,
)
    requires
        stage.via is None,
    ensures
        walked_from(graph, stage, stage.to_node, stage.at_time, bundle),
{
    assert(path_of(stage) =~= Seq::<PathHop>::empty());
}

/// A hop made over the contact at `m` of the receiver at slot `k` of node `u`,
/// from a stage walked from `source`, gives a stage walked from `source` too.
pub proof fn lemma_hop_walked<NM: NodeManager, CM: ContactManager>(
    graph: Multigraph<NM, CM>,
    sndr: RouteStage,
    stage: RouteStage,
    u: int,
    k: int,
    m: int,
    h: ContactManagerTxData,
    source: NodeID,
    at_time: Date,
    bundle: Bundle,
)
    requires
        graph.wf(),
        0 <= u < graph.nodes@.len(),
        0 <= k < graph.senders@[u]@.len(),
        0 <= m < graph.senders@[u]@[k].contacts@.len(),
        sndr.to_node == u,
        walked_from(graph, sndr, source, at_time, bundle),
        usable_hop(
            graph.senders@[u]@[k].contacts@[m],
            sndr.at_time,
            bundle,
            graph.nodes@[u],
            graph.nodes@[graph.senders@[u]@[k].rx as int],
        ) == Some(h),
        is_hop_stage(
            stage,
            sndr,
            graph.senders@[u]@[k].contacts@[m],
            m,
            h,
            graph.nodes@[u],
            graph.nodes@[graph.senders@[u]@[k].rx as int],
        ),
    ensures
        walked_from(graph, stage, source, at_time, bundle),
{
    let v = graph.senders@[u]@[k].rx;
    assert(graph.receiver_wf(u, k));
    assert(graph.nodes@[u].info.id == u);
    assert(graph.nodes@[v as int].info.id == v);
    let via = stage.via->Some_0;
    lemma_same_stage_path(*via.parent_route, sndr);
    let hop = PathHop { contact: m as usize, tx_node: u as NodeID, rx_node: v };
    assert(path_of(stage) == path_of(sndr).push(hop));
    assert(path_of(stage).drop_last() =~= path_of(sndr));
    assert(path_of(stage).last() == hop);
    assert(graph.slot_of(u, v) == Some(k)) by {
        assert(graph.senders@[u]@[k].rx == v);
        let s = choose|s: int| 0 <= s < graph.senders@[u]@.len() && (#[trigger] graph.senders@[u]@[s]).rx == v;
        if s != k {
            if s < k {
                assert(graph.senders@[u]@[s].rx != graph.senders@[u]@[k].rx);
            } else {
                assert(graph.senders@[u]@[k].rx != graph.senders@[u]@[s].rx);
            }
        }
    }
    assert(hop_result(graph, hop, sndr.at_time, bundle) == Some(h));
}

/// Attempts to make a hop from the stage `sndr_route` over one of `contacts`
/// (from `first_contact_index` on, ordered by opening date), sending from
/// `tx_node` to `rx_node`, keeping the contact that gives the earliest arrival.
pub fn try_make_hop<NM: NodeManager, CM: ContactManager>(
    first_contact_index: usize,
    sndr_route: &RouteStage,
    bundle: &Bundle,
    contacts: &[Contact<CM>],
    tx_node: &Node<NM>,
    rx_node: &Node<NM>,
) -> (r: Option<RouteStage>)
    requires
        forall|i: int| 0 <= i < contacts@.len() ==> (#[trigger] contacts@[i]).manager.wf(),
    ensures
        match best_hop(
            first_contact_index as int,
            *sndr_route,
            *bundle,
            contacts@,
            *tx_node,
            *rx_node,
        ) {
            Some((m, h)) => r matches Some(st) && is_hop_stage(
                st,
                *sndr_route,
                contacts@[m],
                m,
                h,
                *tx_node,
                *rx_node,
            ),
            None => r is None,
        },
        best_hop(first_contact_index as int, *sndr_route, *bundle, contacts@, *tx_node, *rx_node) matches Some((m, h))
            ==> first_contact_index <= m < contacts@.len(),
{
    let ghost cs = contacts@;
    let ghost first = first_contact_index as int;
    let ghost at = sndr_route.at_time;
    let mut index: usize = 0;
    let mut final_data = ContactManagerTxData {
        tx_start: 0,
        tx_end: 0,
        delay: 0,
        expiration: 0,
        arrival: DATE_MAX,
        rx_start: 0,
        rx_end: 0,
    };
    let sending_time = sndr_route.at_time;
    let mut idx: usize = first_contact_index;
    let mut stopped = false;
    while !stopped && idx < contacts.len()
        invariant
            cs == contacts@,
            at == sending_time,
            forall|i: int| 0 <= i < cs.len() ==> (#[trigger] cs[i]).manager.wf(),
            first <= idx,
            idx <= cs.len() || idx == first,
            final_data.arrival == best_arrival(cs, first, idx as int, at, *bundle, *tx_node, *rx_node),
            final_data.arrival < DATE_MAX ==> {
                &&& first <= index < idx
                &&& usable_hop(cs[index as int], at, *bundle, *tx_node, *rx_node) == Some(final_data)
                &&& forall|j: int|
                    first <= j < index ==> hop_arrival(cs[j], at, *bundle, *tx_node, *rx_node)
                        != final_data.arrival
            },
            forall|j: int|
                first <= j < idx ==> !prunes(cs, first, j, at, *bundle, *tx_node, *rx_node),
            stopped ==> idx < cs.len() && prunes(cs, first, idx as int, at, *bundle, *tx_node, *rx_node),
        decreases cs.len() - idx + (if stopped { 0int } else { 1int }),
    {
        let contact = &contacts[idx];
        if !contact.suppressed {
            if contact.info.start > final_data.arrival {
                stopped = true;
            } else {
                let best_before = final_data.arrival;
                if let Some(hop) = contact.manager.dry_run_tx(&contact.info, sending_time, bundle) {
                    if tx_node.manager.dry_run_tx(sending_time, hop.tx_start, hop.tx_end, bundle) {
                        if hop.arrival < final_data.arrival {
                            if rx_node.manager.dry_run_rx(
                                hop.tx_start.saturating_add(hop.delay),
                                hop.arrival,
                                bundle,
                            ) {
                                final_data = hop;
                                index = idx;
                            }
                        }
                    }
                }
                proof {
                    if index == idx && final_data.arrival < best_before {
                        assert forall|j: int| first <= j < idx implies hop_arrival(
                            cs[j],
                            at,
                            *bundle,
                            *tx_node,
                            *rx_node,
                        ) != final_data.arrival by {
                            lemma_best_arrival_le(cs, first, idx as int, j, at, *bundle, *tx_node, *rx_node);
                        }
                    }
                }
                idx = idx + 1;
            }
        } else {
            idx = idx + 1;
        }
    }
    let ghost n = scan_end(cs, first, at, *bundle, *tx_node, *rx_node);
    proof {
        if stopped {
            assert(n == idx);
        } else {
            if exists|k: int| first <= k < cs.len() && prunes(cs, first, k, at, *bundle, *tx_node, *rx_node) {
                let k = choose|k: int|
                    first <= k < cs.len() && prunes(cs, first, k, at, *bundle, *tx_node, *rx_node);
                assert(!prunes(cs, first, k, at, *bundle, *tx_node, *rx_node));
            }
            assert(n == idx);
        }
    }
    if final_data.arrival < DATE_MAX {
        proof {
            let b = final_data.arrival;
            let m = choose|m: int|
                first <= m < n && hop_arrival(cs[m], at, *bundle, *tx_node, *rx_node) == b && forall|
                    j: int,
                |
                    first <= j < m ==> hop_arrival(cs[j], at, *bundle, *tx_node, *rx_node) != b;
            assert(hop_arrival(cs[index as int], at, *bundle, *tx_node, *rx_node) == b);
            if m < index {
                assert(hop_arrival(cs[m], at, *bundle, *tx_node, *rx_node) != b);
            } else if index < m {
                assert(hop_arrival(cs[index as int], at, *bundle, *tx_node, *rx_node) != b);
            }
        }
        let seleted_contact = &contacts[index];
        let mut route_proposition = RouteStage::new(
            final_data.arrival,
            seleted_contact.get_rx_node(),
            Some(
                ViaHop {
                    contact: index,
                    parent_route: Box::new(sndr_route.duplicate()),
                    tx_node: tx_node.info.id,
                    rx_node: rx_node.info.id,
                },
            ),
        );
        route_proposition.hop_count = sndr_route.hop_count.saturating_add(1);
        route_proposition.cumulative_delay = sndr_route.cumulative_delay.saturating_add(
            final_data.delay,
        );
        route_proposition.expiration = crate::types::date_min(
            final_data.expiration.saturating_sub(sndr_route.cumulative_delay),
            sndr_route.expiration,
        );
        return Some(route_proposition);
    }
    None
}

} // verus!
