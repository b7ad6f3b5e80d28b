use vstd::prelude::*;
use core::marker::PhantomData;
use crate::bundle::{same_bundle, Bundle};
use crate::contact::Contact;
use crate::contact_manager::{ContactManager, ContactManagerTxData};
use crate::node::Node;
use crate::distance::{next_hop_count, Distance};
use crate::errors::ASABRError;
use crate::multigraph::Multigraph;
use crate::node_manager::NodeManager;
use crate::pathfinding::{
    SearchPolicy,
    no_better_hop,
    search_optimal,
    avoids,
    best_hop,
    law_hop_stage_fields,
    usable_hop,
    law_best_hop_is_earliest,
    lemma_hop_walked,
    lemma_source_walked,
    lemma_best_hop_at,
    relaxed,
    ascending,
    try_make_hop,
    walked_from,
    PathFindingOutput,
    Pathfinding,
};
use crate::route_stage::{path_of, PathHop, RouteStage};
use crate::types::{Date, NodeID};

verus! {

/// `D` prefers stage `a` to stage `b`.
pub open spec fn prefers<D: Distance>(a: RouteStage, b: RouteStage) -> bool {
    D::better_spec(a.hop_count, a.at_time, b.hop_count, b.at_time)
}

/// The stage that `try_make_hop` would make from the stage of the reached node
/// `u` over its receiver at slot `k` is not preferred by `D` to the stage held
/// for the receiving node, which is reached (an excluded node aside, where
/// exclusions are on).
pub open spec fn settled<NM: NodeManager, CM: ContactManager, D: Distance>(
    multigraph: Multigraph<NM, CM>,
    out: PathFindingOutput,
    bundle: Bundle,
    excluded_nodes: Seq<NodeID>,
    with_exclusions: bool,
    u: int,
    k: int,
) -> bool {
    let v = multigraph.senders@[u]@[k].rx;
    let su = out.by_destination@[u]->0;
    ||| with_exclusions && excluded_nodes.contains(v)
    ||| match best_hop(
        0,
        su,
        bundle,
        multigraph.senders@[u]@[k].contacts@,
        multigraph.nodes@[u],
        multigraph.nodes@[v as int],
    ) {
        None => true,
        Some((_m, h)) => out.by_destination@[v as int] matches Some(sv) && !D::better_spec(
            next_hop_count(su.hop_count),
            h.arrival,
            sv.hop_count,
            sv.at_time,
        ),
    }
}

/// A usable hop over `contact` arrives no earlier than it is asked for.
pub proof fn lemma_usable_hop_not_before<NM: NodeManager, CM: ContactManager>(
    contact: Contact<CM>,
    at_time: Date,
    bundle: Bundle,
    tx_node: Node<NM>,
    rx_node: Node<NM>,
)
    requires
        contact.manager.wf(),
    ensures
        usable_hop(contact, at_time, bundle, tx_node, rx_node) matches Some(h) ==> at_time <= h.arrival,
{
    contact.manager.lemma_tx_not_before(contact.info, at_time, bundle.priority, bundle.size);
}

/// The hop that `try_make_hop` makes arrives no earlier than the sender's date.
pub proof fn lemma_best_hop_not_before<NM: NodeManager, CM: ContactManager>(
    first: int,
    sndr: RouteStage,
    bundle: Bundle,
    contacts: Seq<Contact<CM>>,
    tx_node: Node<NM>,
    rx_node: Node<NM>,
    m: int,
    h: ContactManagerTxData,
)
    requires
        0 <= first,
        forall|i: int| 0 <= i < contacts.len() ==> (#[trigger] contacts[i]).manager.wf(),
        best_hop(first, sndr, bundle, contacts, tx_node, rx_node) == Some((m, h)),
    ensures
        sndr.at_time <= h.arrival,
{
    assert(0 <= m < contacts.len() && usable_hop(contacts[m], sndr.at_time, bundle, tx_node, rx_node) == Some(h))
        by {
        law_best_hop_is_earliest(first, sndr, bundle, contacts, tx_node, rx_node);
    }
    lemma_usable_hop_not_before(contacts[m], sndr.at_time, bundle, tx_node, rx_node);
}

/// Whether `x` is in `list`.
pub fn contains_node(list: &[NodeID], x: NodeID) -> (r: bool)
    ensures
        r == list@.contains(x),
{
    let mut i: usize = 0;
    while i < list.len()
        invariant
            0 <= i <= list@.len(),
            forall|j: int| 0 <= j < i ==> list@[j] != x,
        decreases list@.len() - i,
    {
        if list[i] == x {
            assert(list@[i as int] == x);
            return true;
        }
        i = i + 1;
    }
    false
}

/// A pathfinding that keeps, for each node, the one stage by which it is best
/// reached under the distance `D`, expanding nodes from the best reached one
/// (a Dijkstra search over nodes). With `WITH_EXCLUSIONS`, the excluded nodes
/// are never reached.
pub struct NodeParenting<NM: NodeManager, CM: ContactManager, D: Distance, const WITH_EXCLUSIONS: bool> {
    _phantom_nm: PhantomData<NM>,
    _phantom_cm: PhantomData<CM>,
    _phantom_d: PhantomData<D>,
}

/// Node parenting that ignores the excluded nodes.
pub type NodeParentingTree<NM, CM, D> = NodeParenting<NM, CM, D, false>;

/// Node parenting that never reaches the excluded nodes.
pub type NodeParentingTreeExcl<NM, CM, D> = NodeParenting<NM, CM, D, true>;

impl<NM: NodeManager, CM: ContactManager, D: Distance, const WITH_EXCLUSIONS: bool> NodeParenting<
    NM,
    CM,
    D,
    WITH_EXCLUSIONS,
> {
    /// The reached node, not yet expanded, that a scan of the first `i` nodes in
    /// order keeps: the first one found, replaced by each later one that `D`
    /// prefers to the one kept.
    pub open spec fn scan_best(out: PathFindingOutput, visited: Seq<bool>, i: int) -> Option<int>
        decreases i,
    {
        if i <= 0 {
            None
        } else {
            let prev = Self::scan_best(out, visited, i - 1);
            let k = i - 1;
            if !visited[k] && out.by_destination@[k] is Some {
                match prev {
                    None => Some(k),
                    Some(b) => {
                        let sk = out.by_destination@[k]->0;
                        let sb = out.by_destination@[b]->0;
                        if D::better_spec(sk.hop_count, sk.at_time, sb.hop_count, sb.at_time) {
                            Some(k)
                        } else {
                            prev
                        }
                    },
                }
            } else {
                prev
            }
        }
    }

    /// The reached node, not yet expanded, that is best reached.
    fn select_next(out: &PathFindingOutput, visited: &Vec<bool>) -> (r: Option<usize>)
        requires
            visited@.len() == out.by_destination@.len(),
        ensures
            r matches Some(u) ==> u < visited@.len() && !visited@[u as int]
                && out.by_destination@[u as int] is Some,
            (match r {
                Some(u) => Some(u as int),
                None => None,
            }) == Self::scan_best(*out, visited@, visited@.len() as int),
            r is None <==> forall|j: int|
                0 <= j < visited@.len() ==> visited@[j] || (#[trigger] out.by_destination@[j]) is None,
            r matches Some(u) ==> forall|j: int|
                0 <= j < visited@.len() && !visited@[j] && (#[trigger] out.by_destination@[j]) is Some
                    ==> !prefers::<D>(out.by_destination@[j]->0, out.by_destination@[u as int]->0),
    {
        let n = visited.len();
        let mut best: Option<usize> = None;
        let mut i: usize = 0;
        while i < n
            invariant
                n == visited@.len(),
                n == out.by_destination@.len(),
                0 <= i <= n,
                best matches Some(u) ==> u < n && !visited@[u as int]
                    && out.by_destination@[u as int] is Some,
                (match best {
                    Some(u) => Some(u as int),
                    None => None,
                }) == Self::scan_best(*out, visited@, i as int),
                best is None <==> forall|j: int|
                    0 <= j < i ==> visited@[j] || (#[trigger] out.by_destination@[j]) is None,
                best matches Some(b) ==> forall|j: int|
                    0 <= j < i && !visited@[j] && (#[trigger] out.by_destination@[j]) is Some ==> !prefers::<D>(
                        out.by_destination@[j]->0,
                        out.by_destination@[b as int]->0,
                    ),
            decreases n - i,
        {
            if !visited[i] {
                if let Some(st) = &out.by_destination[i] {
                    proof {
                        D::lemma_irreflexive(st.hop_count, st.at_time);
                    }
                    match best {
                        None => {
                            best = Some(i);
                        },
                        Some(b) => {
                            if let Some(bst) = &out.by_destination[b] {
                                if D::better(st, bst) {
                                    proof {
                                        assert forall|j: int|
                                            0 <= j < i + 1 && !visited@[j] && (#[trigger] out.by_destination@[j]) is Some
                                                implies !prefers::<D>(
                                            out.by_destination@[j]->0,
                                            out.by_destination@[i as int]->0,
                                        ) by {
                                            let sj = out.by_destination@[j]->0;
                                            if j < i && prefers::<D>(sj, *st) {
                                                D::lemma_transitive(
                                                    sj.hop_count,
                                                    sj.at_time,
                                                    st.hop_count,
                                                    st.at_time,
                                                    bst.hop_count,
                                                    bst.at_time,
                                                );
                                            }
                                        }
                                    }
                                    best = Some(i);
                                }
                            }
                        },
                    }
                }
            }
            i = i + 1;
        }
        best
    }
}

/// Reaching one more node that is not visited keeps the hops of the visited
/// nodes relaxed.
pub proof fn lemma_relaxed_kept<NM: NodeManager, CM: ContactManager>(
    multigraph: Multigraph<NM, CM>,
    out: PathFindingOutput,
    next: PathFindingOutput,
    source: NodeID,
    bundle: Bundle,
    excluded_nodes: Seq<NodeID>,
    visited: Seq<bool>,
    u: int,
    k: int,
)
    requires
        next.by_destination@.len() == out.by_destination@.len(),
        visited.len() == out.by_destination@.len(),
        forall|j: int|
            0 <= j < out.by_destination@.len() && (#[trigger] out.by_destination@[j]) is Some
                ==> next.by_destination@[j] is Some,
        forall|j: int|
            0 <= j < out.by_destination@.len() && #[trigger] visited[j] ==> next.by_destination@[j]
                == out.by_destination@[j],
        forall|u2: int, k2: int|
            0 <= u2 < visited.len() && visited[u2] && 0 <= k2 < multigraph.senders@[u2]@.len() && (u2 != u
                || k2 < k) ==> #[trigger] relaxed(multigraph, out, source, bundle, excluded_nodes, u2, k2),
        multigraph.wf(),
        visited.len() == multigraph.nodes@.len(),
    ensures
        forall|u2: int, k2: int|
            0 <= u2 < visited.len() && visited[u2] && 0 <= k2 < multigraph.senders@[u2]@.len() && (u2 != u
                || k2 < k) ==> #[trigger] relaxed(multigraph, next, source, bundle, excluded_nodes, u2, k2),
{
    assert forall|u2: int, k2: int|
        0 <= u2 < visited.len() && visited[u2] && 0 <= k2 < multigraph.senders@[u2]@.len() && (u2 != u
            || k2 < k) implies #[trigger] relaxed(multigraph, next, source, bundle, excluded_nodes, u2, k2) by {
        assert(relaxed(multigraph, out, source, bundle, excluded_nodes, u2, k2));
        assert(multigraph.receiver_wf(u2, k2));
        let v = multigraph.senders@[u2]@[k2].rx;
        assert(next.by_destination@[u2] == out.by_destination@[u2]);
        if out.by_destination@[v as int] is Some {
            assert(next.by_destination@[v as int] is Some);
        }
    }
}

/// Replacing the stage of the unexpanded receiver `v` of slot `k` of the node
/// `u` being expanded by the hop made to it, which `D` prefers to what `v` held
/// and does not prefer to the stage of `u`, keeps the expanded hops settled and
/// the expanded nodes no worse than the others.
#[verifier::rlimit(100)]
#[verifier::spinoff_prover]
pub proof fn lemma_replace_kept<NM: NodeManager, CM: ContactManager, D: Distance>(
    multigraph: Multigraph<NM, CM>,
    out0: PathFindingOutput,
    out: PathFindingOutput,
    bundle: Bundle,
    excl: Seq<NodeID>,
    with_exclusions: bool,
    visited: Seq<bool>,
    u: int,
    k: int,
    st_u: RouteStage,
    hop: RouteStage,
)
    requires
        multigraph.wf(),
        visited.len() == multigraph.nodes@.len(),
        out0.by_destination@.len() == visited.len(),
        0 <= u < visited.len(),
        visited[u],
        0 <= k < multigraph.senders@[u]@.len(),
        !visited[multigraph.senders@[u]@[k].rx as int],
        out.by_destination@ == out0.by_destination@.update(multigraph.senders@[u]@[k].rx as int, Some(hop)),
        out0.by_destination@[u] == Some(st_u),
        out0.by_destination@[multigraph.senders@[u]@[k].rx as int] is None || prefers::<D>(
            hop,
            out0.by_destination@[multigraph.senders@[u]@[k].rx as int]->0,
        ),
        best_hop(
            0,
            st_u,
            bundle,
            multigraph.senders@[u]@[k].contacts@,
            multigraph.nodes@[u],
            multigraph.nodes@[multigraph.senders@[u]@[k].rx as int],
        ) matches Some((_m, h0)) && h0.arrival == hop.at_time,
        next_hop_count(st_u.hop_count) == hop.hop_count,
        !prefers::<D>(hop, st_u),
        forall|x: int| 0 <= x < visited.len() && #[trigger] visited[x] ==> out0.by_destination@[x] is Some,
        forall|u2: int, k2: int|
            0 <= u2 < visited.len() && visited[u2] && 0 <= k2 < multigraph.senders@[u2]@.len() && (u2 != u
                || k2 < k) ==> #[trigger] settled::<NM, CM, D>(multigraph, out0, bundle, excl, with_exclusions, u2, k2),
        forall|x: int, y: int|
            #![trigger out0.by_destination@[x], out0.by_destination@[y]]
            0 <= x < visited.len() && 0 <= y < visited.len() && visited[x] && !visited[y]
                && out0.by_destination@[y] is Some ==> !prefers::<D>(out0.by_destination@[y]->0, out0.by_destination@[x]->0),
        forall|x: int|
            0 <= x < visited.len() && visited[x] && x != u ==> !prefers::<D>(
                st_u,
                #[trigger] out0.by_destination@[x]->0,
            ),
    ensures
        forall|u2: int, k2: int|
            0 <= u2 < visited.len() && visited[u2] && 0 <= k2 < multigraph.senders@[u2]@.len() && (u2 != u
                || k2 < k + 1) ==> #[trigger] settled::<NM, CM, D>(multigraph, out, bundle, excl, with_exclusions, u2, k2),
        forall|x: int, y: int|
            #![trigger out.by_destination@[x], out.by_destination@[y]]
            0 <= x < visited.len() && 0 <= y < visited.len() && visited[x] && !visited[y]
                && out.by_destination@[y] is Some ==> !prefers::<D>(out.by_destination@[y]->0, out.by_destination@[x]->0),
        forall|x: int|
            0 <= x < visited.len() && visited[x] && x != u ==> !prefers::<D>(
                st_u,
                #[trigger] out.by_destination@[x]->0,
            ),
{
    let n = visited.len();
    let v = multigraph.senders@[u]@[k].rx as int;
    assert(multigraph.receiver_wf(u, k));
    D::lemma_irreflexive(hop.hop_count, hop.at_time);
    assert forall|u2: int, k2: int|
        0 <= u2 < n && visited[u2] && 0 <= k2 < multigraph.senders@[u2]@.len() && (u2
            != u || k2 < k + 1) implies #[trigger] settled::<NM, CM, D>(
        multigraph,
        out,
        bundle,
        excl,
        with_exclusions,
        u2,
        k2,
    ) by {
        assert(multigraph.receiver_wf(u2, k2));
        assert(out.by_destination@[u2] == out0.by_destination@[u2]);
        if u2 != u || k2 < k {
            assert(settled::<NM, CM, D>(
                multigraph,
                out0,
                bundle,
                excl,
                with_exclusions,
                u2,
                k2,
            ));
            let v2 = multigraph.senders@[u2]@[k2].rx;
            let s2 = out0.by_destination@[u2]->0;
            if v2 as int == v {
                if let Some((m2, h2)) = best_hop(
                    0,
                    s2,
                    bundle,
                    multigraph.senders@[u2]@[k2].contacts@,
                    multigraph.nodes@[u2],
                    multigraph.nodes@[v2 as int],
                ) {
                    if out0.by_destination@[v] is Some {
                        let sv = out0.by_destination@[v]->0;
                        if D::better_spec(
                            next_hop_count(s2.hop_count),
                            h2.arrival,
                            hop.hop_count,
                            hop.at_time,
                        ) {
                            D::lemma_transitive(
                                next_hop_count(s2.hop_count),
                                h2.arrival,
                                hop.hop_count,
                                hop.at_time,
                                sv.hop_count,
                                sv.at_time,
                            );
                        }
                    }
                }
            } else {
                assert(out.by_destination@[v2 as int] == out0.by_destination@[v2 as int]);
            }
        }
    }
    assert forall|x: int, y: int|
        #![trigger out.by_destination@[x], out.by_destination@[y]]
        0 <= x < n && 0 <= y < n && visited[x] && !visited[y]
            && out.by_destination@[y] is Some implies !prefers::<D>(
        out.by_destination@[y]->0,
        out.by_destination@[x]->0,
    ) by {
        assert(out.by_destination@[x] == out0.by_destination@[x]);
        if y == v {
            if x != u {
                let sx = out0.by_destination@[x]->0;
                assert(!prefers::<D>(st_u, sx));
                D::lemma_not_better_transitive(
                    hop.hop_count,
                    hop.at_time,
                    st_u.hop_count,
                    st_u.at_time,
                    sx.hop_count,
                    sx.at_time,
                );
            }
        } else {
            assert(out.by_destination@[y] == out0.by_destination@[y]);
        }
    }
    assert forall|x: int|
        0 <= x < n && visited[x] && x != u implies !prefers::<D>(
        st_u,
        #[trigger] out.by_destination@[x]->0,
    ) by {
        assert(out.by_destination@[x] == out0.by_destination@[x]);
    }
}

/// The number of nodes not visited yet.
pub open spec fn unvisited(v: Seq<bool>) -> nat
    decreases v.len(),
{
    if v.len() == 0 {
        0
    } else {
        unvisited(v.drop_last()) + if v.last() {
            0nat
        } else {
            1nat
        }
    }
}

/// Visiting a node not visited yet leaves one fewer to visit.
pub proof fn lemma_visit(v: Seq<bool>, u: int)
    requires
        0 <= u < v.len(),
        !v[u],
    ensures
        unvisited(v.update(u, true)) + 1 == unvisited(v),
    decreases v.len(),
{
    let w = v.update(u, true);
    if u == v.len() - 1 {
        assert(w.drop_last() =~= v.drop_last());
    } else {
        assert(w.drop_last() =~= v.drop_last().update(u, true));
        lemma_visit(v.drop_last(), u);
    }
}

impl<NM: NodeManager, CM: ContactManager, D: Distance, const WITH_EXCLUSIONS: bool> SearchPolicy for NodeParenting<
    NM,
    CM,
    D,
    WITH_EXCLUSIONS,
> {
    open spec fn avoids_excluded() -> bool {
        WITH_EXCLUSIONS
    }

    open spec fn stage_better(a_hops: u32, a_at: Date, b_hops: u32, b_at: Date) -> bool {
        D::better_spec(a_hops, a_at, b_hops, b_at)
    }
}

impl<NM: NodeManager, CM: ContactManager, D: Distance, const WITH_EXCLUSIONS: bool> Pathfinding<
    NM,
    CM,
> for NodeParenting<NM, CM, D, WITH_EXCLUSIONS> {
    fn new() -> (r: Self) {
        NodeParenting { _phantom_nm: PhantomData, _phantom_cm: PhantomData, _phantom_d: PhantomData }
    }


    /// Expands nodes from the source, best reached first, keeping for each node
    /// the hop that `D` prefers among the best hops from the expanded nodes.
    #[verifier::rlimit(80)]
    fn get_next(
        &mut self,
        multigraph: &Multigraph<NM, CM>,
        current_time: Date,
        source: NodeID,
        bundle: &Bundle,
        excluded_nodes_sorted: &[NodeID],
    ) -> (r: Result<PathFindingOutput, ASABRError>)
        ensures
            WITH_EXCLUSIONS ==> (r matches Ok(out) ==> forall|i: int|
                0 <= i < out.by_destination@.len() && i != source && excluded_nodes_sorted@.contains(
                    i as NodeID,
                ) ==> (#[trigger] out.by_destination@[i]) is None),
            r matches Ok(out) ==> forall|u: int, k: int|
                0 <= u < out.by_destination@.len() && 0 <= k < multigraph.senders@[u]@.len()
                    && out.by_destination@[u] is Some ==> #[trigger] settled::<NM, CM, D>(
                    *multigraph,
                    out,
                    *bundle,
                    excluded_nodes_sorted@,
                    WITH_EXCLUSIONS,
                    u,
                    k,
                ),
    {
        let n = multigraph.nodes.len();
        let s = source as usize;
        if s >= n {
            return Err(ASABRError::NodeOutOfRange);
        }
        let mut out = PathFindingOutput::new(
            bundle,
            RouteStage::new(current_time, source, None),
            excluded_nodes_sorted,
            n,
        );
        let source_stage = RouteStage::new(current_time, source, None);
        proof {
            lemma_source_walked(*multigraph, source_stage, *bundle);
        }
        out.by_destination.set(s, Some(source_stage));
        let mut visited: Vec<bool> = Vec::new();
        let mut i: usize = 0;
        while i < n
            invariant
                0 <= i <= n,
                visited@.len() == i,
                forall|j: int| 0 <= j < i ==> !#[trigger] visited@[j],
            decreases n - i,
        {
            visited.push(false);
            i = i + 1;
        }
        let ghost src0 = out.source;
        proof {
            assert(path_of(source_stage) =~= Seq::<PathHop>::empty());
            assert(avoids(source_stage, excluded_nodes_sorted@));
        }
        assert forall|j: int| 0 <= j < n implies !visited@[j] && ((#[trigger] out.by_destination@[j]) is Some
            ==> j == s) by {}
        let ghost excl = excluded_nodes_sorted@;
        let mut done = false;
        while !done
            invariant
                excl == excluded_nodes_sorted@,
                forall|j: int| 0 <= j < n && #[trigger] visited@[j] ==> out.by_destination@[j] is Some,
                forall|u2: int, k2: int|
                    0 <= u2 < n && visited@[u2] && 0 <= k2 < multigraph.senders@[u2]@.len() ==> #[trigger] relaxed(
                        *multigraph,
                        out,
                        source,
                        *bundle,
                        excl,
                        u2,
                        k2,
                    ),
                done ==> forall|j: int| 0 <= j < n ==> visited@[j] || (#[trigger] out.by_destination@[j]) is None,
                forall|u2: int, k2: int|
                    0 <= u2 < n && visited@[u2] && 0 <= k2 < multigraph.senders@[u2]@.len() ==> #[trigger] settled::<
                        NM,
                        CM,
                        D,
                    >(*multigraph, out, *bundle, excl, WITH_EXCLUSIONS, u2, k2),
                forall|x: int, y: int|
                    #![trigger out.by_destination@[x], out.by_destination@[y]]
                    0 <= x < n && 0 <= y < n && visited@[x] && !visited@[y] && out.by_destination@[y] is Some
                        ==> !prefers::<D>(out.by_destination@[y]->0, out.by_destination@[x]->0),
                visited@[s as int] || forall|j: int|
                    0 <= j < n ==> !visited@[j] && ((#[trigger] out.by_destination@[j]) is Some ==> j == s),
                WITH_EXCLUSIONS ==> forall|j: int|
                    0 <= j < n ==> ((#[trigger] out.by_destination@[j]) matches Some(st) ==> avoids(st, excl)),
                multigraph.wf(),
                n == multigraph.nodes@.len(),
                s == source,
                s < n,
                visited@.len() == n,
                out.by_destination@.len() == n,
                out.source == src0,
                src0.at_time == current_time && src0.to_node == source && src0.via is None,
                same_bundle(out.bundle, *bundle),
                ascending(out.excluded_nodes_sorted@),
                out.excluded_nodes_sorted@.to_multiset() == excluded_nodes_sorted@.to_multiset(),
                forall|j: int|
                    0 <= j < n ==> ((#[trigger] out.by_destination@[j]) matches Some(st) ==> st.to_node == j
                        && walked_from(*multigraph, st, source, current_time, *bundle)),
                out.by_destination@[s as int] matches Some(st) && st.at_time == current_time
                    && st.via is None,
                WITH_EXCLUSIONS ==> forall|j: int|
                    0 <= j < n && j != s && excluded_nodes_sorted@.contains(j as NodeID)
                        ==> (#[trigger] out.by_destination@[j]) is None,
            decreases unvisited(visited@) * 2 + (if done { 0int } else { 1int }),
        {
            match Self::select_next(&out, &visited) {
                None => {
                    done = true;
                },
                Some(u) => {
                    proof {
                        lemma_visit(visited@, u as int);
                    }
                    let ghost vis0 = visited@;
                    visited.set(u, true);
                    let ghost st_u = out.by_destination@[u as int]->0;
                    let su = match &out.by_destination[u] {
                        Some(st) => st.duplicate(),
                        None => RouteStage::new(current_time, u as NodeID, None),
                    };
                    proof {
                        assert forall|u2: int, k2: int|
                            0 <= u2 < n && visited@[u2] && 0 <= k2 < multigraph.senders@[u2]@.len() && (u2 != u
                                || k2 < 0) implies #[trigger] settled::<NM, CM, D>(
                            *multigraph,
                            out,
                            *bundle,
                            excl,
                            WITH_EXCLUSIONS,
                            u2,
                            k2,
                        ) by {
                            assert(vis0[u2]);
                        }
                        assert forall|x: int, y: int|
                            #![trigger out.by_destination@[x], out.by_destination@[y]]
                            0 <= x < n && 0 <= y < n && visited@[x] && !visited@[y] && out.by_destination@[y] is Some
                                implies !prefers::<D>(out.by_destination@[y]->0, out.by_destination@[x]->0) by {
                            assert(!vis0[y]);
                            if x != u {
                                assert(vis0[x]);
                            }
                        }
                        assert forall|x: int|
                            0 <= x < n && visited@[x] && x != u implies !prefers::<D>(
                            st_u,
                            #[trigger] out.by_destination@[x]->0,
                        ) by {
                            assert(vis0[x]);
                            assert(out.by_destination@[u as int] is Some);
                        }
                        if !vis0[s as int] {
                            assert(out.by_destination@[u as int] is Some);
                        }
                    }
                    let receivers = &multigraph.senders[u];
                    let m = receivers.len();
                    let mut k: usize = 0;
                    while k < m
                        invariant
                            multigraph.wf(),
                            n == multigraph.nodes@.len(),
                            u < n,
                            receivers == multigraph.senders@[u as int],
                            m == receivers@.len(),
                            0 <= k <= m,
                            s == source,
                            s < n,
                            visited@.len() == n,
                            out.by_destination@.len() == n,
                            out.source == src0,
                            same_bundle(out.bundle, *bundle),
                            ascending(out.excluded_nodes_sorted@),
                            out.excluded_nodes_sorted@.to_multiset() == excluded_nodes_sorted@.to_multiset(),
                            forall|j: int|
                                0 <= j < n ==> ((#[trigger] out.by_destination@[j]) matches Some(st)
                                    ==> st.to_node == j && walked_from(
                                    *multigraph,
                                    st,
                                    source,
                                    current_time,
                                    *bundle,
                                )),
                            su.to_node == u,
                            walked_from(*multigraph, su, source, current_time, *bundle),
                            excl == excluded_nodes_sorted@,
                            visited@[u as int],
                            out.by_destination@[u as int] == Some(st_u),
                            su.at_time == st_u.at_time,
                            forall|j: int| 0 <= j < n && #[trigger] visited@[j] ==> out.by_destination@[j] is Some,
                            forall|u2: int, k2: int|
                                0 <= u2 < n && visited@[u2] && 0 <= k2 < multigraph.senders@[u2]@.len() && (u2 != u
                                    || k2 < k) ==> #[trigger] relaxed(
                                    *multigraph,
                                    out,
                                    source,
                                    *bundle,
                                    excl,
                                    u2,
                                    k2,
                                ),
                            out.by_destination@[s as int] matches Some(st) && st.at_time == current_time
                                && st.via is None,
                            WITH_EXCLUSIONS ==> forall|j: int|
                                0 <= j < n && j != s && excluded_nodes_sorted@.contains(j as NodeID)
                                    ==> (#[trigger] out.by_destination@[j]) is None,
                            forall|u2: int, k2: int|
                                0 <= u2 < n && visited@[u2] && 0 <= k2 < multigraph.senders@[u2]@.len() && (u2 != u
                                    || k2 < k) ==> #[trigger] settled::<NM, CM, D>(
                                    *multigraph,
                                    out,
                                    *bundle,
                                    excl,
                                    WITH_EXCLUSIONS,
                                    u2,
                                    k2,
                                ),
                            forall|x: int, y: int|
                                #![trigger out.by_destination@[x], out.by_destination@[y]]
                                0 <= x < n && 0 <= y < n && visited@[x] && !visited@[y] && out.by_destination@[y] is Some
                                    ==> !prefers::<D>(out.by_destination@[y]->0, out.by_destination@[x]->0),
                            forall|x: int|
                                0 <= x < n && visited@[x] && x != u ==> !prefers::<D>(
                                    st_u,
                                    #[trigger] out.by_destination@[x]->0,
                                ),
                            visited@[s as int],
                            su.hop_count == st_u.hop_count,
                            path_of(su) == path_of(st_u),
                            WITH_EXCLUSIONS ==> forall|j: int|
                                0 <= j < n ==> ((#[trigger] out.by_destination@[j]) matches Some(st) ==> avoids(
                                    st,
                                    excl,
                                )),
                        decreases m - k,
                    {
                        let receiver = &receivers[k];
                        proof {
                            assert(multigraph.receiver_wf(u as int, k as int));
                        }
                        let v = receiver.rx as usize;
                        let skip = v == s || visited[v] || (WITH_EXCLUSIONS && contains_node(
                            excluded_nodes_sorted,
                            receiver.rx,
                        ));
                        if !skip {
                            let hop = try_make_hop(
                                0,
                                &su,
                                bundle,
                                receiver.contacts.as_slice(),
                                &multigraph.nodes[u],
                                &multigraph.nodes[v],
                            );
                            if let Some(hop) = hop {
                                proof {
                                    let cs = receiver.contacts@;
                                    let tx = multigraph.nodes@[u as int];
                                    let rx = multigraph.nodes@[v as int];
                                    law_best_hop_is_earliest(0, su, *bundle, cs, tx, rx);
                                    lemma_best_hop_at(0, su, st_u, *bundle, cs, tx, rx);
                                    if let Some((m, h)) = best_hop(0, su, *bundle, cs, tx, rx) {
                                        law_hop_stage_fields(0, su, *bundle, cs, tx, rx, m, h, hop);
                                        lemma_best_hop_not_before(0, su, *bundle, cs, tx, rx, m, h);
                                        D::lemma_hop_not_better(st_u.hop_count, st_u.at_time, h.arrival);
                                        assert(next_hop_count(st_u.hop_count) == hop.hop_count);
                                        assert(h.arrival == hop.at_time);
                                        lemma_hop_walked(
                                            *multigraph,
                                            su,
                                            hop,
                                            u as int,
                                            k as int,
                                            m,
                                            h,
                                            source,
                                            current_time,
                                            *bundle,
                                        );
                                    }
                                }
                                let replace = match &out.by_destination[v] {
                                    None => true,
                                    Some(cur) => D::better(&hop, cur),
                                };
                                proof {
                                    assert(best_hop(0, st_u, *bundle, receiver.contacts@, multigraph.nodes@[u as int], multigraph.nodes@[v as int]) matches Some((_m, h0))
                                        && h0.arrival == hop.at_time);
                                    assert(next_hop_count(st_u.hop_count) == hop.hop_count);
                                    assert(!prefers::<D>(hop, st_u));
                                }
                                if replace {
                                    let ghost out0 = out;
                                    out.by_destination.set(v, Some(hop));
                                    proof {
                                        if WITH_EXCLUSIONS {
                                            assert(multigraph.nodes@[v as int].info.id == v);
                                            assert forall|j: int| 0 <= j < n implies ((
                                            #[trigger] out.by_destination@[j]) matches Some(st) ==> avoids(st, excl)) by {
                                                if j != v {
                                                    assert(out.by_destination@[j] == out0.by_destination@[j]);
                                                } else {
                                                    let p = path_of(hop);
                                                    assert forall|i: int| 0 <= i < p.len() implies !excl.contains(
                                                        #[trigger] p[i].rx_node,
                                                    ) by {
                                                        if i < p.len() - 1 {
                                                            assert(p[i] == path_of(st_u)[i]);
                                                            assert(avoids(st_u, excl));
                                                        }
                                                    }
                                                }
                                            }
                                        }
                                        lemma_replace_kept::<NM, CM, D>(
                                            *multigraph,
                                            out0,
                                            out,
                                            *bundle,
                                            excl,
                                            WITH_EXCLUSIONS,
                                            visited@,
                                            u as int,
                                            k as int,
                                            st_u,
                                            hop,
                                        );
                                        assert forall|x: int|
                                            0 <= x < n && visited@[x] && x != u implies !prefers::<D>(
                                            st_u,
                                            #[trigger] out.by_destination@[x]->0,
                                        ) by {
                                            assert(out.by_destination@[x] == out0.by_destination@[x]);
                                        }
                                        assert forall|j: int|
                                            0 <= j < n && #[trigger] visited@[j] implies out.by_destination@[j]
                                                == out0.by_destination@[j] by {
                                            if j == v {
                                                assert(!visited@[v as int]);
                                            }
                                        }
                                        lemma_relaxed_kept(
                                            *multigraph,
                                            out0,
                                            out,
                                            source,
                                            *bundle,
                                            excl,
                                            visited@,
                                            u as int,
                                            k as int,
                                        );
                                    }
                                }
                            }
                        }
                        proof {
                            let tx = multigraph.nodes@[u as int];
                            let rx = multigraph.nodes@[v as int];
                            lemma_best_hop_at(0, su, st_u, *bundle, receiver.contacts@, tx, rx);
                            if skip && !(WITH_EXCLUSIONS && excl.contains(receiver.rx)) {
                                assert(visited@[v as int]);
                                if let Some((m0, h0)) = best_hop(0, st_u, *bundle, receiver.contacts@, tx, rx) {
                                    lemma_best_hop_not_before(0, st_u, *bundle, receiver.contacts@, tx, rx, m0, h0);
                                    D::lemma_hop_not_better(st_u.hop_count, st_u.at_time, h0.arrival);
                                    if v as int != u as int {
                                        let sv = out.by_destination@[v as int]->0;
                                        D::lemma_not_better_transitive(
                                            next_hop_count(st_u.hop_count),
                                            h0.arrival,
                                            st_u.hop_count,
                                            st_u.at_time,
                                            sv.hop_count,
                                            sv.at_time,
                                        );
                                    }
                                }
                            }
                            assert(settled::<NM, CM, D>(
                                *multigraph,
                                out,
                                *bundle,
                                excl,
                                WITH_EXCLUSIONS,
                                u as int,
                                k as int,
                            ));
                            assert(relaxed(*multigraph, out, source, *bundle, excl, u as int, k as int));
                        }
                        k = k + 1;
                    }
                },
            }
        }
        proof {
            assert forall|u: int, k: int|
                0 <= u < out.by_destination@.len() && 0 <= k < multigraph.senders@[u]@.len()
                    && out.by_destination@[u] is Some implies #[trigger] no_better_hop::<NM, CM, Self>(
                *multigraph,
                out,
                *bundle,
                excluded_nodes_sorted@,
                u,
                k,
            ) by {
                assert(settled::<NM, CM, D>(*multigraph, out, *bundle, excl, WITH_EXCLUSIONS, u, k));
            }
            assert(search_optimal::<NM, CM, Self>(*multigraph, *bundle, excluded_nodes_sorted@, out));
        }
        Ok(out)
    }
}

} // verus!
